use minecraft_afk_bot::asyncio::{AsyncSlice, AsyncVec, SizeCalc, WireError};
use minecraft_afk_bot::datatypes::{Double, Float, MString, Slot, VarInt};
use minecraft_afk_bot::packets::{ClientBound, ServerBound};

fn wire(packet: ServerBound) -> Vec<u8> {
    let mut counted = SizeCalc(0);
    packet.clone().gen_to(&mut counted);
    let mut out = AsyncVec(Vec::new());
    packet.gen_to(&mut out);
    assert_eq!(counted.0, out.0.len() as u64);
    out.0
}

fn read(bytes: &[u8], status: i64) -> Result<(ClientBound, usize), WireError> {
    let mut reader = AsyncSlice::new(bytes);
    let packet = ClientBound::read_from(&mut reader, bytes.len() as i64, status)?;
    Ok((packet, reader.position()))
}

fn read_declared(bytes: &[u8], length: i64, status: i64) -> Result<(ClientBound, usize), WireError> {
    let mut reader = AsyncSlice::new(bytes);
    let packet = ClientBound::read_from(&mut reader, length, status)?;
    Ok((packet, reader.position()))
}

fn text(s: &str) -> MString {
    MString(s.to_string())
}

#[test]
fn handshake_bytes() {
    let packet = ServerBound::Handshake(VarInt(753), text("bruh"), 25565, VarInt(2));
    assert_eq!(
        wire(packet),
        vec![0x00, 0xf1, 0x05, 4, b'b', b'r', b'u', b'h', 0x63, 0xdd, 0x02]
    );
}

#[test]
fn outbound_ids_and_fields() {
    assert_eq!(wire(ServerBound::StatusRequest), vec![0x00]);
    assert_eq!(wire(ServerBound::LoginStart(text("bot"))), vec![0x00, 3, b'b', b'o', b't']);
    assert_eq!(
        wire(ServerBound::KeepAlive(0x0102030405060708)),
        vec![0x10, 1, 2, 3, 4, 5, 6, 7, 8]
    );
    assert_eq!(wire(ServerBound::ChatMessage(text("hi"))), vec![0x03, 2, b'h', b'i']);
    assert_eq!(wire(ServerBound::ClientStatus(VarInt(1))), vec![0x04, 1]);
    assert_eq!(
        wire(ServerBound::InteractEntity(VarInt(300), VarInt(1), true)),
        vec![0x0e, 0xac, 0x02, 1, 1]
    );
    assert_eq!(
        wire(ServerBound::InteractEntity(VarInt(5), VarInt(1), false)),
        vec![0x0e, 5, 1, 0]
    );
    assert_eq!(wire(ServerBound::Animation(VarInt(1))), vec![0x2c, 1]);
    assert_eq!(wire(ServerBound::TeleportConfirm(VarInt(7))), vec![0x00, 7]);
    assert_eq!(
        wire(ServerBound::EntityAction(VarInt(9), VarInt(0), VarInt(0))),
        vec![0x1c, 9, 0, 0]
    );
    assert_eq!(wire(ServerBound::HeldItemChange(8)), vec![0x25, 0, 8]);
    assert_eq!(wire(ServerBound::UseItem(VarInt(0))), vec![0x2f, 0]);
    assert_eq!(
        wire(ServerBound::PlayerDigging(VarInt(5), 0, 0)),
        vec![0x1b, 5, 0, 0, 0, 0, 0, 0, 0, 0, 0]
    );
}

#[test]
fn position_and_rotation_bytes() {
    let packet = ServerBound::PlayerPositionAndRotation(
        Double(1.5f64.to_bits()),
        Double(62.38f64.to_bits()),
        Double((-7.25f64).to_bits()),
        Float(90.0f32.to_bits()),
        Float((-12.5f32).to_bits()),
        true,
    );
    let mut expected = vec![0x13];
    expected.extend_from_slice(&1.5f64.to_be_bytes());
    expected.extend_from_slice(&62.38f64.to_be_bytes());
    expected.extend_from_slice(&(-7.25f64).to_be_bytes());
    expected.extend_from_slice(&90.0f32.to_be_bytes());
    expected.extend_from_slice(&(-12.5f32).to_be_bytes());
    expected.push(1);
    assert_eq!(wire(packet), expected);
}

#[test]
fn clone_keeps_the_packet() {
    let packet = ServerBound::Handshake(VarInt(753), text("host"), 1, VarInt(1));
    assert_eq!(packet.clone(), packet);
    assert!(packet.is_encodable());
    assert!(ServerBound::StatusRequest.is_encodable());
}

#[test]
fn handshake_phase_knows_no_packet() {
    assert_eq!(read(&[0x00, 1, 2], 0), Ok((ClientBound::Unknown(VarInt(0)), 3)));
    assert_eq!(read(&[0x1f], 0), Ok((ClientBound::Unknown(VarInt(0x1f)), 1)));
}

#[test]
fn status_phase() {
    assert_eq!(
        read(&[0x00, 2, b'{', b'}'], 1),
        Ok((ClientBound::StatusResponse(text("{}")), 4))
    );
    assert_eq!(read(&[0x01, 0, 0, 0], 1), Ok((ClientBound::Unknown(VarInt(1)), 4)));
}

#[test]
fn login_phase() {
    assert_eq!(
        read(&[0x00, 3, b'b', b'a', b'n'], 2),
        Ok((ClientBound::LoginDisconnect(text("ban")), 5))
    );
    let mut success = vec![0x02];
    success.extend_from_slice(&[0; 15]);
    success.push(42);
    success.extend_from_slice(&[3, b'b', b'o', b't']);
    assert_eq!(
        read(&success, 2),
        Ok((ClientBound::LoginSuccess(42, text("bot")), 21))
    );
    assert_eq!(
        read(&[0x03, 0x80, 0x02], 2),
        Ok((ClientBound::SetCompression(VarInt(256)), 3))
    );
    assert_eq!(read(&[0x04, 9], 2), Ok((ClientBound::Unknown(VarInt(4)), 2)));
}

#[test]
fn play_phase_simple_packets() {
    assert_eq!(
        read(&[0x1f, 0, 0, 0, 0, 0, 0, 1, 2], 3),
        Ok((ClientBound::KeepAlive(258), 9))
    );
    assert_eq!(
        read(&[0x19, 2, b'g', b'g'], 3),
        Ok((ClientBound::PlayDisconnect(text("gg")), 4))
    );
    let mut health = vec![0x49];
    health.extend_from_slice(&5.5f32.to_be_bytes());
    health.push(17);
    health.extend_from_slice(&2.0f32.to_be_bytes());
    assert_eq!(
        read(&health, 3),
        Ok((
            ClientBound::UpdateHealth(Float(5.5f32.to_bits()), VarInt(17), Float(2.0f32.to_bits())),
            10
        ))
    );
    assert_eq!(
        read(&[0x36, 2, 5, 0xac, 0x02], 3),
        Ok((ClientBound::DestroyEntities(vec![VarInt(5), VarInt(300)]), 5))
    );
    assert_eq!(
        read(&[0x27, 9, 0, 1, 0xff, 0xff, 0x80, 0x00, 1], 3),
        Ok((ClientBound::EntityPosition(VarInt(9), 1, -1, i16::MIN, true), 9))
    );
    assert_eq!(
        read(&[0x06, 2, 6, 102, 3, 0, 1, 0xac, 0x02], 3),
        Ok((
            ClientBound::Statistics(vec![
                (VarInt(6), VarInt(102), VarInt(3)),
                (VarInt(0), VarInt(1), VarInt(300))
            ]),
            9
        ))
    );
}

#[test]
fn play_phase_position_packets() {
    let mut look = vec![0x34];
    look.extend_from_slice(&1.0f64.to_be_bytes());
    look.extend_from_slice(&64.0f64.to_be_bytes());
    look.extend_from_slice(&(-3.0f64).to_be_bytes());
    look.extend_from_slice(&45.0f32.to_be_bytes());
    look.extend_from_slice(&0.0f32.to_be_bytes());
    look.push(0x1f);
    look.push(11);
    assert_eq!(
        read(&look, 3),
        Ok((
            ClientBound::PlayerPositionAndLook(
                Double(1.0f64.to_bits()),
                Double(64.0f64.to_bits()),
                Double((-3.0f64).to_bits()),
                Float(45.0f32.to_bits()),
                Float(0),
                0x1f,
                VarInt(11)
            ),
            35
        ))
    );
    let mut spawn = vec![0x02, 0xac, 0x02];
    spawn.extend_from_slice(&[0; 15]);
    spawn.push(1);
    spawn.push(102);
    spawn.extend_from_slice(&2.0f64.to_be_bytes());
    spawn.extend_from_slice(&3.0f64.to_be_bytes());
    spawn.extend_from_slice(&4.0f64.to_be_bytes());
    spawn.extend_from_slice(&[10, 20, 30]);
    spawn.extend_from_slice(&[0, 1, 0xff, 0xff, 0, 0]);
    assert_eq!(
        read(&spawn, 3),
        Ok((
            ClientBound::SpawnLivingEntity(
                VarInt(300),
                1,
                VarInt(102),
                Double(2.0f64.to_bits()),
                Double(3.0f64.to_bits()),
                Double(4.0f64.to_bits()),
                10,
                20,
                30,
                1,
                -1,
                0
            ),
            53
        ))
    );
    let mut teleport = vec![0x56, 7];
    teleport.extend_from_slice(&2.0f64.to_be_bytes());
    teleport.extend_from_slice(&3.0f64.to_be_bytes());
    teleport.extend_from_slice(&4.0f64.to_be_bytes());
    teleport.extend_from_slice(&[1, 2, 0]);
    assert_eq!(
        read(&teleport, 3),
        Ok((
            ClientBound::EntityTeleport(
                VarInt(7),
                Double(2.0f64.to_bits()),
                Double(3.0f64.to_bits()),
                Double(4.0f64.to_bits()),
                1,
                2,
                false
            ),
            29
        ))
    );
}

#[test]
fn join_game_passes_over_what_follows_the_entity_id() {
    let bytes = [0x24, 0, 0, 1, 0x2c, 9, 9, 9, 9, 9, 9];
    assert_eq!(read(&bytes, 3), Ok((ClientBound::JoinGame(300), 11)));
    // the packet ends where it declares, not where the input ends
    assert_eq!(read_declared(&bytes, 7, 3), Ok((ClientBound::JoinGame(300), 7)));
    assert_eq!(read_declared(&bytes, 5, 3), Ok((ClientBound::JoinGame(300), 5)));
    // a packet that declares less than it holds
    assert_eq!(read_declared(&bytes, 4, 3), Err(WireError::BadLength));
    // a packet that declares more than there is
    assert_eq!(read_declared(&bytes, 12, 3), Err(WireError::UnexpectedEof));
}

#[test]
fn set_slot_passes_over_the_item_tail() {
    let bytes = [0x15, 0, 0, 36, 1, 0xbd, 0x04, 3, 0x0a, 0x00, 0x00];
    assert_eq!(
        read(&bytes, 3),
        Ok((ClientBound::SetSlot(0, 36, Slot::Present(VarInt(573), 3)), 11))
    );
    assert_eq!(
        read(&[0x15, 0xff, 0xff, 0xff, 0], 3),
        Ok((ClientBound::SetSlot(-1, -1, Slot::NotPresent), 5))
    );
    assert_eq!(
        read_declared(&[0x15, 0, 0, 36, 0, 7, 7], 5, 3),
        Ok((ClientBound::SetSlot(0, 36, Slot::NotPresent), 5))
    );
    assert_eq!(
        read_declared(&[0x15, 0, 0, 36, 1, 5, 1], 6, 3),
        Err(WireError::BadLength)
    );
}

#[test]
fn unknown_packet_takes_what_it_declares() {
    let bytes = [0x7f, 1, 2, 3, 4, 5, 0x1f];
    assert_eq!(read_declared(&bytes, 6, 3), Ok((ClientBound::Unknown(VarInt(0x7f)), 6)));
    assert_eq!(read_declared(&bytes, 1, 3), Ok((ClientBound::Unknown(VarInt(0x7f)), 1)));
    assert_eq!(read_declared(&bytes, 0, 3), Err(WireError::BadLength));
    assert_eq!(read_declared(&bytes, -5, 3), Err(WireError::BadLength));
    assert_eq!(read_declared(&bytes, i64::MIN, 3), Err(WireError::BadLength));
    assert_eq!(read_declared(&bytes, 8, 3), Err(WireError::UnexpectedEof));
    // a phase that does not exist knows no packet
    assert_eq!(read_declared(&bytes, 3, 4), Ok((ClientBound::Unknown(VarInt(0x7f)), 3)));
    assert_eq!(read_declared(&bytes, 3, -1), Ok((ClientBound::Unknown(VarInt(0x7f)), 3)));
    // a two-byte id
    assert_eq!(
        read(&[0xac, 0x02, 1, 2, 3], 3),
        Ok((ClientBound::Unknown(VarInt(300)), 5))
    );
}

#[test]
fn the_same_id_means_another_packet_in_another_phase() {
    let bytes = [0x02, 0, 0, 0, 0, 0, 0, 0, 0, 0, 0, 0, 0, 0, 0, 0, 1, 0];
    assert_eq!(read(&bytes, 2), Ok((ClientBound::LoginSuccess(1, text("")), 18)));
    assert_eq!(read(&bytes, 1), Ok((ClientBound::Unknown(VarInt(2)), 18)));
    assert_eq!(read(&bytes, 3), Err(WireError::UnexpectedEof));
}

#[test]
fn packets_that_end_early() {
    assert_eq!(read(&[], 3), Err(WireError::UnexpectedEof));
    assert_eq!(read(&[0x1f, 0, 0], 3), Err(WireError::UnexpectedEof));
    assert_eq!(read(&[0x49, 0, 0, 0, 0, 17], 3), Err(WireError::UnexpectedEof));
    assert_eq!(read(&[0x19, 9, b'a'], 3), Err(WireError::UnexpectedEof));
    assert_eq!(read(&[0x24, 0, 0], 3), Err(WireError::UnexpectedEof));
    assert_eq!(read(&[0x06, 2, 6, 1, 1], 3), Err(WireError::UnexpectedEof));
}
