use minecraft_afk_bot::asyncio::WireError;
use minecraft_afk_bot::client::{seal, split_frame, Client};
use minecraft_afk_bot::datatypes::{MString, VarInt};
use minecraft_afk_bot::packets::{ClientBound, ServerBound};

fn text(s: &str) -> MString {
    MString(s.to_string())
}

fn session(status: i64, compression: i64) -> Client {
    Client { status, compression }
}

fn inflate(data: &[u8]) -> Vec<u8> {
    let mut out = Vec::new();
    let mut decoder = flate2::read::ZlibDecoder::new(data);
    std::io::Read::read_to_end(&mut decoder, &mut out).unwrap();
    out
}

fn deflate(data: &[u8]) -> Vec<u8> {
    let mut encoder = flate2::write::ZlibEncoder::new(Vec::new(), flate2::Compression::best());
    std::io::Write::write_all(&mut encoder, data).unwrap();
    encoder.finish().unwrap()
}

#[test]
fn new_session() {
    assert_eq!(Client::new(), session(0, -1));
}

#[test]
fn send_without_compression() {
    let mut client = session(3, -1);
    assert_eq!(client.send(ServerBound::HeldItemChange(2)), Ok(vec![3, 0x25, 0, 2]));
    assert_eq!(client, session(3, -1));
}

#[test]
fn send_handshake_moves_to_the_requested_phase() {
    let mut client = Client::new();
    let frame = client
        .send(ServerBound::Handshake(VarInt(753), text("bruh"), 25565, VarInt(2)))
        .unwrap();
    assert_eq!(
        frame,
        vec![11, 0x00, 0xf1, 0x05, 4, b'b', b'r', b'u', b'h', 0x63, 0xdd, 0x02]
    );
    assert_eq!(client, session(2, -1));
    let mut client = Client::new();
    client
        .send(ServerBound::Handshake(VarInt(753), text("x"), 1, VarInt(1)))
        .unwrap();
    assert_eq!(client.status, 1);
}

#[test]
fn send_below_the_threshold_has_the_second_header() {
    let mut client = session(3, 256);
    assert_eq!(client.send(ServerBound::HeldItemChange(2)), Ok(vec![4, 0, 0x25, 0, 2]));
    // a payload as long as the threshold is not compressed
    let mut client = session(3, 3);
    assert_eq!(client.send(ServerBound::HeldItemChange(2)), Ok(vec![4, 0, 0x25, 0, 2]));
}

#[test]
fn send_long_payload_below_the_threshold_counts_the_whole_frame() {
    let message = "m".repeat(200);
    let mut client = session(3, 1000);
    let frame = client.send(ServerBound::ChatMessage(text(&message))).unwrap();
    // id, two bytes of length, the text: 203; with the second header: 204
    assert_eq!(&frame[..3], &[0xcc, 0x01, 0x00]);
    assert_eq!(&frame[3..6], &[0x03, 0xc8, 0x01]);
    assert_eq!(frame.len(), 2 + 204);
}

#[test]
fn send_above_the_threshold_compresses() {
    let message = "m".repeat(200);
    let mut client = session(3, 64);
    let frame = client.send(ServerBound::ChatMessage(text(&message))).unwrap();
    let (body, used) = split_frame(&frame).unwrap();
    assert_eq!(used, frame.len());
    // the size that is announced is the size of the payload
    assert_eq!(&body[..2], &[0xcb, 0x01]);
    let mut payload = vec![0x03, 0xc8, 0x01];
    payload.extend_from_slice(message.as_bytes());
    assert_ne!(&body[2..], &payload[..]);
    assert!(body.len() < payload.len());
    assert_eq!(inflate(&body[2..]), payload);
}

#[test]
fn send_with_threshold_zero_compresses_everything() {
    let mut client = session(3, 0);
    let frame = client.send(ServerBound::HeldItemChange(2)).unwrap();
    let (body, _) = split_frame(&frame).unwrap();
    assert_eq!(body[0], 3);
    assert_eq!(inflate(&body[1..]), vec![0x25, 0, 2]);
}

#[test]
fn seal_builds_the_frame() {
    assert_eq!(seal(0, &[1, 2, 3]), Ok(vec![4, 0, 1, 2, 3]));
    assert_eq!(seal(300, &[9]), Ok(vec![3, 0xac, 0x02, 9]));
    assert_eq!(seal(0, &[]), Ok(vec![1, 0]));
}

#[test]
fn split_frame_cases() {
    assert_eq!(split_frame(&[2, 7, 8, 9]), Ok((&[7u8, 8][..], 3)));
    assert_eq!(split_frame(&[0, 1]), Ok((&[][..], 1)));
    assert_eq!(split_frame(&[]), Err(WireError::Incomplete));
    assert_eq!(split_frame(&[0x80]), Err(WireError::Incomplete));
    assert_eq!(split_frame(&[3, 1, 2]), Err(WireError::Incomplete));
    let minus_one = [0xff, 0xff, 0xff, 0xff, 0xff, 0xff, 0xff, 0xff, 0xff, 0x01];
    assert_eq!(split_frame(&minus_one), Err(WireError::BadLength));
}

#[test]
fn receive_without_compression() {
    let mut client = session(3, -1);
    let input = [9, 0x1f, 0, 0, 0, 0, 0, 0, 0, 5, 0xaa];
    assert_eq!(client.receive(&input), Ok((ClientBound::KeepAlive(5), 10)));
    assert_eq!(client, session(3, -1));
}

#[test]
fn receive_with_the_second_header_and_a_raw_payload() {
    let mut client = session(3, 256);
    let input = [10, 0, 0x1f, 0, 0, 0, 0, 0, 0, 0, 5];
    assert_eq!(client.receive(&input), Ok((ClientBound::KeepAlive(5), 11)));
}

#[test]
fn receive_a_compressed_payload() {
    let mut payload = vec![0x19, 0xc8, 0x01];
    payload.extend_from_slice("k".repeat(200).as_bytes());
    let compressed = deflate(&payload);
    let mut input = Vec::new();
    input.push((compressed.len() + 2) as u8);
    input.extend_from_slice(&[0xcb, 0x01]);
    input.extend_from_slice(&compressed);
    input.extend_from_slice(&[1, 2, 3]);
    let mut client = session(3, 64);
    assert_eq!(
        client.receive(&input),
        Ok((ClientBound::PlayDisconnect(text(&"k".repeat(200))), input.len() - 3))
    );
}

#[test]
fn receive_a_payload_that_does_not_inflate() {
    let mut client = session(3, 64);
    assert_eq!(
        client.receive(&[5, 9, 1, 2, 3, 4]),
        Err(WireError::Inflate)
    );
    assert_eq!(client, session(3, 64));
}

#[test]
fn receive_login_success_starts_play() {
    let mut client = session(2, -1);
    let mut input = vec![18, 0x02];
    input.extend_from_slice(&[0; 16]);
    input.push(0);
    assert_eq!(
        client.receive(&input),
        Ok((ClientBound::LoginSuccess(0, text("")), 19))
    );
    assert_eq!(client, session(3, -1));
}

#[test]
fn receive_set_compression_sets_the_threshold() {
    let mut client = session(2, -1);
    assert_eq!(
        client.receive(&[3, 0x03, 0x80, 0x02]),
        Ok((ClientBound::SetCompression(VarInt(256)), 4))
    );
    assert_eq!(client, session(2, 256));
    // the next frame has the second header
    assert_eq!(
        client.receive(&[3, 0, 0x03, 0x00]),
        Ok((ClientBound::SetCompression(VarInt(0)), 4))
    );
    assert_eq!(client, session(2, 0));
    // a negative threshold switches compression off again
    let minus_one = [0xff, 0xff, 0xff, 0xff, 0xff, 0xff, 0xff, 0xff, 0xff, 0x01];
    let mut input = vec![12, 0, 0x03];
    input.extend_from_slice(&minus_one);
    assert_eq!(
        client.receive(&input),
        Ok((ClientBound::SetCompression(VarInt(-1)), 13))
    );
    assert_eq!(client, session(2, -1));
    assert_eq!(client.receive(&[2, 0x77, 1]), Ok((ClientBound::Unknown(VarInt(0x77)), 3)));
}

#[test]
fn receive_incomplete_and_broken_frames() {
    let mut client = session(3, -1);
    assert_eq!(client.receive(&[]), Err(WireError::Incomplete));
    assert_eq!(client.receive(&[9, 0x1f, 0, 0]), Err(WireError::Incomplete));
    // a whole frame whose packet is cut short
    assert_eq!(client.receive(&[3, 0x1f, 0, 0, 9, 9, 9, 9, 9, 9]), Err(WireError::UnexpectedEof));
    // an empty frame has no packet id
    assert_eq!(client.receive(&[0, 1, 2]), Err(WireError::UnexpectedEof));
    let mut client = session(3, 10);
    assert_eq!(client.receive(&[0]), Err(WireError::UnexpectedEof));
    assert_eq!(client, session(3, 10));
}

#[test]
fn receive_takes_the_whole_frame_of_a_known_packet() {
    // a keepalive with two bytes behind it in its frame
    let mut client = session(3, -1);
    let input = [11, 0x1f, 0, 0, 0, 0, 0, 0, 0, 5, 0xee, 0xee, 2, 0x70, 0];
    assert_eq!(client.receive(&input), Ok((ClientBound::KeepAlive(5), 12)));
    assert_eq!(
        client.receive(&input[12..]),
        Ok((ClientBound::Unknown(VarInt(0x70)), 3))
    );
}

#[test]
fn unknown_packet_between_two_known_ones() {
    let mut stream = vec![9, 0x1f, 0, 0, 0, 0, 0, 0, 0, 1];
    stream.extend_from_slice(&[6, 0x7e, 0xde, 0xad, 0xbe, 0xef, 0x1f]);
    stream.extend_from_slice(&[4, 0x36, 2, 8, 9]);
    let mut client = session(3, -1);
    let mut at = 0;
    let mut seen = Vec::new();
    while at < stream.len() {
        let (packet, used) = client.receive(&stream[at..]).unwrap();
        seen.push(packet);
        at += used;
    }
    assert_eq!(at, stream.len());
    assert_eq!(
        seen,
        vec![
            ClientBound::KeepAlive(1),
            ClientBound::Unknown(VarInt(0x7e)),
            ClientBound::DestroyEntities(vec![VarInt(8), VarInt(9)]),
        ]
    );
}

#[test]
fn unknown_packet_between_two_known_ones_with_compression() {
    let mut stream = vec![10, 0, 0x1f, 0, 0, 0, 0, 0, 0, 0, 1];
    let mut unknown = vec![0x7e];
    unknown.extend_from_slice(&[0x55; 300]);
    let compressed = deflate(&unknown);
    stream.push((compressed.len() + 2) as u8);
    stream.extend_from_slice(&[0xad, 0x02]);
    stream.extend_from_slice(&compressed);
    stream.extend_from_slice(&[5, 0, 0x36, 2, 8, 9]);
    let mut client = session(3, 64);
    let mut at = 0;
    let mut seen = Vec::new();
    while at < stream.len() {
        let (packet, used) = client.receive(&stream[at..]).unwrap();
        seen.push(packet);
        at += used;
    }
    assert_eq!(
        seen,
        vec![
            ClientBound::KeepAlive(1),
            ClientBound::Unknown(VarInt(0x7e)),
            ClientBound::DestroyEntities(vec![VarInt(8), VarInt(9)]),
        ]
    );
}

fn round_trip(threshold: i64, name: &str) {
    // a login start reads, in the login phase, as a refusal with the same text
    let mut sender = session(2, threshold);
    let frame = sender.send(ServerBound::LoginStart(text(name))).unwrap();
    let mut receiver = session(2, threshold);
    assert_eq!(
        receiver.receive(&frame),
        Ok((ClientBound::LoginDisconnect(text(name)), frame.len()))
    );
    // a keepalive echo has an id that the play phase does not know
    let mut sender = session(3, threshold);
    let frame = sender.send(ServerBound::KeepAlive(77)).unwrap();
    let mut receiver = session(3, threshold);
    assert_eq!(
        receiver.receive(&frame),
        Ok((ClientBound::Unknown(VarInt(0x10)), frame.len()))
    );
}

#[test]
fn frame_round_trip_without_compression() {
    round_trip(-1, "short");
    round_trip(-1, &"long".repeat(100));
}

#[test]
fn frame_round_trip_below_the_threshold() {
    round_trip(1000, "short");
    round_trip(1000, &"long".repeat(100));
}

#[test]
fn frame_round_trip_above_the_threshold() {
    round_trip(0, "short");
    round_trip(1, "short");
    round_trip(64, &"long".repeat(100));
}
