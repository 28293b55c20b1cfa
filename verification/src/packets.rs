//! The packet catalogs: what the client sends, what the server sends, and
//! the numeric id under which each travels in a given session phase.
use crate::asyncio::{MyAsyncRead, MyAsyncWrite, SizeCalc, WireError};
use crate::datatypes::{DataType, Double, Float, MString, Slot, VarInt};
use vstd::prelude::*;

verus! {

/// Sent from the client to the server.
#[derive(Debug, PartialEq, Eq)]
pub enum ServerBound {
    /// Protocol version, server address, server port, requested phase.
    Handshake(VarInt, MString, u16, VarInt),
    StatusRequest,
    /// The player's name.
    LoginStart(MString),
    /// The number that the server's keepalive carried.
    KeepAlive(i64),
    /// The raw message.
    ChatMessage(MString),
    /// 0 to respawn, 1 to request statistics.
    ClientStatus(VarInt),
    /// Target entity, kind of action (1 attacks), whether sneaking.
    InteractEntity(VarInt, VarInt, bool),
    /// x, y, z, yaw, pitch, whether on the ground.
    PlayerPositionAndRotation(Double, Double, Double, Float, Float, bool),
    /// The hand that swings: 0 main, 1 off.
    Animation(VarInt),
    /// The id of the teleport that is confirmed.
    TeleportConfirm(VarInt),
    /// The player's entity id, the action, the jump boost.
    EntityAction(VarInt, VarInt, VarInt),
    /// The hotbar slot to hold, 0 to 8.
    HeldItemChange(i16),
    /// The hand that uses its item.
    UseItem(VarInt),
    /// The action, the block position, the face.
    PlayerDigging(VarInt, i64, i8),
}

impl Clone for ServerBound {
    fn clone(&self) -> (r: Self)
        ensures
            r == *self,
    {
        match self {
            ServerBound::Handshake(protocol, address, port, next_state) => ServerBound::Handshake(
                *protocol,
                address.clone(),
                *port,
                *next_state,
            ),
            ServerBound::StatusRequest => ServerBound::StatusRequest,
            ServerBound::LoginStart(username) => ServerBound::LoginStart(username.clone()),
            ServerBound::KeepAlive(id) => ServerBound::KeepAlive(*id),
            ServerBound::ChatMessage(message) => ServerBound::ChatMessage(message.clone()),
            ServerBound::ClientStatus(what) => ServerBound::ClientStatus(*what),
            ServerBound::InteractEntity(entity_id, action, sneaking) => ServerBound::InteractEntity(
                *entity_id,
                *action,
                *sneaking,
            ),
            ServerBound::PlayerPositionAndRotation(x, y, z, yaw, pitch, on_ground) => {
                ServerBound::PlayerPositionAndRotation(*x, *y, *z, *yaw, *pitch, *on_ground)
            },
            ServerBound::Animation(hand) => ServerBound::Animation(*hand),
            ServerBound::TeleportConfirm(id) => ServerBound::TeleportConfirm(*id),
            ServerBound::EntityAction(id, action, jump_boost) => ServerBound::EntityAction(
                *id,
                *action,
                *jump_boost,
            ),
            ServerBound::HeldItemChange(slot_id) => ServerBound::HeldItemChange(*slot_id),
            ServerBound::UseItem(hand) => ServerBound::UseItem(*hand),
            ServerBound::PlayerDigging(action, position, face) => ServerBound::PlayerDigging(
                *action,
                *position,
                *face,
            ),
        }
    }
}

/// Writes one more value behind what `output` has taken since `start`.
fn put<T: DataType, O: MyAsyncWrite>(
    item: T,
    output: &mut O,
    Ghost(start): Ghost<O>,
    Ghost(done): Ghost<Seq<u8>>,
    Ghost(total): Ghost<nat>,
)
    requires
        item.encodable(),
        old(output).holds_after(&start, done),
        start.has_room(total),
        done.len() + item.wire().len() <= total,
    ensures
        final(output).holds_after(&start, done + item.wire()),
{
    let ghost before = *output;
    proof {
        before.lemma_room_left(&start, done, (total - done.len()) as nat);
        before.lemma_room_for_less((total - done.len()) as nat, item.wire().len());
    }
    item.serialize(output);
    proof {
        output.lemma_holds_after_both(&start, &before, done, item.wire());
    }
}

impl ServerBound {
    /// The id under which the packet travels.
    pub open spec fn packet_id(&self) -> VarInt {
        match self {
            ServerBound::Handshake(..) => VarInt(0x00),
            ServerBound::StatusRequest => VarInt(0x00),
            ServerBound::LoginStart(..) => VarInt(0x00),
            ServerBound::KeepAlive(..) => VarInt(0x10),
            ServerBound::ChatMessage(..) => VarInt(0x03),
            ServerBound::ClientStatus(..) => VarInt(0x04),
            ServerBound::InteractEntity(..) => VarInt(0x0E),
            ServerBound::PlayerPositionAndRotation(..) => VarInt(0x13),
            ServerBound::Animation(..) => VarInt(0x2c),
            ServerBound::TeleportConfirm(..) => VarInt(0x00),
            ServerBound::EntityAction(..) => VarInt(0x1c),
            ServerBound::HeldItemChange(..) => VarInt(0x25),
            ServerBound::UseItem(..) => VarInt(0x2F),
            ServerBound::PlayerDigging(..) => VarInt(0x1B),
        }
    }

    /// The encodings of the packet's fields, in their declared order.
    pub open spec fn fields(&self) -> Seq<u8> {
        match self {
            ServerBound::Handshake(protocol, address, port, next_state) => protocol.wire()
                + address.wire() + port.wire() + next_state.wire(),
            ServerBound::StatusRequest => Seq::empty(),
            ServerBound::LoginStart(username) => username.wire(),
            ServerBound::KeepAlive(id) => id.wire(),
            ServerBound::ChatMessage(message) => message.wire(),
            ServerBound::ClientStatus(what) => what.wire(),
            ServerBound::InteractEntity(entity_id, action, sneaking) => entity_id.wire()
                + action.wire() + sneaking.wire(),
            ServerBound::PlayerPositionAndRotation(x, y, z, yaw, pitch, on_ground) => x.wire()
                + y.wire() + z.wire() + yaw.wire() + pitch.wire() + on_ground.wire(),
            ServerBound::Animation(hand) => hand.wire(),
            ServerBound::TeleportConfirm(id) => id.wire(),
            ServerBound::EntityAction(id, action, jump_boost) => id.wire() + action.wire()
                + jump_boost.wire(),
            ServerBound::HeldItemChange(slot_id) => slot_id.wire(),
            ServerBound::UseItem(hand) => hand.wire(),
            ServerBound::PlayerDigging(action, position, face) => action.wire() + position.wire()
                + face.wire(),
        }
    }

    /// The packet on the wire: its id, then its fields. Nothing follows them.
    pub open spec fn wire(&self) -> Seq<u8> {
        self.packet_id().wire() + self.fields()
    }

    /// True when every string in the packet can be sent on this machine.
    pub open spec fn encodable(&self) -> bool {
        match self {
            ServerBound::Handshake(_, address, _, _) => address.encodable(),
            ServerBound::LoginStart(username) => username.encodable(),
            ServerBound::ChatMessage(message) => message.encodable(),
            _ => true,
        }
    }

    /// Whether the packet can be sent on this machine.
    pub fn is_encodable(&self) -> (r: bool)
        ensures
            r == self.encodable(),
    {
        match self {
            ServerBound::Handshake(_, address, _, _) => address.is_encodable(),
            ServerBound::LoginStart(username) => username.is_encodable(),
            ServerBound::ChatMessage(message) => message.is_encodable(),
            _ => true,
        }
    }

    /// A packet that can be sent is at most a few bytes longer than its
    /// longest string, and has at least its id.
    pub proof fn lemma_wire_len(&self)
        requires
            self.encodable(),
        ensures
            1 <= self.wire().len() <= i64::MAX + 64,
    {
        crate::endian::lemma_byte_ranges();
        let id = self.packet_id();
        crate::datatypes::lemma_varint_groups_len(crate::endian::unsigned_of(id.0 as int, 8));
        match self {
            ServerBound::Handshake(protocol, address, port, next_state) => {
                lemma_varint_len(*protocol);
                lemma_mstring_len(address);
                lemma_varint_len(*next_state);
                crate::endian::lemma_be_bytes_len(*port as nat, 2);
            },
            ServerBound::StatusRequest => {},
            ServerBound::LoginStart(username) => {
                lemma_mstring_len(username);
            },
            ServerBound::KeepAlive(number) => {
                crate::endian::lemma_be_bytes_len(crate::endian::unsigned_of(*number as int, 8), 8);
            },
            ServerBound::ChatMessage(message) => {
                lemma_mstring_len(message);
            },
            ServerBound::ClientStatus(what) => {
                lemma_varint_len(*what);
            },
            ServerBound::InteractEntity(entity_id, action, sneaking) => {
                lemma_varint_len(*entity_id);
                lemma_varint_len(*action);
            },
            ServerBound::PlayerPositionAndRotation(x, y, z, yaw, pitch, on_ground) => {
                crate::endian::lemma_be_bytes_len(x.0 as nat, 8);
                crate::endian::lemma_be_bytes_len(y.0 as nat, 8);
                crate::endian::lemma_be_bytes_len(z.0 as nat, 8);
                crate::endian::lemma_be_bytes_len(yaw.0 as nat, 4);
                crate::endian::lemma_be_bytes_len(pitch.0 as nat, 4);
            },
            ServerBound::Animation(hand) => {
                lemma_varint_len(*hand);
            },
            ServerBound::TeleportConfirm(teleport) => {
                lemma_varint_len(*teleport);
            },
            ServerBound::EntityAction(entity_id, action, jump_boost) => {
                lemma_varint_len(*entity_id);
                lemma_varint_len(*action);
                lemma_varint_len(*jump_boost);
            },
            ServerBound::HeldItemChange(slot_id) => {
                crate::endian::lemma_be_bytes_len(crate::endian::unsigned_of(*slot_id as int, 2), 2);
            },
            ServerBound::UseItem(hand) => {
                lemma_varint_len(*hand);
            },
            ServerBound::PlayerDigging(action, position, face) => {
                lemma_varint_len(*action);
                crate::endian::lemma_be_bytes_len(
                    crate::endian::unsigned_of(*position as int, 8),
                    8,
                );
                crate::endian::lemma_be_bytes_len(crate::endian::unsigned_of(*face as int, 1), 1);
            },
        }
    }

    /// Writes the packet to `output`.
    pub fn gen_to<O: MyAsyncWrite>(self, output: &mut O)
        requires
            self.encodable(),
            old(output).has_room(self.wire().len()),
        ensures
            final(output).holds_after(old(output), self.wire()),
    {
        let ghost start = *output;
        let ghost total = self.wire().len();
        let ghost id = self.packet_id().wire();
        let ghost nothing = Seq::<u8>::empty();
        proof {
            start.lemma_holds_after_nothing();
            assert(nothing + id =~= id);
        }
        match self {
            ServerBound::Handshake(protocol, address, port, next_state) => {
                put(VarInt(0x00), output, Ghost(start), Ghost(nothing), Ghost(total));
                put(protocol, output, Ghost(start), Ghost(id), Ghost(total));
                put(address, output, Ghost(start), Ghost(id + protocol.wire()), Ghost(total));
                put(
                    port,
                    output,
                    Ghost(start),
                    Ghost(id + protocol.wire() + address.wire()),
                    Ghost(total),
                );
                put(
                    next_state,
                    output,
                    Ghost(start),
                    Ghost(id + protocol.wire() + address.wire() + port.wire()),
                    Ghost(total),
                );
                assert(id + protocol.wire() + address.wire() + port.wire() + next_state.wire()
                    =~= self.wire());
            },
            ServerBound::StatusRequest => {
                put(VarInt(0x00), output, Ghost(start), Ghost(nothing), Ghost(total));
                assert(id =~= self.wire());
            },
            ServerBound::LoginStart(username) => {
                put(VarInt(0x00), output, Ghost(start), Ghost(nothing), Ghost(total));
                put(username, output, Ghost(start), Ghost(id), Ghost(total));
            },
            ServerBound::KeepAlive(id_echo) => {
                put(VarInt(0x10), output, Ghost(start), Ghost(nothing), Ghost(total));
                put(id_echo, output, Ghost(start), Ghost(id), Ghost(total));
            },
            ServerBound::ChatMessage(message) => {
                put(VarInt(0x03), output, Ghost(start), Ghost(nothing), Ghost(total));
                put(message, output, Ghost(start), Ghost(id), Ghost(total));
            },
            ServerBound::ClientStatus(what) => {
                put(VarInt(0x04), output, Ghost(start), Ghost(nothing), Ghost(total));
                put(what, output, Ghost(start), Ghost(id), Ghost(total));
            },
            ServerBound::InteractEntity(entity_id, action, sneaking) => {
                put(VarInt(0x0E), output, Ghost(start), Ghost(nothing), Ghost(total));
                put(entity_id, output, Ghost(start), Ghost(id), Ghost(total));
                put(action, output, Ghost(start), Ghost(id + entity_id.wire()), Ghost(total));
                put(
                    sneaking,
                    output,
                    Ghost(start),
                    Ghost(id + entity_id.wire() + action.wire()),
                    Ghost(total),
                );
                assert(id + entity_id.wire() + action.wire() + sneaking.wire() =~= self.wire());
            },
            ServerBound::PlayerPositionAndRotation(x, y, z, yaw, pitch, on_ground) => {
                put(VarInt(0x13), output, Ghost(start), Ghost(nothing), Ghost(total));
                put(x, output, Ghost(start), Ghost(id), Ghost(total));
                put(y, output, Ghost(start), Ghost(id + x.wire()), Ghost(total));
                put(z, output, Ghost(start), Ghost(id + x.wire() + y.wire()), Ghost(total));
                put(
                    yaw,
                    output,
                    Ghost(start),
                    Ghost(id + x.wire() + y.wire() + z.wire()),
                    Ghost(total),
                );
                put(
                    pitch,
                    output,
                    Ghost(start),
                    Ghost(id + x.wire() + y.wire() + z.wire() + yaw.wire()),
                    Ghost(total),
                );
                put(
                    on_ground,
                    output,
                    Ghost(start),
                    Ghost(id + x.wire() + y.wire() + z.wire() + yaw.wire() + pitch.wire()),
                    Ghost(total),
                );
                assert(id + x.wire() + y.wire() + z.wire() + yaw.wire() + pitch.wire()
                    + on_ground.wire() =~= self.wire());
            },
            ServerBound::Animation(hand) => {
                put(VarInt(0x2c), output, Ghost(start), Ghost(nothing), Ghost(total));
                put(hand, output, Ghost(start), Ghost(id), Ghost(total));
            },
            ServerBound::TeleportConfirm(teleport) => {
                put(VarInt(0x00), output, Ghost(start), Ghost(nothing), Ghost(total));
                put(teleport, output, Ghost(start), Ghost(id), Ghost(total));
            },
            ServerBound::EntityAction(entity_id, action, jump_boost) => {
                put(VarInt(0x1c), output, Ghost(start), Ghost(nothing), Ghost(total));
                put(entity_id, output, Ghost(start), Ghost(id), Ghost(total));
                put(action, output, Ghost(start), Ghost(id + entity_id.wire()), Ghost(total));
                put(
                    jump_boost,
                    output,
                    Ghost(start),
                    Ghost(id + entity_id.wire() + action.wire()),
                    Ghost(total),
                );
                assert(id + entity_id.wire() + action.wire() + jump_boost.wire() =~= self.wire());
            },
            ServerBound::HeldItemChange(slot_id) => {
                put(VarInt(0x25), output, Ghost(start), Ghost(nothing), Ghost(total));
                put(slot_id, output, Ghost(start), Ghost(id), Ghost(total));
            },
            ServerBound::UseItem(hand) => {
                put(VarInt(0x2F), output, Ghost(start), Ghost(nothing), Ghost(total));
                put(hand, output, Ghost(start), Ghost(id), Ghost(total));
            },
            ServerBound::PlayerDigging(action, position, face) => {
                put(VarInt(0x1B), output, Ghost(start), Ghost(nothing), Ghost(total));
                put(action, output, Ghost(start), Ghost(id), Ghost(total));
                put(position, output, Ghost(start), Ghost(id + action.wire()), Ghost(total));
                put(
                    face,
                    output,
                    Ghost(start),
                    Ghost(id + action.wire() + position.wire()),
                    Ghost(total),
                );
                assert(id + action.wire() + position.wire() + face.wire() =~= self.wire());
            },
        }
    }
}

/// Sent from the server to the client.
#[derive(Debug, PartialEq, Eq)]
pub enum ClientBound {
    /// The reason the server refuses the login.
    LoginDisconnect(MString),
    StatusResponse(MString),
    /// The compression threshold from now on.
    SetCompression(VarInt),
    /// The player's UUID and name.
    LoginSuccess(u128, MString),
    /// A number that the client must send back.
    KeepAlive(i64),
    /// The reason the server ends the session.
    PlayDisconnect(MString),
    /// Health, food, saturation.
    UpdateHealth(Float, VarInt, Float),
    /// x, y, z, yaw, pitch, flags, teleport id.
    PlayerPositionAndLook(Double, Double, Double, Float, Float, u8, VarInt),
    /// Entity id, UUID, type, x, y, z, yaw, pitch, head pitch, velocity x, y, z.
    SpawnLivingEntity(VarInt, u128, VarInt, Double, Double, Double, u8, u8, u8, i16, i16, i16),
    /// Entity id, x, y, z, yaw, pitch, whether on the ground.
    EntityTeleport(VarInt, Double, Double, Double, u8, u8, bool),
    /// Entity id, change of x, y, z, whether on the ground.
    EntityPosition(VarInt, i16, i16, i16, bool),
    /// The ids of the entities that are gone.
    DestroyEntities(Vec<VarInt>),
    /// The player's entity id; what follows it in the packet is not read.
    JoinGame(i32),
    /// Window id, slot index, slot contents.
    SetSlot(i8, i16, Slot),
    /// Category, id and value of each statistic.
    Statistics(Vec<(VarInt, VarInt, VarInt)>),
    /// A packet that the catalog does not know, by its id.
    Unknown(VarInt),
}

/// What a server packet says, with strings and sequences as mathematical
/// values.
pub enum ClientBoundView {
    LoginDisconnect(Seq<char>),
    StatusResponse(Seq<char>),
    SetCompression(VarInt),
    LoginSuccess(u128, Seq<char>),
    KeepAlive(i64),
    PlayDisconnect(Seq<char>),
    UpdateHealth(Float, VarInt, Float),
    PlayerPositionAndLook(Double, Double, Double, Float, Float, u8, VarInt),
    SpawnLivingEntity(VarInt, u128, VarInt, Double, Double, Double, u8, u8, u8, i16, i16, i16),
    EntityTeleport(VarInt, Double, Double, Double, u8, u8, bool),
    EntityPosition(VarInt, i16, i16, i16, bool),
    DestroyEntities(Seq<VarInt>),
    JoinGame(i32),
    SetSlot(i8, i16, Slot),
    Statistics(Seq<(VarInt, VarInt, VarInt)>),
    Unknown(VarInt),
}

impl View for ClientBound {
    type V = ClientBoundView;

    open spec fn view(&self) -> ClientBoundView {
        match self {
            ClientBound::LoginDisconnect(reason) => ClientBoundView::LoginDisconnect(reason.0@),
            ClientBound::StatusResponse(status) => ClientBoundView::StatusResponse(status.0@),
            ClientBound::SetCompression(threshold) => ClientBoundView::SetCompression(*threshold),
            ClientBound::LoginSuccess(uuid, name) => ClientBoundView::LoginSuccess(*uuid, name.0@),
            ClientBound::KeepAlive(id) => ClientBoundView::KeepAlive(*id),
            ClientBound::PlayDisconnect(reason) => ClientBoundView::PlayDisconnect(reason.0@),
            ClientBound::UpdateHealth(health, food, saturation) => ClientBoundView::UpdateHealth(
                *health,
                *food,
                *saturation,
            ),
            ClientBound::PlayerPositionAndLook(x, y, z, yaw, pitch, flags, id) => {
                ClientBoundView::PlayerPositionAndLook(*x, *y, *z, *yaw, *pitch, *flags, *id)
            },
            ClientBound::SpawnLivingEntity(id, uuid, kind, x, y, z, yaw, pitch, head, vx, vy, vz) => {
                ClientBoundView::SpawnLivingEntity(
                    *id,
                    *uuid,
                    *kind,
                    *x,
                    *y,
                    *z,
                    *yaw,
                    *pitch,
                    *head,
                    *vx,
                    *vy,
                    *vz,
                )
            },
            ClientBound::EntityTeleport(id, x, y, z, yaw, pitch, on_ground) => {
                ClientBoundView::EntityTeleport(*id, *x, *y, *z, *yaw, *pitch, *on_ground)
            },
            ClientBound::EntityPosition(id, dx, dy, dz, on_ground) => {
                ClientBoundView::EntityPosition(*id, *dx, *dy, *dz, *on_ground)
            },
            ClientBound::DestroyEntities(ids) => ClientBoundView::DestroyEntities(ids@),
            ClientBound::JoinGame(id) => ClientBoundView::JoinGame(*id),
            ClientBound::SetSlot(window, slot, data) => ClientBoundView::SetSlot(
                *window,
                *slot,
                *data,
            ),
            ClientBound::Statistics(entries) => ClientBoundView::Statistics(entries@),
            ClientBound::Unknown(id) => ClientBoundView::Unknown(*id),
        }
    }
}

/// Where a decoder stands in its input: what is left, how much it has taken,
/// and the first failure, which ends the reading.
pub struct Reading {
    pub rest: Seq<u8>,
    pub used: nat,
    pub failure: Option<WireError>,
}

impl Reading {
    /// The start of `input`.
    pub open spec fn of(input: Seq<u8>) -> Reading {
        Reading { rest: input, used: 0, failure: None }
    }

    /// Reads one value. After a failure nothing more is read.
    pub open spec fn take<T: DataType>(self) -> (Reading, T::Value) {
        match self.failure {
            Some(_) => (self, arbitrary()),
            None => match T::parse(self.rest) {
                Ok((v, n)) => (
                    Reading { rest: self.rest.skip(n as int), used: self.used + n, failure: None },
                    v,
                ),
                Err(e) => (
                    Reading { rest: self.rest, used: self.used, failure: Some(e) },
                    arbitrary(),
                ),
            },
        }
    }

    /// Passes over `n` bytes unread. A count that is negative, or too large
    /// for this machine, is a bad length; a count above what is left runs
    /// off the end.
    pub open spec fn discard(self, n: int) -> Reading {
        match self.failure {
            Some(_) => self,
            None => if n < 0 || n > usize::MAX {
                Reading { rest: self.rest, used: self.used, failure: Some(WireError::BadLength) }
            } else if n > self.rest.len() {
                Reading {
                    rest: self.rest,
                    used: self.used,
                    failure: Some(WireError::UnexpectedEof),
                }
            } else {
                Reading { rest: self.rest.skip(n), used: self.used + n as nat, failure: None }
            },
        }
    }

    /// The outcome: the packet and the bytes taken, or the first failure.
    pub open spec fn finish(self, packet: ClientBoundView) -> Result<
        (ClientBoundView, nat),
        WireError,
    > {
        match self.failure {
            Some(e) => Err(e),
            None => Ok((packet, self.used)),
        }
    }
}

/// What a call that reads a packet owes: on success the packet and a source
/// that has moved past it, on failure the error.
pub open spec fn read_as(
    r: Result<ClientBound, WireError>,
    pending: Seq<u8>,
    origin: Seq<u8>,
    goal: Result<(ClientBoundView, nat), WireError>,
) -> bool {
    match goal {
        Ok((v, n)) => r is Ok && r->Ok_0@ == v && n <= origin.len() && pending == origin.skip(
            n as int,
        ),
        Err(e) => r is Err && r->Err_0 == e,
    }
}

/// True when `at` is a place in `origin` at which `pending` is still to come.
pub open spec fn stands_at(at: Reading, origin: Seq<u8>, pending: Seq<u8>) -> bool {
    &&& at.failure is None
    &&& at.used <= origin.len()
    &&& at.rest == origin.skip(at.used as int)
    &&& pending == at.rest
}

/// Reads one field.
fn get<T: DataType, S: MyAsyncRead>(
    input: &mut S,
    Ghost(at): Ghost<Reading>,
    Ghost(origin): Ghost<Seq<u8>>,
) -> (r: Result<T, WireError>)
    requires
        stands_at(at, origin, old(input).pending()),
    ensures
        match at.take::<T>().0.failure {
            Some(e) => r is Err && r->Err_0 == e,
            None => r is Ok && r->Ok_0.value() == at.take::<T>().1 && stands_at(
                at.take::<T>().0,
                origin,
                final(input).pending(),
            ),
        },
{
    let r = T::deserialize(input);
    proof {
        if r is Ok {
            let n = T::parse(at.rest)->Ok_0.1;
            assert(origin.skip(at.used as int).skip(n as int) =~= origin.skip((at.used + n) as int));
        }
    }
    r
}

/// Passes over `n` bytes of `input`.
fn discard<S: MyAsyncRead>(
    input: &mut S,
    n: i128,
    Ghost(at): Ghost<Reading>,
    Ghost(origin): Ghost<Seq<u8>>,
) -> (r: Result<(), WireError>)
    requires
        stands_at(at, origin, old(input).pending()),
    ensures
        match at.discard(n as int).failure {
            Some(e) => r == Err::<(), WireError>(e),
            None => r is Ok && stands_at(at.discard(n as int), origin, final(input).pending()),
        },
{
    if n < 0 || n > usize::MAX as i128 {
        return Err(WireError::BadLength);
    }
    match input.read_vec(n as usize) {
        Ok(_) => {
            proof {
                assert(origin.skip(at.used as int).skip(n as int) =~= origin.skip(
                    (at.used + n) as int,
                ));
            }
            Ok(())
        },
        Err(e) => Err(e),
    }
}

impl ClientBound {
    /// True when `id` names a packet of the catalog in the phase `status`.
    pub open spec fn recognized(status: int, id: int) -> bool {
        ||| status == 1 && id == 0x00
        ||| status == 2 && (id == 0x00 || id == 0x02 || id == 0x03)
        ||| status == 3 && (id == 0x1F || id == 0x19 || id == 0x49 || id == 0x34 || id == 0x02 || id
            == 0x56 || id == 0x27 || id == 0x36 || id == 0x24 || id == 0x15 || id == 0x06)
    }

    /// The fields of a status response, read from `at`.
    pub open spec fn parse_status_response(at: Reading) -> Result<(ClientBoundView, nat), WireError> {
        let (at, response) = at.take::<MString>();
        at.finish(ClientBoundView::StatusResponse(response))
    }

    /// The fields of a refusal of the login, read from `at`.
    pub open spec fn parse_login_disconnect(at: Reading) -> Result<(ClientBoundView, nat), WireError> {
        let (at, reason) = at.take::<MString>();
        at.finish(ClientBoundView::LoginDisconnect(reason))
    }

    /// The fields of a login success, read from `at`.
    pub open spec fn parse_login_success(at: Reading) -> Result<(ClientBoundView, nat), WireError> {
        let (at, uuid) = at.take::<u128>();
        let (at, name) = at.take::<MString>();
        at.finish(ClientBoundView::LoginSuccess(uuid, name))
    }

    /// The fields of a compression announcement, read from `at`.
    pub open spec fn parse_set_compression(at: Reading) -> Result<(ClientBoundView, nat), WireError> {
        let (at, threshold) = at.take::<VarInt>();
        at.finish(ClientBoundView::SetCompression(threshold))
    }

    /// The fields of a keepalive, read from `at`.
    pub open spec fn parse_keep_alive(at: Reading) -> Result<(ClientBoundView, nat), WireError> {
        let (at, number) = at.take::<i64>();
        at.finish(ClientBoundView::KeepAlive(number))
    }

    /// The fields of a disconnect, read from `at`.
    pub open spec fn parse_play_disconnect(at: Reading) -> Result<(ClientBoundView, nat), WireError> {
        let (at, reason) = at.take::<MString>();
        at.finish(ClientBoundView::PlayDisconnect(reason))
    }

    /// The fields of a health update, read from `at`.
    pub open spec fn parse_update_health(at: Reading) -> Result<(ClientBoundView, nat), WireError> {
        let (at, health) = at.take::<Float>();
        let (at, food) = at.take::<VarInt>();
        let (at, saturation) = at.take::<Float>();
        at.finish(ClientBoundView::UpdateHealth(health, food, saturation))
    }

    /// The fields of a position and look update, read from `at`.
    pub open spec fn parse_player_position_and_look(at: Reading) -> Result<(ClientBoundView, nat), WireError> {
        let (at, x) = at.take::<Double>();
        let (at, y) = at.take::<Double>();
        let (at, z) = at.take::<Double>();
        let (at, yaw) = at.take::<Float>();
        let (at, pitch) = at.take::<Float>();
        let (at, flags) = at.take::<u8>();
        let (at, teleport) = at.take::<VarInt>();
        at.finish(ClientBoundView::PlayerPositionAndLook(x, y, z, yaw, pitch, flags, teleport))
    }

    /// The fields of a mob spawn, read from `at`.
    pub open spec fn parse_spawn_living_entity(at: Reading) -> Result<(ClientBoundView, nat), WireError> {
        let (at, entity) = at.take::<VarInt>();
        let (at, uuid) = at.take::<u128>();
        let (at, kind) = at.take::<VarInt>();
        let (at, x) = at.take::<Double>();
        let (at, y) = at.take::<Double>();
        let (at, z) = at.take::<Double>();
        let (at, yaw) = at.take::<u8>();
        let (at, pitch) = at.take::<u8>();
        let (at, head) = at.take::<u8>();
        let (at, vx) = at.take::<i16>();
        let (at, vy) = at.take::<i16>();
        let (at, vz) = at.take::<i16>();
        at.finish(ClientBoundView::SpawnLivingEntity(entity, uuid, kind, x, y, z, yaw, pitch, head, vx, vy, vz))
    }

    /// The fields of an entity teleport, read from `at`.
    pub open spec fn parse_entity_teleport(at: Reading) -> Result<(ClientBoundView, nat), WireError> {
        let (at, entity) = at.take::<VarInt>();
        let (at, x) = at.take::<Double>();
        let (at, y) = at.take::<Double>();
        let (at, z) = at.take::<Double>();
        let (at, yaw) = at.take::<u8>();
        let (at, pitch) = at.take::<u8>();
        let (at, on_ground) = at.take::<bool>();
        at.finish(ClientBoundView::EntityTeleport(entity, x, y, z, yaw, pitch, on_ground))
    }

    /// The fields of an entity move, read from `at`.
    pub open spec fn parse_entity_position(at: Reading) -> Result<(ClientBoundView, nat), WireError> {
        let (at, entity) = at.take::<VarInt>();
        let (at, dx) = at.take::<i16>();
        let (at, dy) = at.take::<i16>();
        let (at, dz) = at.take::<i16>();
        let (at, on_ground) = at.take::<bool>();
        at.finish(ClientBoundView::EntityPosition(entity, dx, dy, dz, on_ground))
    }

    /// The fields of a removal notice, read from `at`.
    pub open spec fn parse_destroy_entities(at: Reading) -> Result<(ClientBoundView, nat), WireError> {
        let (at, ids) = at.take::<Vec<VarInt>>();
        at.finish(ClientBoundView::DestroyEntities(ids))
    }

    /// The fields of a statistics report, read from `at`.
    pub open spec fn parse_statistics(at: Reading) -> Result<(ClientBoundView, nat), WireError> {
        let (at, entries) = at.take::<Vec<(VarInt, VarInt, VarInt)>>();
        at.finish(ClientBoundView::Statistics(entries))
    }

    /// The fields of a join confirmation, read from `at`. Only the entity id
    /// is read; the rest of the `room` that the packet declares is passed
    /// over.
    pub open spec fn parse_join_game(at: Reading, room: int) -> Result<
        (ClientBoundView, nat),
        WireError,
    > {
        let (at, entity) = at.take::<i32>();
        at.discard(room - entity.wire().len()).finish(ClientBoundView::JoinGame(entity))
    }

    /// The fields of a slot update, read from `at`. What the packet declares
    /// beyond the fields, as they encode again, is passed over.
    pub open spec fn parse_set_slot(at: Reading, room: int) -> Result<
        (ClientBoundView, nat),
        WireError,
    > {
        let (at, window) = at.take::<i8>();
        let (at, slot) = at.take::<i16>();
        let (at, data) = at.take::<Slot>();
        at.discard(room - (window.wire().len() + slot.wire().len() + data.wire().len())).finish(
            ClientBoundView::SetSlot(window, slot, data),
        )
    }

    /// A packet that the phase does not know: all that it declares is passed
    /// over.
    pub open spec fn parse_unknown(at: Reading, id: VarInt, room: int) -> Result<
        (ClientBoundView, nat),
        WireError,
    > {
        at.discard(room).finish(ClientBoundView::Unknown(id))
    }

    /// The fields of the packet `id`, read from `at`; `room` is what the
    /// packet declares beyond its id.
    pub open spec fn parse_fields(at: Reading, id: VarInt, room: int, status: int) -> Result<
        (ClientBoundView, nat),
        WireError,
    > {
        if Self::recognized(status, id.0 as int) {
            Self::parse_known(at, id, room, status)
        } else {
            Self::parse_unknown(at, id, room)
        }
    }

    /// The fields of a packet that the phase knows.
    #[verifier::opaque]
    pub open spec fn parse_known(at: Reading, id: VarInt, room: int, status: int) -> Result<
        (ClientBoundView, nat),
        WireError,
    > {
        if status == 1 && id.0 == 0x00 {
            Self::parse_status_response(at)
        } else if status == 2 && id.0 == 0x00 {
            Self::parse_login_disconnect(at)
        } else if status == 2 && id.0 == 0x02 {
            Self::parse_login_success(at)
        } else if status == 2 && id.0 == 0x03 {
            Self::parse_set_compression(at)
        } else if status == 3 && id.0 == 0x1F {
            Self::parse_keep_alive(at)
        } else if status == 3 && id.0 == 0x19 {
            Self::parse_play_disconnect(at)
        } else if status == 3 && id.0 == 0x49 {
            Self::parse_update_health(at)
        } else if status == 3 && id.0 == 0x34 {
            Self::parse_player_position_and_look(at)
        } else if status == 3 && id.0 == 0x02 {
            Self::parse_spawn_living_entity(at)
        } else if status == 3 && id.0 == 0x56 {
            Self::parse_entity_teleport(at)
        } else if status == 3 && id.0 == 0x27 {
            Self::parse_entity_position(at)
        } else if status == 3 && id.0 == 0x36 {
            Self::parse_destroy_entities(at)
        } else if status == 3 && id.0 == 0x24 {
            Self::parse_join_game(at, room)
        } else if status == 3 && id.0 == 0x15 {
            Self::parse_set_slot(at, room)
        } else if status == 3 && id.0 == 0x06 {
            Self::parse_statistics(at)
        } else {
            Self::parse_unknown(at, id, room)
        }
    }

    /// What the decoder makes of a packet that declares `length` bytes, in
    /// the phase `status` (0 handshake, 1 status, 2 login, 3 play): the
    /// packet and the bytes it took from `input`, or the first failure.
    ///
    /// A packet whose id the phase does not know takes all the bytes it
    /// declares. So do the two known packets that do not describe their own
    /// end: the join confirmation and the slot update.
    pub open spec fn parse(input: Seq<u8>, length: int, status: int) -> Result<
        (ClientBoundView, nat),
        WireError,
    > {
        let (at, id) = Reading::of(input).take::<VarInt>();
        match at.failure {
            Some(e) => Err(e),
            None => Self::parse_fields(at, id, length - id.wire().len(), status),
        }
    }

    fn read_status_response<S: MyAsyncRead>(
        input: &mut S,
        Ghost(at): Ghost<Reading>,
        Ghost(origin): Ghost<Seq<u8>>,
    ) -> (r: Result<Self, WireError>)
        requires
            stands_at(at, origin, old(input).pending()),
        ensures
            read_as(r, final(input).pending(), origin, Self::parse_status_response(at)),
    {
        let response = get::<MString, S>(input, Ghost(at), Ghost(origin))?;
        let ghost at = at.take::<MString>().0;
        Ok(ClientBound::StatusResponse(response))
    }

    fn read_login_disconnect<S: MyAsyncRead>(
        input: &mut S,
        Ghost(at): Ghost<Reading>,
        Ghost(origin): Ghost<Seq<u8>>,
    ) -> (r: Result<Self, WireError>)
        requires
            stands_at(at, origin, old(input).pending()),
        ensures
            read_as(r, final(input).pending(), origin, Self::parse_login_disconnect(at)),
    {
        let reason = get::<MString, S>(input, Ghost(at), Ghost(origin))?;
        let ghost at = at.take::<MString>().0;
        Ok(ClientBound::LoginDisconnect(reason))
    }

    fn read_login_success<S: MyAsyncRead>(
        input: &mut S,
        Ghost(at): Ghost<Reading>,
        Ghost(origin): Ghost<Seq<u8>>,
    ) -> (r: Result<Self, WireError>)
        requires
            stands_at(at, origin, old(input).pending()),
        ensures
            read_as(r, final(input).pending(), origin, Self::parse_login_success(at)),
    {
        let uuid = get::<u128, S>(input, Ghost(at), Ghost(origin))?;
        let ghost at = at.take::<u128>().0;
        let name = get::<MString, S>(input, Ghost(at), Ghost(origin))?;
        let ghost at = at.take::<MString>().0;
        Ok(ClientBound::LoginSuccess(uuid, name))
    }

    fn read_set_compression<S: MyAsyncRead>(
        input: &mut S,
        Ghost(at): Ghost<Reading>,
        Ghost(origin): Ghost<Seq<u8>>,
    ) -> (r: Result<Self, WireError>)
        requires
            stands_at(at, origin, old(input).pending()),
        ensures
            read_as(r, final(input).pending(), origin, Self::parse_set_compression(at)),
    {
        let threshold = get::<VarInt, S>(input, Ghost(at), Ghost(origin))?;
        let ghost at = at.take::<VarInt>().0;
        Ok(ClientBound::SetCompression(threshold))
    }

    fn read_keep_alive<S: MyAsyncRead>(
        input: &mut S,
        Ghost(at): Ghost<Reading>,
        Ghost(origin): Ghost<Seq<u8>>,
    ) -> (r: Result<Self, WireError>)
        requires
            stands_at(at, origin, old(input).pending()),
        ensures
            read_as(r, final(input).pending(), origin, Self::parse_keep_alive(at)),
    {
        let number = get::<i64, S>(input, Ghost(at), Ghost(origin))?;
        let ghost at = at.take::<i64>().0;
        Ok(ClientBound::KeepAlive(number))
    }

    fn read_play_disconnect<S: MyAsyncRead>(
        input: &mut S,
        Ghost(at): Ghost<Reading>,
        Ghost(origin): Ghost<Seq<u8>>,
    ) -> (r: Result<Self, WireError>)
        requires
            stands_at(at, origin, old(input).pending()),
        ensures
            read_as(r, final(input).pending(), origin, Self::parse_play_disconnect(at)),
    {
        let reason = get::<MString, S>(input, Ghost(at), Ghost(origin))?;
        let ghost at = at.take::<MString>().0;
        Ok(ClientBound::PlayDisconnect(reason))
    }

    fn read_update_health<S: MyAsyncRead>(
        input: &mut S,
        Ghost(at): Ghost<Reading>,
        Ghost(origin): Ghost<Seq<u8>>,
    ) -> (r: Result<Self, WireError>)
        requires
            stands_at(at, origin, old(input).pending()),
        ensures
            read_as(r, final(input).pending(), origin, Self::parse_update_health(at)),
    {
        let health = get::<Float, S>(input, Ghost(at), Ghost(origin))?;
        let ghost at = at.take::<Float>().0;
        let food = get::<VarInt, S>(input, Ghost(at), Ghost(origin))?;
        let ghost at = at.take::<VarInt>().0;
        let saturation = get::<Float, S>(input, Ghost(at), Ghost(origin))?;
        let ghost at = at.take::<Float>().0;
        Ok(ClientBound::UpdateHealth(health, food, saturation))
    }

    fn read_player_position_and_look<S: MyAsyncRead>(
        input: &mut S,
        Ghost(at): Ghost<Reading>,
        Ghost(origin): Ghost<Seq<u8>>,
    ) -> (r: Result<Self, WireError>)
        requires
            stands_at(at, origin, old(input).pending()),
        ensures
            read_as(r, final(input).pending(), origin, Self::parse_player_position_and_look(at)),
    {
        let x = get::<Double, S>(input, Ghost(at), Ghost(origin))?;
        let ghost at = at.take::<Double>().0;
        let y = get::<Double, S>(input, Ghost(at), Ghost(origin))?;
        let ghost at = at.take::<Double>().0;
        let z = get::<Double, S>(input, Ghost(at), Ghost(origin))?;
        let ghost at = at.take::<Double>().0;
        let yaw = get::<Float, S>(input, Ghost(at), Ghost(origin))?;
        let ghost at = at.take::<Float>().0;
        let pitch = get::<Float, S>(input, Ghost(at), Ghost(origin))?;
        let ghost at = at.take::<Float>().0;
        let flags = get::<u8, S>(input, Ghost(at), Ghost(origin))?;
        let ghost at = at.take::<u8>().0;
        let teleport = get::<VarInt, S>(input, Ghost(at), Ghost(origin))?;
        let ghost at = at.take::<VarInt>().0;
        Ok(ClientBound::PlayerPositionAndLook(x, y, z, yaw, pitch, flags, teleport))
    }

    fn read_spawn_living_entity<S: MyAsyncRead>(
        input: &mut S,
        Ghost(at): Ghost<Reading>,
        Ghost(origin): Ghost<Seq<u8>>,
    ) -> (r: Result<Self, WireError>)
        requires
            stands_at(at, origin, old(input).pending()),
        ensures
            read_as(r, final(input).pending(), origin, Self::parse_spawn_living_entity(at)),
    {
        let entity = get::<VarInt, S>(input, Ghost(at), Ghost(origin))?;
        let ghost at = at.take::<VarInt>().0;
        let uuid = get::<u128, S>(input, Ghost(at), Ghost(origin))?;
        let ghost at = at.take::<u128>().0;
        let kind = get::<VarInt, S>(input, Ghost(at), Ghost(origin))?;
        let ghost at = at.take::<VarInt>().0;
        let x = get::<Double, S>(input, Ghost(at), Ghost(origin))?;
        let ghost at = at.take::<Double>().0;
        let y = get::<Double, S>(input, Ghost(at), Ghost(origin))?;
        let ghost at = at.take::<Double>().0;
        let z = get::<Double, S>(input, Ghost(at), Ghost(origin))?;
        let ghost at = at.take::<Double>().0;
        let yaw = get::<u8, S>(input, Ghost(at), Ghost(origin))?;
        let ghost at = at.take::<u8>().0;
        let pitch = get::<u8, S>(input, Ghost(at), Ghost(origin))?;
        let ghost at = at.take::<u8>().0;
        let head = get::<u8, S>(input, Ghost(at), Ghost(origin))?;
        let ghost at = at.take::<u8>().0;
        let vx = get::<i16, S>(input, Ghost(at), Ghost(origin))?;
        let ghost at = at.take::<i16>().0;
        let vy = get::<i16, S>(input, Ghost(at), Ghost(origin))?;
        let ghost at = at.take::<i16>().0;
        let vz = get::<i16, S>(input, Ghost(at), Ghost(origin))?;
        let ghost at = at.take::<i16>().0;
        Ok(ClientBound::SpawnLivingEntity(entity, uuid, kind, x, y, z, yaw, pitch, head, vx, vy, vz))
    }

    fn read_entity_teleport<S: MyAsyncRead>(
        input: &mut S,
        Ghost(at): Ghost<Reading>,
        Ghost(origin): Ghost<Seq<u8>>,
    ) -> (r: Result<Self, WireError>)
        requires
            stands_at(at, origin, old(input).pending()),
        ensures
            read_as(r, final(input).pending(), origin, Self::parse_entity_teleport(at)),
    {
        let entity = get::<VarInt, S>(input, Ghost(at), Ghost(origin))?;
        let ghost at = at.take::<VarInt>().0;
        let x = get::<Double, S>(input, Ghost(at), Ghost(origin))?;
        let ghost at = at.take::<Double>().0;
        let y = get::<Double, S>(input, Ghost(at), Ghost(origin))?;
        let ghost at = at.take::<Double>().0;
        let z = get::<Double, S>(input, Ghost(at), Ghost(origin))?;
        let ghost at = at.take::<Double>().0;
        let yaw = get::<u8, S>(input, Ghost(at), Ghost(origin))?;
        let ghost at = at.take::<u8>().0;
        let pitch = get::<u8, S>(input, Ghost(at), Ghost(origin))?;
        let ghost at = at.take::<u8>().0;
        let on_ground = get::<bool, S>(input, Ghost(at), Ghost(origin))?;
        let ghost at = at.take::<bool>().0;
        Ok(ClientBound::EntityTeleport(entity, x, y, z, yaw, pitch, on_ground))
    }

    fn read_entity_position<S: MyAsyncRead>(
        input: &mut S,
        Ghost(at): Ghost<Reading>,
        Ghost(origin): Ghost<Seq<u8>>,
    ) -> (r: Result<Self, WireError>)
        requires
            stands_at(at, origin, old(input).pending()),
        ensures
            read_as(r, final(input).pending(), origin, Self::parse_entity_position(at)),
    {
        let entity = get::<VarInt, S>(input, Ghost(at), Ghost(origin))?;
        let ghost at = at.take::<VarInt>().0;
        let dx = get::<i16, S>(input, Ghost(at), Ghost(origin))?;
        let ghost at = at.take::<i16>().0;
        let dy = get::<i16, S>(input, Ghost(at), Ghost(origin))?;
        let ghost at = at.take::<i16>().0;
        let dz = get::<i16, S>(input, Ghost(at), Ghost(origin))?;
        let ghost at = at.take::<i16>().0;
        let on_ground = get::<bool, S>(input, Ghost(at), Ghost(origin))?;
        let ghost at = at.take::<bool>().0;
        Ok(ClientBound::EntityPosition(entity, dx, dy, dz, on_ground))
    }

    fn read_destroy_entities<S: MyAsyncRead>(
        input: &mut S,
        Ghost(at): Ghost<Reading>,
        Ghost(origin): Ghost<Seq<u8>>,
    ) -> (r: Result<Self, WireError>)
        requires
            stands_at(at, origin, old(input).pending()),
        ensures
            read_as(r, final(input).pending(), origin, Self::parse_destroy_entities(at)),
    {
        let ids = get::<Vec<VarInt>, S>(input, Ghost(at), Ghost(origin))?;
        let ghost at = at.take::<Vec<VarInt>>().0;
        assert(ids.value() =~= ids@);
        Ok(ClientBound::DestroyEntities(ids))
    }

    fn read_statistics<S: MyAsyncRead>(
        input: &mut S,
        Ghost(at): Ghost<Reading>,
        Ghost(origin): Ghost<Seq<u8>>,
    ) -> (r: Result<Self, WireError>)
        requires
            stands_at(at, origin, old(input).pending()),
        ensures
            read_as(r, final(input).pending(), origin, Self::parse_statistics(at)),
    {
        let entries = get::<Vec<(VarInt, VarInt, VarInt)>, S>(input, Ghost(at), Ghost(origin))?;
        let ghost at = at.take::<Vec<(VarInt, VarInt, VarInt)>>().0;
        assert(entries.value() =~= entries@);
        Ok(ClientBound::Statistics(entries))
    }

    fn read_join_game<S: MyAsyncRead>(
        input: &mut S,
        room: i128,
        Ghost(at): Ghost<Reading>,
        Ghost(origin): Ghost<Seq<u8>>,
    ) -> (r: Result<Self, WireError>)
        requires
            stands_at(at, origin, old(input).pending()),
            i64::MIN - 10 <= room <= i64::MAX,
        ensures
            read_as(r, final(input).pending(), origin, Self::parse_join_game(at, room as int)),
    {
        let entity = get::<i32, S>(input, Ghost(at), Ghost(origin))?;
        let ghost at = at.take::<i32>().0;
        let mut counted = SizeCalc(0);
        proof {
            crate::endian::lemma_be_bytes_len(crate::endian::unsigned_of(entity as int, 4), 4);
        }
        entity.serialize(&mut counted);
        discard(input, room - counted.0 as i128, Ghost(at), Ghost(origin))?;
        Ok(ClientBound::JoinGame(entity))
    }

    fn read_set_slot<S: MyAsyncRead>(
        input: &mut S,
        room: i128,
        Ghost(at): Ghost<Reading>,
        Ghost(origin): Ghost<Seq<u8>>,
    ) -> (r: Result<Self, WireError>)
        requires
            stands_at(at, origin, old(input).pending()),
            i64::MIN - 10 <= room <= i64::MAX,
        ensures
            read_as(r, final(input).pending(), origin, Self::parse_set_slot(at, room as int)),
    {
        let window = get::<i8, S>(input, Ghost(at), Ghost(origin))?;
        let ghost at = at.take::<i8>().0;
        let slot = get::<i16, S>(input, Ghost(at), Ghost(origin))?;
        let ghost at = at.take::<i16>().0;
        let data = get::<Slot, S>(input, Ghost(at), Ghost(origin))?;
        let ghost at = at.take::<Slot>().0;
        let mut counted = SizeCalc(0);
        proof {
            crate::endian::lemma_be_bytes_len(crate::endian::unsigned_of(window as int, 1), 1);
            crate::endian::lemma_be_bytes_len(crate::endian::unsigned_of(slot as int, 2), 2);
            lemma_slot_wire_len(data);
        }
        window.serialize(&mut counted);
        slot.serialize(&mut counted);
        data.serialize(&mut counted);
        discard(input, room - counted.0 as i128, Ghost(at), Ghost(origin))?;
        Ok(ClientBound::SetSlot(window, slot, data))
    }

    /// Reads one packet from the front of `input`. `length` is the number of
    /// bytes that the packet declares, its id included, and `status` the
    /// session phase.
    pub fn read_from<S: MyAsyncRead>(input: &mut S, length: i64, status: i64) -> (r: Result<
        Self,
        WireError,
    >)
        ensures
            read_as(
                r,
                final(input).pending(),
                old(input).pending(),
                Self::parse(old(input).pending(), length as int, status as int),
            ),
    {
        let ghost origin = input.pending();
        let ghost start = Reading::of(origin);
        proof {
            reveal(ClientBound::parse_known);
            assert(origin.skip(0) =~= origin);
        }
        let id = get::<VarInt, S>(input, Ghost(start), Ghost(origin))?;
        let packet_id = id.0;
        let room: i128 = length as i128 - id.size() as i128;
        let ghost at = start.take::<VarInt>().0;
        if status == 1 && packet_id == 0x00 {
            Self::read_status_response(input, Ghost(at), Ghost(origin))
        } else if status == 2 && packet_id == 0x00 {
            Self::read_login_disconnect(input, Ghost(at), Ghost(origin))
        } else if status == 2 && packet_id == 0x02 {
            Self::read_login_success(input, Ghost(at), Ghost(origin))
        } else if status == 2 && packet_id == 0x03 {
            Self::read_set_compression(input, Ghost(at), Ghost(origin))
        } else if status == 3 && packet_id == 0x1F {
            Self::read_keep_alive(input, Ghost(at), Ghost(origin))
        } else if status == 3 && packet_id == 0x19 {
            Self::read_play_disconnect(input, Ghost(at), Ghost(origin))
        } else if status == 3 && packet_id == 0x49 {
            Self::read_update_health(input, Ghost(at), Ghost(origin))
        } else if status == 3 && packet_id == 0x34 {
            Self::read_player_position_and_look(input, Ghost(at), Ghost(origin))
        } else if status == 3 && packet_id == 0x02 {
            Self::read_spawn_living_entity(input, Ghost(at), Ghost(origin))
        } else if status == 3 && packet_id == 0x56 {
            Self::read_entity_teleport(input, Ghost(at), Ghost(origin))
        } else if status == 3 && packet_id == 0x27 {
            Self::read_entity_position(input, Ghost(at), Ghost(origin))
        } else if status == 3 && packet_id == 0x36 {
            Self::read_destroy_entities(input, Ghost(at), Ghost(origin))
        } else if status == 3 && packet_id == 0x24 {
            Self::read_join_game(input, room, Ghost(at), Ghost(origin))
        } else if status == 3 && packet_id == 0x15 {
            Self::read_set_slot(input, room, Ghost(at), Ghost(origin))
        } else if status == 3 && packet_id == 0x06 {
            Self::read_statistics(input, Ghost(at), Ghost(origin))
        } else {
            discard(input, room, Ghost(at), Ghost(origin))?;
            Ok(ClientBound::Unknown(id))
        }
    }
}

/// A packet whose id the phase does not know is read as that id and takes
/// exactly the bytes it declares, whatever they are: what follows the packet
/// is where the next one starts.
pub proof fn lemma_unknown_is_skipped(id: VarInt, payload: Seq<u8>, rest: Seq<u8>, status: int)
    requires
        !ClientBound::recognized(status, id.0 as int),
        payload.len() <= usize::MAX,
    ensures
        ClientBound::parse(
            id.wire() + payload + rest,
            (id.wire().len() + payload.len()) as int,
            status,
        ) == Ok::<(ClientBoundView, nat), WireError>(
            (ClientBoundView::Unknown(id), id.wire().len() + payload.len()),
        ),
{
    let input = id.wire() + payload + rest;
    id.lemma_parse_wire(payload + rest);
    assert(input =~= id.wire() + (payload + rest));
    let at = Reading::of(input).take::<VarInt>().0;
    assert(at.rest =~= payload + rest);
    assert(at.rest.skip(payload.len() as int) =~= rest);
}

/// A variable-length integer takes one to ten bytes.
pub proof fn lemma_varint_len(v: VarInt)
    ensures
        1 <= v.wire().len() <= 10,
{
    crate::endian::lemma_byte_ranges();
    crate::datatypes::lemma_varint_groups_len(crate::endian::unsigned_of(v.0 as int, 8));
}

/// A string that can be sent takes its bytes and a prefix of at most ten.
pub proof fn lemma_mstring_len(s: &MString)
    requires
        s.encodable(),
    ensures
        1 <= s.wire().len() <= i64::MAX + 10,
{
    lemma_varint_len(VarInt(vstd::utf8::encode_utf8(s.0@).len() as i64));
}

/// A slot takes one byte when empty, and its flag, id and count otherwise.
pub proof fn lemma_slot_wire_len(data: Slot)
    ensures
        1 <= data.wire().len() <= 12,
{
    match data {
        Slot::Present(id, number) => {
            crate::endian::lemma_byte_ranges();
            crate::datatypes::lemma_varint_groups_len(crate::endian::unsigned_of(id.0 as int, 8));
            crate::endian::lemma_be_bytes_len(crate::endian::unsigned_of(number as int, 1), 1);
        },
        Slot::NotPresent => {},
    }
}

} // verus!
