//! One session with a server: the protocol phase, the compression threshold,
//! and the framing that turns packets into bytes and bytes into packets.
use crate::asyncio::{AsyncSlice, AsyncVec, MyAsyncRead, MyAsyncWrite, SizeCalc, WireError};
use crate::datatypes::{DataType, VarInt};
use crate::packets::{lemma_varint_len, ClientBound, ClientBoundView, ServerBound};
use vstd::prelude::*;

verus! {

/// The error that the standard library's readers and writers report.
#[verifier::external_type_specification]
#[verifier::external_body]
pub struct ExIoError(std::io::Error);

/// What flate2's zlib encoder, at its fast setting, makes of `data` once it
/// has been written to the encoder and the encoder finished: the compressed
/// stream, or `None` where the encoder reports an error.
pub uninterp spec fn zlib_deflated(data: Seq<u8>) -> Option<Seq<u8>>;

/// What flate2's zlib decoder reads from `data` up to the end of the stream:
/// the bytes that the stream holds, or `None` where the decoder reports an
/// error.
pub uninterp spec fn zlib_inflated(data: Seq<u8>) -> Option<Seq<u8>>;

/// `flate2::write::ZlibEncoder` over a vector: all of `data` is written and
/// the encoder finished. The outcome is a function of `data`, and a stream
/// that the encoder has produced is one that the decoder turns back into
/// `data`.
#[verifier::external_body]
fn zlib_compress(data: &[u8]) -> (r: Result<Vec<u8>, std::io::Error>)
    ensures
        r is Ok <==> zlib_deflated(data@) is Some,
        r is Ok ==> zlib_deflated(data@) == Some(r->Ok_0@),
        r is Ok ==> zlib_inflated(r->Ok_0@) == Some(data@),
{
    let mut encoder = flate2::write::ZlibEncoder::new(Vec::new(), flate2::Compression::fast());
    std::io::Write::write_all(&mut encoder, data)?;
    encoder.finish()
}

/// `flate2::read::ZlibDecoder` over a slice, read to its end. The outcome is
/// a function of `data`.
#[verifier::external_body]
fn zlib_decompress(data: &[u8]) -> (r: Result<Vec<u8>, std::io::Error>)
    ensures
        r is Ok <==> zlib_inflated(data@) is Some,
        r is Ok ==> zlib_inflated(data@) == Some(r->Ok_0@),
{
    let mut decoder = flate2::read::ZlibDecoder::new(data);
    let mut inflated = Vec::new();
    std::io::Read::read_to_end(&mut decoder, &mut inflated)?;
    Ok(inflated)
}

/// A frame without compression: the payload behind its length.
pub open spec fn plain_frame(payload: Seq<u8>) -> Seq<u8> {
    VarInt(payload.len() as i64).wire() + payload
}

/// A frame of a session that compresses: the length of all that follows,
/// then `size`, then `body`. `size` is the payload's length where `body` is
/// the compressed payload, and 0 where `body` is the payload itself.
pub open spec fn sealed_frame(size: i64, body: Seq<u8>) -> Seq<u8> {
    let inner = VarInt(size).wire() + body;
    VarInt(inner.len() as i64).wire() + inner
}

/// The frame that carries `payload` in a session with the compression
/// threshold `threshold`. A negative threshold is a session without
/// compression. Otherwise every frame has the second header, and the
/// payload is compressed when it is longer than the threshold.
pub open spec fn frame(payload: Seq<u8>, threshold: i64) -> Result<Seq<u8>, WireError> {
    if payload.len() > i64::MAX {
        Err(WireError::TooLong)
    } else if threshold < 0 {
        Ok(plain_frame(payload))
    } else if payload.len() > threshold {
        match zlib_deflated(payload) {
            Some(compressed) => if VarInt(payload.len() as i64).wire().len() + compressed.len()
                > i64::MAX {
                Err(WireError::TooLong)
            } else {
                Ok(sealed_frame(payload.len() as i64, compressed))
            },
            None => Err(WireError::Deflate),
        }
    } else if 1 + payload.len() > i64::MAX {
        Err(WireError::TooLong)
    } else {
        Ok(sealed_frame(0, payload))
    }
}

/// What stands between the length prefix of a frame and its end, for a
/// buffer that starts with a frame: the frame's body and the frame's whole
/// length. A buffer that ends inside the frame is incomplete.
pub open spec fn frame_body(input: Seq<u8>) -> Result<(Seq<u8>, nat), WireError> {
    match VarInt::parse(input) {
        Ok((length, k)) => if length.0 < 0 || length.0 > usize::MAX - k {
            Err(WireError::BadLength)
        } else if input.len() - k < length.0 {
            Err(WireError::Incomplete)
        } else {
            Ok((input.subrange(k as int, k + length.0), (k + length.0) as nat))
        },
        Err(_) => Err(WireError::Incomplete),
    }
}

/// The payload of a frame's body in a session that compresses: behind a
/// positive size stands the compressed payload, behind any other the payload
/// itself.
pub open spec fn unsealed(body: Seq<u8>) -> Result<Seq<u8>, WireError> {
    match VarInt::parse(body) {
        Ok((size, j)) => if size.0 > 0 {
            match zlib_inflated(body.skip(j as int)) {
                Some(payload) => Ok(payload),
                None => Err(WireError::Inflate),
            }
        } else {
            Ok(body.skip(j as int))
        },
        Err(e) => Err(e),
    }
}

/// The payload of the frame at the front of `input`, and the frame's whole
/// length, in a session with the compression threshold `threshold`.
pub open spec fn deframe(input: Seq<u8>, threshold: i64) -> Result<(Seq<u8>, nat), WireError> {
    match frame_body(input) {
        Ok((body, used)) => if threshold < 0 {
            Ok((body, used))
        } else {
            match unsealed(body) {
                Ok(payload) => Ok((payload, used)),
                Err(e) => Err(e),
            }
        },
        Err(e) => Err(e),
    }
}

/// A frame without compression gives its payload back, and whatever follows
/// the frame is left alone.
pub proof fn lemma_plain_frame_body(payload: Seq<u8>, rest: Seq<u8>)
    requires
        payload.len() <= i64::MAX,
        plain_frame(payload).len() <= usize::MAX,
    ensures
        frame_body(plain_frame(payload) + rest) == Ok::<(Seq<u8>, nat), WireError>(
            (payload, plain_frame(payload).len()),
        ),
{
    let prefix = VarInt(payload.len() as i64);
    let input = plain_frame(payload) + rest;
    prefix.lemma_parse_wire(payload + rest);
    assert(input =~= prefix.wire() + (payload + rest));
    let k = prefix.wire().len();
    assert(input.subrange(k as int, (k + payload.len()) as int) =~= payload);
}

/// Framing and then deframing gives the payload back, in each of the three
/// shapes a frame can have: without compression, with the second header and
/// the payload as it is, and with the payload compressed. The last holds for
/// a compressed stream that the decoder restores, which is what the encoder
/// produces.
pub proof fn lemma_frame_round_trip(payload: Seq<u8>, threshold: i64, rest: Seq<u8>)
    requires
        frame(payload, threshold) is Ok,
        frame(payload, threshold)->Ok_0.len() <= usize::MAX,
        threshold >= 0 && payload.len() > threshold ==> zlib_inflated(zlib_deflated(payload)->0)
            == Some(payload),
    ensures
        deframe(frame(payload, threshold)->Ok_0 + rest, threshold) == Ok::<
            (Seq<u8>, nat),
            WireError,
        >((payload, frame(payload, threshold)->Ok_0.len())),
{
    if threshold < 0 {
        lemma_plain_frame_body(payload, rest);
    } else {
        let (size, body) = if payload.len() > threshold {
            (payload.len() as i64, zlib_deflated(payload)->0)
        } else {
            (0i64, payload)
        };
        let inner = VarInt(size).wire() + body;
        lemma_varint_len(VarInt(size));
        assert(sealed_frame(size, body) == plain_frame(inner));
        lemma_plain_frame_body(inner, rest);
        VarInt(size).lemma_parse_wire(body);
        assert(inner.skip(VarInt(size).wire().len() as int) =~= body);
    }
}

/// A frame whose packet the phase does not know is read as that packet's id,
/// and the frame is taken whole: the bytes behind it are the next frame.
pub proof fn lemma_unknown_frame_is_skipped(
    id: VarInt,
    payload: Seq<u8>,
    rest: Seq<u8>,
    status: i64,
)
    requires
        !ClientBound::recognized(status as int, id.0 as int),
        plain_frame(id.wire() + payload).len() <= usize::MAX,
        id.wire().len() + payload.len() <= i64::MAX,
    ensures
        Client::received(plain_frame(id.wire() + payload) + rest, status, -1i64) == Ok::<
            (ClientBoundView, nat),
            WireError,
        >((ClientBoundView::Unknown(id), plain_frame(id.wire() + payload).len())),
{
    let packet = id.wire() + payload;
    lemma_plain_frame_body(packet, rest);
    crate::packets::lemma_unknown_is_skipped(id, payload, Seq::empty(), status as int);
    assert(packet + Seq::<u8>::empty() =~= packet);
}

/// Builds a frame of a session that compresses.
pub fn seal(size: i64, body: &[u8]) -> (r: Result<Vec<u8>, WireError>)
    ensures
        VarInt(size).wire().len() + body@.len() <= i64::MAX ==> r is Ok && r->Ok_0@
            == sealed_frame(size, body@),
        VarInt(size).wire().len() + body@.len() > i64::MAX ==> r is Err && r->Err_0
            == WireError::TooLong,
{
    let header = VarInt(size);
    proof {
        lemma_varint_len(header);
    }
    let prefix: u64 = header.size() as u64;
    if body.len() as u64 > i64::MAX as u64 - prefix {
        return Err(WireError::TooLong);
    }
    let inner: u64 = prefix + body.len() as u64;
    let mut out = AsyncVec(Vec::new());
    VarInt(inner as i64).serialize(&mut out);
    header.serialize(&mut out);
    out.write(body);
    assert(out.0@ =~= sealed_frame(size, body@));
    Ok(out.0)
}

/// Takes the frame at the front of `input` apart: its body, and its length
/// together with its prefix.
pub fn split_frame(input: &[u8]) -> (r: Result<(&[u8], usize), WireError>)
    ensures
        match frame_body(input@) {
            Ok((body, used)) => r is Ok && r->Ok_0.0@ == body && r->Ok_0.1 == used && used
                <= input@.len(),
            Err(e) => r is Err && r->Err_0 == e,
        },
{
    let mut reader = AsyncSlice::new(input);
    let length = match VarInt::deserialize(&mut reader) {
        Ok(v) => v,
        Err(_) => {
            return Err(WireError::Incomplete);
        },
    };
    let k = input.len() - reader.remaining();
    if length.0 < 0 || length.0 as u64 > (usize::MAX - k) as u64 {
        return Err(WireError::BadLength);
    }
    let n = length.0 as usize;
    if reader.remaining() < n {
        return Err(WireError::Incomplete);
    }
    let body = vstd::slice::slice_subrange(input, k, k + n);
    Ok((body, k + n))
}

/// One session: its phase and its compression threshold. The connection
/// itself belongs to whoever moves the bytes.
#[derive(Debug, Clone, Copy, PartialEq, Eq)]
pub struct Client {
    /// 0 handshake, 1 status, 2 login, 3 play.
    pub status: i64,
    /// Negative while compression is off; otherwise the payload length above
    /// which a frame is compressed.
    pub compression: i64,
}

impl Client {
    /// A session at its start: in the handshake phase, without compression.
    pub fn new() -> (r: Client)
        ensures
            r.status == 0,
            r.compression == -1,
    {
        Client { status: 0, compression: -1 }
    }

    /// What receiving the packet `packet` does to the session: a login
    /// success starts the play phase.
    pub open spec fn status_after(status: i64, packet: ClientBoundView) -> i64 {
        if packet is LoginSuccess {
            3
        } else {
            status
        }
    }

    /// What receiving the packet `packet` does to the threshold: a
    /// compression announcement sets it.
    pub open spec fn compression_after(compression: i64, packet: ClientBoundView) -> i64 {
        match packet {
            ClientBoundView::SetCompression(threshold) => threshold.0,
            _ => compression,
        }
    }

    /// The packet that is a frame's payload.
    pub open spec fn payload_packet(payload: Seq<u8>, status: i64) -> Result<
        ClientBoundView,
        WireError,
    > {
        if payload.len() > i64::MAX {
            Err(WireError::TooLong)
        } else {
            match ClientBound::parse(payload, payload.len() as int, status as int) {
                Ok((packet, _)) => Ok(packet),
                Err(e) => Err(e),
            }
        }
    }

    /// What the session reads from a buffer that starts with a frame: the
    /// packet in it and the frame's whole length.
    pub open spec fn received(input: Seq<u8>, status: i64, compression: i64) -> Result<
        (ClientBoundView, nat),
        WireError,
    > {
        match deframe(input, compression) {
            Ok((payload, used)) => match Self::payload_packet(payload, status) {
                Ok(packet) => Ok((packet, used)),
                Err(e) => Err(e),
            },
            Err(e) => Err(e),
        }
    }

    /// Frames `packet` for sending. Sending a handshake moves the session to
    /// the phase that the handshake asks for, before any reply. The frame
    /// that comes back is one that `deframe` turns into the packet's bytes
    /// again at the same threshold.
    pub fn send(&mut self, packet: ServerBound) -> (r: Result<Vec<u8>, WireError>)
        ensures
            final(self).compression == old(self).compression,
            final(self).status == (match packet {
                ServerBound::Handshake(_, _, _, next_state) => next_state.0,
                _ => old(self).status,
            }),
            !packet.encodable() ==> r is Err && r->Err_0 == WireError::TooLong,
            packet.encodable() ==> match frame(packet.wire(), old(self).compression) {
                Ok(bytes) => r is Ok && r->Ok_0@ == bytes && deframe(bytes, old(self).compression)
                    == Ok::<(Seq<u8>, nat), WireError>((packet.wire(), bytes.len())),
                Err(e) => r is Err && r->Err_0 == e,
            },
    {
        if let ServerBound::Handshake(_, _, _, next_state) = &packet {
            self.status = next_state.0;
        }
        if !packet.is_encodable() {
            return Err(WireError::TooLong);
        }
        proof {
            packet.lemma_wire_len();
        }
        let mut size = SizeCalc(0);
        packet.clone().gen_to(&mut size);
        let mut payload = AsyncVec(Vec::new());
        packet.gen_to(&mut payload);
        let ghost wire = payload.0@;
        assert(wire =~= packet.wire());
        if size.0 > i64::MAX as u64 {
            return Err(WireError::TooLong);
        }
        let framed = if self.compression >= 0 {
            if size.0 as i64 > self.compression {
                match zlib_compress(payload.0.as_slice()) {
                    Ok(data) => seal(size.0 as i64, data.as_slice()),
                    Err(_) => Err(WireError::Deflate),
                }
            } else {
                seal(0, payload.0.as_slice())
            }
        } else {
            let mut out = AsyncVec(Vec::new());
            VarInt(size.0 as i64).serialize(&mut out);
            out.write(payload.0.as_slice());
            assert(out.0@ =~= plain_frame(wire));
            Ok(out.0)
        };
        proof {
            lemma_varint_len(VarInt(0));
        }
        match framed {
            Ok(bytes) => {
                let length = bytes.len();
                proof {
                    assert(frame(wire, self.compression) == Ok::<Seq<u8>, WireError>(bytes@));
                    lemma_frame_round_trip(wire, self.compression, Seq::empty());
                    assert(bytes@ + Seq::<u8>::empty() =~= bytes@);
                }
                Ok(bytes)
            },
            Err(e) => Err(e),
        }
    }

    /// Reads the packet of the frame at the front of `input` and says how
    /// long the frame is. A buffer that ends inside its first frame is
    /// `Incomplete`; every other failure is the frame's own. A login success
    /// starts the play phase and a compression announcement sets the
    /// threshold; a failure leaves the session as it was.
    pub fn receive(&mut self, input: &[u8]) -> (r: Result<(ClientBound, usize), WireError>)
        ensures
            match Self::received(input@, old(self).status, old(self).compression) {
                Ok((packet, used)) => r is Ok && r->Ok_0.0@ == packet && r->Ok_0.1 == used && used
                    <= input@.len() && final(self).status == Self::status_after(
                    old(self).status,
                    packet,
                ) && final(self).compression == Self::compression_after(
                    old(self).compression,
                    packet,
                ),
                Err(e) => r is Err && r->Err_0 == e && *final(self) == *old(self),
            },
    {
        let (body, used) = match split_frame(input) {
            Ok(v) => v,
            Err(e) => {
                return Err(e);
            },
        };
        let read = if self.compression >= 0 {
            Self::read_sealed(body, self.status)
        } else {
            Self::read_payload(body, self.status)
        };
        let packet = match read {
            Ok(v) => v,
            Err(e) => {
                return Err(e);
            },
        };
        if let ClientBound::LoginSuccess(..) = &packet {
            self.status = 3;
        }
        if let ClientBound::SetCompression(compression) = &packet {
            self.compression = compression.0;
        }
        Ok((packet, used))
    }

    /// Reads the packet of a frame's body in a session that compresses.
    pub fn read_sealed(body: &[u8], status: i64) -> (r: Result<ClientBound, WireError>)
        ensures
            match unsealed(body@) {
                Ok(payload) => match Self::payload_packet(payload, status) {
                    Ok(packet) => r is Ok && r->Ok_0@ == packet,
                    Err(e) => r is Err && r->Err_0 == e,
                },
                Err(e) => r is Err && r->Err_0 == e,
            },
    {
        let mut reader = AsyncSlice::new(body);
        let size = match VarInt::deserialize(&mut reader) {
            Ok(v) => v,
            Err(e) => {
                return Err(e);
            },
        };
        let j = body.len() - reader.remaining();
        let rest = vstd::slice::slice_subrange(body, j, body.len());
        assert(rest@ =~= body@.skip(j as int));
        if size.0 > 0 {
            match zlib_decompress(rest) {
                Ok(inflated) => Self::read_payload(inflated.as_slice(), status),
                Err(_) => Err(WireError::Inflate),
            }
        } else {
            Self::read_payload(rest, status)
        }
    }

    /// Reads the packet that is a frame's payload.
    pub fn read_payload(payload: &[u8], status: i64) -> (r: Result<ClientBound, WireError>)
        ensures
            match Self::payload_packet(payload@, status) {
                Ok(packet) => r is Ok && r->Ok_0@ == packet,
                Err(e) => r is Err && r->Err_0 == e,
            },
    {
        if payload.len() as u64 > i64::MAX as u64 {
            return Err(WireError::TooLong);
        }
        let mut reader = AsyncSlice::new(payload);
        ClientBound::read_from(&mut reader, payload.len() as i64, status)
    }
}

} // verus!
