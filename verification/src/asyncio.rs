//! Byte channels: the minimal read and write capability that the wire codec
//! is written against, and the in-memory channels that carry it.
use vstd::prelude::*;

verus! {

/// Why a value could not be taken from, or put on, the wire.
#[derive(Clone, Copy, Debug, PartialEq, Eq, Structural)]
pub enum WireError {
    /// The source ended before the value did.
    UnexpectedEof,
    /// A length or count prefix is negative, or too large for this machine.
    BadLength,
    /// The buffer does not yet hold a whole frame.
    Incomplete,
    /// A frame's compressed payload is not a zlib stream.
    Inflate,
    /// The compressor gave up on a payload.
    Deflate,
    /// A frame would be longer than its length prefix can say.
    TooLong,
}

/// A source of bytes. Its model is the sequence of bytes it has yet to hand
/// out; reading takes them from the front.
pub trait MyAsyncRead: Sized {
    /// The bytes still to come, in the order in which they will be read.
    spec fn pending(&self) -> Seq<u8>;

    /// Fills `output` with the next bytes of the source, all or nothing: a
    /// source with too few bytes left fails with `UnexpectedEof` and keeps
    /// what it had.
    fn read(&mut self, output: &mut [u8]) -> (r: Result<(), WireError>)
        ensures
            final(output)@.len() == old(output)@.len(),
            r is Ok <==> old(output)@.len() <= old(self).pending().len(),
            r is Ok ==> final(output)@ == old(self).pending().take(old(output)@.len() as int)
                && final(self).pending() == old(self).pending().skip(old(output)@.len() as int),
            r is Err ==> r == Err::<(), WireError>(WireError::UnexpectedEof)
                && final(self).pending() == old(self).pending(),
    ;

    /// Reads one byte.
    fn read_byte(&mut self) -> (r: Result<u8, WireError>)
        ensures
            old(self).pending().len() > 0 ==> r == Ok::<u8, WireError>(old(self).pending()[0])
                && final(self).pending() == old(self).pending().skip(1),
            old(self).pending().len() == 0 ==> r == Err::<u8, WireError>(WireError::UnexpectedEof)
                && final(self).pending() == old(self).pending(),
    {
        let mut byte: [u8; 1] = [0u8; 1];
        match self.read(&mut byte) {
            Ok(()) => Ok(byte[0]),
            Err(e) => Err(e),
        }
    }

    /// Reads the next `n` bytes into a buffer of their own.
    fn read_vec(&mut self, n: usize) -> (r: Result<Vec<u8>, WireError>)
        ensures
            r is Ok <==> n <= old(self).pending().len(),
            r is Ok ==> r->Ok_0@ == old(self).pending().take(n as int) && final(self).pending()
                == old(self).pending().skip(n as int),
            r is Err ==> r->Err_0 == WireError::UnexpectedEof && final(self).pending() == old(
                self,
            ).pending(),
    {
        let mut bytes: Vec<u8> = vec![0u8; n];
        match self.read(bytes.as_mut_slice()) {
            Ok(()) => Ok(bytes),
            Err(e) => Err(e),
        }
    }
}

/// A sink for bytes. A sink need not keep what it is given, so its model is a
/// relation: `later.holds_after(earlier, bytes)` says that `later` is what
/// `earlier` becomes once `bytes` have been written to it.
pub trait MyAsyncWrite: Sized {
    /// True when this sink can take `n` more bytes.
    spec fn has_room(&self, n: nat) -> bool;

    /// True when `self` is `before` with `bytes` written to it.
    spec fn holds_after(&self, before: &Self, bytes: Seq<u8>) -> bool;

    /// Writing nothing leaves a sink as it is.
    proof fn lemma_holds_after_nothing(&self)
        ensures
            self.holds_after(self, Seq::empty()),
    ;

    /// Two writes in a row are one write of the concatenation.
    proof fn lemma_holds_after_both(&self, first: &Self, middle: &Self, s: Seq<u8>, t: Seq<u8>)
        requires
            middle.holds_after(first, s),
            self.holds_after(middle, t),
        ensures
            self.holds_after(first, s + t),
    ;

    /// Room for a write is room for every shorter one.
    proof fn lemma_room_for_less(&self, n: nat, m: nat)
        requires
            self.has_room(n),
            m <= n,
        ensures
            self.has_room(m),
    ;

    /// A write uses up no more room than its own length.
    proof fn lemma_room_left(&self, before: &Self, s: Seq<u8>, n: nat)
        requires
            self.holds_after(before, s),
            before.has_room(s.len() + n),
        ensures
            self.has_room(n),
    ;

    /// Writes all of `input`.
    fn write(&mut self, input: &[u8])
        requires
            old(self).has_room(input@.len()),
        ensures
            final(self).holds_after(old(self), input@),
    ;

    /// Writes one byte.
    fn write_byte(&mut self, byte: u8)
        requires
            old(self).has_room(1),
        ensures
            final(self).holds_after(old(self), seq![byte]),
    {
        let one: [u8; 1] = [byte];
        assert(one@ =~= seq![byte]);
        self.write(&one);
    }
}

/// A sink that keeps no bytes and only counts them.
#[derive(Debug)]
pub struct SizeCalc(pub u64);

/// A sink that keeps every byte, in order.
#[derive(Debug, Clone)]
pub struct AsyncVec(pub Vec<u8>);

impl MyAsyncWrite for SizeCalc {
    open spec fn has_room(&self, n: nat) -> bool {
        self.0 + n <= u64::MAX
    }

    open spec fn holds_after(&self, before: &Self, bytes: Seq<u8>) -> bool {
        self.0 == before.0 + bytes.len()
    }

    proof fn lemma_holds_after_nothing(&self) {
    }

    proof fn lemma_holds_after_both(&self, first: &Self, middle: &Self, s: Seq<u8>, t: Seq<u8>) {
    }

    proof fn lemma_room_for_less(&self, n: nat, m: nat) {
    }

    proof fn lemma_room_left(&self, before: &Self, s: Seq<u8>, n: nat) {
    }

    fn write(&mut self, input: &[u8]) {
        self.0 = self.0 + input.len() as u64;
    }
}

impl MyAsyncWrite for AsyncVec {
    open spec fn has_room(&self, n: nat) -> bool {
        true
    }

    open spec fn holds_after(&self, before: &Self, bytes: Seq<u8>) -> bool {
        self.0@ =~= before.0@ + bytes
    }

    proof fn lemma_holds_after_nothing(&self) {
    }

    proof fn lemma_holds_after_both(&self, first: &Self, middle: &Self, s: Seq<u8>, t: Seq<u8>) {
    }

    proof fn lemma_room_for_less(&self, n: nat, m: nat) {
    }

    proof fn lemma_room_left(&self, before: &Self, s: Seq<u8>, n: nat) {
    }

    fn write(&mut self, input: &[u8]) {
        self.0.extend_from_slice(input);
    }
}

/// A source that reads from a borrowed buffer, front to back.
pub struct AsyncSlice<'a> {
    data: &'a [u8],
    position: usize,
}

impl<'a> AsyncSlice<'a> {
    #[verifier::type_invariant]
    spec fn in_bounds(self) -> bool {
        self.position <= self.data@.len()
    }

    /// The whole buffer, read or not.
    pub closed spec fn buffer(&self) -> Seq<u8> {
        self.data@
    }

    /// How many bytes have been read.
    pub closed spec fn consumed(&self) -> nat {
        self.position as nat
    }

    /// A source that will hand out all of `data`.
    pub fn new(data: &'a [u8]) -> (r: Self)
        ensures
            r.buffer() == data@,
            r.consumed() == 0,
            r.pending() == data@,
    {
        AsyncSlice { data, position: 0 }
    }

    /// The number of bytes read so far.
    pub fn position(&self) -> (r: usize)
        ensures
            r == self.consumed(),
            r <= self.buffer().len(),
            self.pending() == self.buffer().skip(r as int),
    {
        proof {
            use_type_invariant(self);
        }
        self.position
    }

    /// The number of bytes still to come.
    pub fn remaining(&self) -> (r: usize)
        ensures
            r == self.pending().len(),
            r == self.buffer().len() - self.consumed(),
    {
        proof {
            use_type_invariant(self);
        }
        self.data.len() - self.position
    }
}

impl<'a> MyAsyncRead for AsyncSlice<'a> {
    closed spec fn pending(&self) -> Seq<u8> {
        self.data@.skip(self.position as int)
    }

    fn read(&mut self, output: &mut [u8]) -> (r: Result<(), WireError>)
        ensures
            final(self).buffer() == old(self).buffer(),
    {
        proof {
            use_type_invariant(&*self);
        }
        let n = output.len();
        if n > self.data.len() - self.position {
            return Err(WireError::UnexpectedEof);
        }
        let start = self.position;
        assert(self.data@.len() <= usize::MAX);
        let mut i: usize = 0;
        while i < n
            invariant
                i <= n,
                n == output@.len(),
                start + n <= self.data@.len() <= usize::MAX,
                self.position == start,
                self.data == old(self).data,
                forall|k: int| 0 <= k < i ==> output@[k] == self.data@[start + k],
            decreases n - i,
        {
            output[i] = self.data[start + i];
            i = i + 1;
        }
        self.position = start + n;
        assert(output@ =~= old(self).pending().take(n as int));
        assert(self.pending() =~= old(self).pending().skip(n as int));
        Ok(())
    }

    fn read_vec(&mut self, n: usize) -> (r: Result<Vec<u8>, WireError>)
        ensures
            final(self).buffer() == old(self).buffer(),
    {
        proof {
            use_type_invariant(&*self);
        }
        if n > self.data.len() - self.position {
            return Err(WireError::UnexpectedEof);
        }
        let mut bytes: Vec<u8> = vec![0u8; n];
        match self.read(bytes.as_mut_slice()) {
            Ok(()) => Ok(bytes),
            Err(e) => Err(e),
        }
    }
}

} // verus!
