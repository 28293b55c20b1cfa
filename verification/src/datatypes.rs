//! The primitive values of the protocol and their canonical byte encodings.
use crate::asyncio::{MyAsyncRead, MyAsyncWrite, WireError};
use crate::endian::{
    be_bytes, be_decode, be_encode, be_value, byte_range, i16_bits, i16_of_bits, i32_bits,
    i32_of_bits, i64_bits, i64_of_bits, i8_bits, i8_of_bits, lemma_be_bytes_len,
    lemma_be_value_bound, lemma_be_value_of_bytes, lemma_byte_ranges, signed_of, unsigned_of,
};
use vstd::arithmetic::div_mod::{lemma_mod_multiples_vanish, lemma_small_mod};
use vstd::prelude::*;
use vstd::utf8::{decode_utf8, encode_utf8, encode_utf8_decode_utf8, encode_utf8_valid_utf8, valid_utf8};

verus! {

/// A value with a place in the protocol: it has one canonical encoding, and a
/// decoder that reads one value from the front of a byte source.
pub trait DataType: Sized {
    /// What a value of this type stands for.
    type Value;

    /// The mathematical value of `self`.
    spec fn value(&self) -> Self::Value;

    /// True when `self` can be put on the wire on this machine: every length
    /// inside it fits the prefix that announces it.
    spec fn encodable(&self) -> bool;

    /// The canonical encoding.
    spec fn wire(&self) -> Seq<u8>;

    /// What the decoder makes of `input`: the value at its front and the
    /// number of bytes that value took, or the reason there is none.
    spec fn parse(input: Seq<u8>) -> Result<(Self::Value, nat), WireError>;

    /// Decoding an encoding gives the value back and takes exactly the
    /// encoding, whatever follows it.
    proof fn lemma_parse_wire(&self, rest: Seq<u8>)
        requires
            self.encodable(),
        ensures
            Self::parse(self.wire() + rest) == Ok::<(Self::Value, nat), WireError>(
                (self.value(), self.wire().len()),
            ),
    ;

    /// Writes the canonical encoding to `output`.
    fn serialize<O: MyAsyncWrite>(self, output: &mut O)
        requires
            self.encodable(),
            old(output).has_room(self.wire().len()),
        ensures
            final(output).holds_after(old(output), self.wire()),
    ;

    /// Reads one value from the front of `input`.
    fn deserialize<S: MyAsyncRead>(input: &mut S) -> (r: Result<Self, WireError>)
        ensures
            match Self::parse(old(input).pending()) {
                Ok((v, n)) => r is Ok && r->Ok_0.value() == v && n <= old(input).pending().len()
                    && final(input).pending() == old(input).pending().skip(n as int),
                Err(e) => r is Err && r->Err_0 == e,
            },
    ;
}

/// A variable-length integer: seven payload bits to a byte, least significant
/// group first, the high bit of a byte set when another byte follows.
#[derive(Copy, Clone, Debug, PartialEq, Eq, Hash, Structural)]
pub struct VarInt(pub i64);

/// A string, sent as its UTF-8 bytes behind their count.
#[derive(Debug, PartialEq, Eq)]
pub struct MString(pub String);

impl Clone for MString {
    fn clone(&self) -> (r: Self)
        ensures
            r == *self,
    {
        MString(self.0.clone())
    }
}

/// An inventory slot: empty, or an item id and a count.
#[derive(Clone, Debug, Copy, PartialEq, Eq)]
pub enum Slot {
    Present(VarInt, i8),
    NotPresent,
}

/// A single-precision number of the protocol, held as its IEEE 754 bit
/// pattern. The codec moves the pattern and never computes with it.
#[derive(Copy, Clone, Debug, PartialEq, Eq, Hash, Structural)]
pub struct Float(pub u32);

/// A double-precision number of the protocol, held as its IEEE 754 bit
/// pattern.
#[derive(Copy, Clone, Debug, PartialEq, Eq, Hash, Structural)]
pub struct Double(pub u64);

/// 2^64, the number of values a 64-bit register holds.
pub open spec fn two_64() -> int {
    0x1_0000_0000_0000_0000
}

/// 128 to the power `i`: the weight of group `i` of a variable-length integer.
pub open spec fn group_weight(i: nat) -> nat
    decreases i,
{
    if i == 0 {
        1
    } else {
        128 * group_weight((i - 1) as nat)
    }
}

/// The groups of `v`, least significant first, each but the last marked as
/// having a successor.
pub open spec fn varint_groups(v: nat) -> Seq<u8>
    decreases v,
{
    if v < 128 {
        seq![v as u8]
    } else {
        seq![(v % 128 + 128) as u8] + varint_groups(v / 128)
    }
}

/// The number that a run of groups denotes: the sum over `i` of the low seven
/// bits of byte `i`, times 128 to the `i`.
pub open spec fn groups_value(s: Seq<u8>) -> nat
    decreases s.len(),
{
    if s.len() == 0 {
        0
    } else {
        groups_value(s.drop_last()) + (s.last() % 128) as nat * group_weight((s.len() - 1) as nat)
    }
}

/// The length of the variable-length integer at the front of `s`: up to and
/// including the first byte whose high bit is clear. `None` when every byte
/// of `s` announces a successor.
pub open spec fn varint_len(s: Seq<u8>) -> Option<nat>
    decreases s.len(),
{
    if s.len() == 0 {
        None
    } else if s[0] < 128 {
        Some(1)
    } else {
        match varint_len(s.skip(1)) {
            Some(n) => Some(n + 1),
            None => None,
        }
    }
}

/// A variable-length integer has between one and ten groups.
pub proof fn lemma_varint_groups_len(v: nat)
    requires
        v < two_64(),
    ensures
        1 <= varint_groups(v).len() <= 10,
{
    reveal_with_fuel(varint_groups, 11);
}

/// Every group but the last announces a successor, and the last does not.
pub proof fn lemma_varint_groups_marks(v: nat)
    ensures
        varint_groups(v).len() >= 1,
        varint_groups(v).last() < 128,
        forall|k: int| 0 <= k < varint_groups(v).len() - 1 ==> varint_groups(v)[k] >= 128,
    decreases v,
{
    if v >= 128 {
        lemma_varint_groups_marks(v / 128);
        let tail = varint_groups(v / 128);
        let all = varint_groups(v);
        assert(all == seq![(v % 128 + 128) as u8] + tail);
        assert forall|k: int| 0 <= k < all.len() - 1 implies all[k] >= 128 by {
            if k > 0 {
                assert(all[k] == tail[k - 1]);
            }
        }
        assert(all.last() == tail.last());
    }
}

/// The groups of a number denote that number.
pub proof fn lemma_groups_value_of_groups(v: nat)
    ensures
        groups_value(varint_groups(v)) == v,
    decreases v,
{
    if v >= 128 {
        lemma_groups_value_of_groups(v / 128);
        let head = (v % 128 + 128) as u8;
        assert(seq![head] + varint_groups(v / 128) == varint_groups(v));
        assert(head % 128 == v % 128);
        lemma_groups_value_prepend(head, varint_groups(v / 128));
    } else {
        let s = seq![v as u8];
        assert(s =~= seq![v as u8] + Seq::<u8>::empty());
        lemma_groups_value_prepend(v as u8, Seq::<u8>::empty());
        assert(groups_value(Seq::<u8>::empty()) == 0);
    }
}

/// Putting a group in front multiplies what follows by 128.
proof fn lemma_groups_value_prepend(b: u8, s: Seq<u8>)
    ensures
        groups_value(seq![b] + s) == (b % 128) as nat + 128 * groups_value(s),
    decreases s.len(),
{
    let all = seq![b] + s;
    assert(group_weight(0) == 1);
    if s.len() == 0 {
        assert(all.len() == 1);
        assert(all.last() == b);
        assert(all.drop_last() =~= Seq::<u8>::empty());
        assert(groups_value(all.drop_last()) == 0);
        assert(groups_value(all) == groups_value(all.drop_last()) + (all.last() % 128) as nat
            * group_weight(0));
        assert(groups_value(s) == 0);
    } else {
        lemma_groups_value_prepend(b, s.drop_last());
        assert(all.drop_last() =~= seq![b] + s.drop_last());
        assert(all.last() == s.last());
        let w = group_weight((s.len() - 1) as nat);
        let g = (s.last() % 128) as nat;
        let rest = groups_value(s.drop_last());
        assert(group_weight(s.len()) == 128 * w);
        assert(groups_value(s) == rest + g * w);
        assert(groups_value(all) == groups_value(all.drop_last()) + g * group_weight(s.len()));
        assert(g * (128 * w) == 128 * (g * w)) by (nonlinear_arith);
        assert(128 * (rest + g * w) == 128 * rest + 128 * (g * w)) by (nonlinear_arith);
    }
}

/// A run of `n` groups denotes a number below 128 to the `n`.
pub proof fn lemma_groups_value_bound(s: Seq<u8>)
    ensures
        groups_value(s) < group_weight(s.len()),
    decreases s.len(),
{
    if s.len() > 0 {
        lemma_groups_value_bound(s.drop_last());
        let w = group_weight((s.len() - 1) as nat);
        let g = (s.last() % 128) as nat;
        assert(g * w <= 127 * w) by (nonlinear_arith)
            requires
                g <= 127,
        ;
    }
}

/// Where the first `i` bytes all announce a successor, the integer at the
/// front ends where the integer behind them ends.
pub proof fn lemma_varint_len_skip(s: Seq<u8>, i: nat)
    requires
        i <= s.len(),
        forall|k: int| 0 <= k < i ==> s[k] >= 128,
    ensures
        varint_len(s) == match varint_len(s.skip(i as int)) {
            Some(n) => Some(n + i),
            None => None,
        },
    decreases i,
{
    if i == 0 {
        assert(s.skip(0) =~= s);
    } else {
        let t = s.skip(1);
        assert forall|k: int| 0 <= k < i - 1 implies t[k] >= 128 by {
            assert(t[k] == s[k + 1]);
        }
        lemma_varint_len_skip(t, (i - 1) as nat);
        assert(t.skip(i - 1) =~= s.skip(i as int));
    }
}

impl MString {
    /// Whether the string can be sent: whether its length in bytes fits the
    /// prefix that announces it.
    pub fn is_encodable(&self) -> (r: bool)
        ensures
            r == self.encodable(),
    {
        let bytes = self.0.as_str().as_bytes();
        bytes.len() as u64 <= i64::MAX as u64
    }
}

impl VarInt {
    /// The number of bytes of the encoding, found from the value alone.
    pub fn size(&self) -> (bytes: u8)
        ensures
            bytes == self.wire().len(),
            1 <= bytes <= 10,
    {
        let mut bytes: u8 = 0;
        let mut temp: u64 = i64_bits(self.0);
        proof {
            lemma_varint_groups_len(temp as nat);
        }
        loop
            invariant_except_break
                bytes + varint_groups(temp as nat).len() == self.wire().len(),
                self.wire().len() <= 10,
            ensures
                bytes == self.wire().len(),
            decreases temp,
        {
            proof {
                lemma_varint_groups_len(temp as nat);
            }
            bytes = bytes + 1;
            if temp < 128 {
                break ;
            }
            temp = temp / 128;
        }
        proof {
            lemma_varint_groups_len(unsigned_of(self.0 as int, 8));
        }
        bytes
    }
}

impl DataType for VarInt {
    type Value = VarInt;

    open spec fn value(&self) -> VarInt {
        *self
    }

    open spec fn encodable(&self) -> bool {
        true
    }

    open spec fn wire(&self) -> Seq<u8> {
        varint_groups(unsigned_of(self.0 as int, 8))
    }

    open spec fn parse(input: Seq<u8>) -> Result<(VarInt, nat), WireError> {
        match varint_len(input) {
            Some(n) => Ok(
                (VarInt(signed_of(groups_value(input.take(n as int)) % (two_64() as nat), 8) as i64), n),
            ),
            None => Err(WireError::UnexpectedEof),
        }
    }

    proof fn lemma_parse_wire(&self, rest: Seq<u8>) {
        lemma_byte_ranges();
        let v = unsigned_of(self.0 as int, 8);
        let groups = varint_groups(v);
        let input = groups + rest;
        lemma_varint_groups_marks(v);
        lemma_groups_value_of_groups(v);
        let i = (groups.len() - 1) as nat;
        assert forall|k: int| 0 <= k < i implies input[k] >= 128 by {
            assert(input[k] == groups[k]);
        }
        lemma_varint_len_skip(input, i);
        let tail = input.skip(i as int);
        assert(tail[0] == groups.last());
        assert(varint_len(tail) == Some(1nat));
        assert(varint_len(input) == Some(groups.len()));
        assert(input.take(groups.len() as int) =~= groups);
        lemma_small_mod(v, two_64() as nat);
    }

    fn serialize<O: MyAsyncWrite>(self, output: &mut O) {
        let mut number: u64 = i64_bits(self.0);
        let ghost done: Seq<u8> = Seq::empty();
        let ghost start = *output;
        proof {
            output.lemma_holds_after_nothing();
        }
        loop
            invariant_except_break
                done + varint_groups(number as nat) == self.wire(),
                output.holds_after(&start, done),
                start.has_room(self.wire().len()),
            ensures
                output.holds_after(&start, self.wire()),
            decreases number,
        {
            let ghost before = *output;
            let ghost groups = varint_groups(number as nat);
            proof {
                assert(done.len() + groups.len() == self.wire().len());
                output.lemma_room_left(&start, done, groups.len());
                output.lemma_room_for_less(groups.len(), 1);
            }
            let last = number < 128;
            let byte: u8 = if last {
                number as u8
            } else {
                (number % 128 + 128) as u8
            };
            proof {
                let one = seq![byte];
                assert(groups.len() >= 1);
                if !last {
                    assert(groups == one + varint_groups((number / 128) as nat));
                }
            }
            output.write_byte(byte);
            proof {
                output.lemma_holds_after_both(&start, &before, done, seq![byte]);
                done = done + seq![byte];
            }
            if last {
                break ;
            }
            number = number / 128;
            proof {
                assert(done + varint_groups(number as nat) =~= self.wire());
            }
        }
    }

    fn deserialize<S: MyAsyncRead>(input: &mut S) -> (r: Result<Self, WireError>) {
        let ghost bytes = input.pending();
        let ghost mut i: nat = 0;
        let mut index: u8 = 0;
        let mut result: u64 = 0;
        let mut weight: u64 = 1;
        let mut r: Result<Self, WireError> = Err(WireError::UnexpectedEof);
        loop
            invariant_except_break
                i <= bytes.len(),
                index == (if i <= 10 {
                    i
                } else {
                    10
                }),
                input.pending() == bytes.skip(i as int),
                forall|k: int| 0 <= k < i ==> bytes[k] >= 128,
                result == groups_value(bytes.take(i as int)) % (two_64() as nat),
                i <= 9 ==> weight == group_weight(i),
            ensures
                match Self::parse(bytes) {
                    Ok((v, n)) => r is Ok && r->Ok_0.value() == v && n <= bytes.len()
                        && input.pending() == bytes.skip(n as int),
                    Err(e) => r is Err && r->Err_0 == e,
                },
            decreases bytes.len() - i,
        {
            proof {
                lemma_varint_len_skip(bytes, i);
            }
            let number = match input.read_byte() {
                Ok(b) => b,
                Err(e) => {
                    r = Err(e);
                    break ;
                },
            };
            let group: u64 = (number % 128) as u64;
            let ghost so_far = groups_value(bytes.take(i as int));
            proof {
                assert(bytes.skip(i as int)[0] == bytes[i as int]);
                assert(bytes.take(i + 1 as int).drop_last() =~= bytes.take(i as int));
                assert(bytes.take(i + 1 as int).last() == number);
                assert(groups_value(bytes.take(i + 1 as int)) == so_far + group * group_weight(i));
                lemma_groups_value_bound(bytes.take(i as int));
                lemma_group_weights();
                lemma_accumulate(so_far, group as nat, i);
                if i <= 9 {
                    reveal_with_fuel(group_weight, 11);
                    lemma_small_mod(so_far, two_64() as nat);
                }
                if i < 9 {
                    lemma_small_mod(
                        (so_far + group * group_weight(i)) as nat,
                        two_64() as nat,
                    );
                }
            }
            if index < 9 {
                assert(group * weight <= 127 * weight) by (nonlinear_arith)
                    requires
                        group <= 127,
                ;
                result = result + group * weight;
                weight = weight * 128;
            } else if index == 9 {
                result = result + (group % 2) * weight;
            }
            assert(bytes.skip(i as int).skip(1) =~= bytes.skip(i + 1 as int));
            proof {
                i = i + 1;
            }
            if index < 10 {
                index = index + 1;
            }
            if number < 128 {
                proof {
                    assert(bytes.skip((i - 1) as int)[0] == number);
                }
                r = Ok(VarInt(i64_of_bits(result)));
                break ;
            }
        }
        r
    }
}

/// The weights of the first ten groups, and of the bit that the tenth group
/// still reaches.
proof fn lemma_group_weights()
    ensures
        group_weight(0) == 1,
        group_weight(1) == 0x80,
        group_weight(2) == 0x4000,
        group_weight(3) == 0x20_0000,
        group_weight(4) == 0x1000_0000,
        group_weight(5) == 0x8_0000_0000,
        group_weight(6) == 0x400_0000_0000,
        group_weight(7) == 0x2_0000_0000_0000,
        group_weight(8) == 0x100_0000_0000_0000,
        group_weight(9) == 0x8000_0000_0000_0000,
        group_weight(10) == 64 * two_64(),
{
    reveal_with_fuel(group_weight, 11);
}

/// A group at or past the eleventh has a weight that is a multiple of 2^64.
proof fn lemma_group_weight_high(i: nat) -> (q: nat)
    requires
        i >= 10,
    ensures
        group_weight(i) == q * two_64(),
    decreases i,
{
    lemma_group_weights();
    if i == 10 {
        64
    } else {
        let p = lemma_group_weight_high((i - 1) as nat);
        assert(128 * (p * two_64()) == (128 * p) * two_64()) by (nonlinear_arith);
        128 * p
    }
}

/// What adding group `i` does to the low 64 bits of the number so far.
proof fn lemma_accumulate(so_far: nat, group: nat, i: nat)
    requires
        so_far < group_weight(i),
        group <= 127,
    ensures
        i < 9 ==> so_far + group * group_weight(i) < two_64() && so_far < two_64(),
        i == 9 ==> so_far < two_64() && (so_far + group * group_weight(i)) % (two_64() as nat)
            == so_far + (group % 2) * group_weight(9),
        i > 9 ==> (so_far + group * group_weight(i)) % (two_64() as nat) == so_far % (
        two_64() as nat),
{
    lemma_group_weights();
    let w = group_weight(i);
    let m = two_64();
    if i < 9 {
        reveal_with_fuel(group_weight, 11);
        assert(group * w <= 127 * w) by (nonlinear_arith)
            requires
                group <= 127,
        ;
    } else if i == 9 {
        let q = group / 2;
        let r = group % 2;
        assert(group * w == m * q + r * w) by (nonlinear_arith)
            requires
                group == 2 * q + r,
                m == 2 * w,
        ;
        assert(r * w <= w) by (nonlinear_arith)
            requires
                r <= 1,
        ;
        lemma_mod_multiples_vanish(q as int, (so_far + r * w) as int, m);
        assert(so_far + group * w == m * q + (so_far + r * w));
        lemma_small_mod((so_far + r * w) as nat, m as nat);
    } else {
        let q = lemma_group_weight_high(i);
        assert(group * (q * m) == m * (group * q)) by (nonlinear_arith);
        lemma_mod_multiples_vanish((group * q) as int, so_far as int, m);
        assert(so_far + group * w == m * (group * q) + so_far);
    }
}

/// What a decoder of `n` big-endian bytes makes of `input`: the number that
/// the first `n` bytes denote, or the news that there are fewer.
pub open spec fn parse_be(input: Seq<u8>, n: nat) -> Result<(nat, nat), WireError> {
    if input.len() < n {
        Err(WireError::UnexpectedEof)
    } else {
        Ok((be_value(input.take(n as int)), n))
    }
}

/// The bytes of a number that fits in `n` bytes decode to it.
pub proof fn lemma_parse_be_bytes(v: nat, n: nat, rest: Seq<u8>)
    requires
        v < byte_range(n),
    ensures
        be_bytes(v, n).len() == n,
        parse_be(be_bytes(v, n) + rest, n) == Ok::<(nat, nat), WireError>((v, n)),
{
    lemma_be_bytes_len(v, n);
    lemma_be_value_of_bytes(v, n);
    assert((be_bytes(v, n) + rest).take(n as int) =~= be_bytes(v, n));
}

/// Writes the low `N` bytes of `v`, most significant first.
fn write_be<O: MyAsyncWrite, const N: usize>(output: &mut O, v: u64)
    requires
        N <= 8,
        old(output).has_room(be_bytes(v as nat, N as nat).len()),
    ensures
        final(output).holds_after(old(output), be_bytes(v as nat, N as nat)),
{
    proof {
        lemma_be_bytes_len(v as nat, N as nat);
    }
    let mut bytes: [u8; N] = [0u8; N];
    be_encode(v, &mut bytes);
    output.write(&bytes);
}

/// Reads `N` bytes as one number, most significant byte first.
fn read_be<S: MyAsyncRead, const N: usize>(input: &mut S) -> (r: Result<u64, WireError>)
    requires
        N <= 8,
    ensures
        match parse_be(old(input).pending(), N as nat) {
            Ok((v, n)) => r == Ok::<u64, WireError>(v as u64) && v < byte_range(N as nat) && n
                <= old(input).pending().len() && final(input).pending() == old(
                input,
            ).pending().skip(n as int),
            Err(e) => r == Err::<u64, WireError>(e),
        },
{
    let mut bytes: [u8; N] = [0u8; N];
    match input.read(&mut bytes) {
        Ok(()) => {
            proof {
                lemma_be_value_bound(bytes@);
                lemma_byte_ranges();
            }
            Ok(be_decode(&bytes))
        },
        Err(e) => Err(e),
    }
}

impl DataType for u8 {
    type Value = u8;

    open spec fn value(&self) -> u8 {
        *self
    }

    open spec fn encodable(&self) -> bool {
        true
    }

    open spec fn wire(&self) -> Seq<u8> {
        seq![*self]
    }

    open spec fn parse(input: Seq<u8>) -> Result<(u8, nat), WireError> {
        if input.len() == 0 {
            Err(WireError::UnexpectedEof)
        } else {
            Ok((input[0], 1))
        }
    }

    proof fn lemma_parse_wire(&self, rest: Seq<u8>) {
    }

    fn serialize<O: MyAsyncWrite>(self, output: &mut O) {
        output.write_byte(self);
    }

    fn deserialize<S: MyAsyncRead>(input: &mut S) -> (r: Result<Self, WireError>) {
        input.read_byte()
    }
}

impl DataType for bool {
    type Value = bool;

    open spec fn value(&self) -> bool {
        *self
    }

    open spec fn encodable(&self) -> bool {
        true
    }

    open spec fn wire(&self) -> Seq<u8> {
        seq![if *self { 1u8 } else { 0u8 }]
    }

    /// Exactly the byte 1 is true; every other byte is false.
    open spec fn parse(input: Seq<u8>) -> Result<(bool, nat), WireError> {
        if input.len() == 0 {
            Err(WireError::UnexpectedEof)
        } else {
            Ok((input[0] == 1, 1))
        }
    }

    proof fn lemma_parse_wire(&self, rest: Seq<u8>) {
    }

    fn serialize<O: MyAsyncWrite>(self, output: &mut O) {
        output.write_byte(if self { 1 } else { 0 });
    }

    fn deserialize<S: MyAsyncRead>(input: &mut S) -> (r: Result<Self, WireError>) {
        match input.read_byte() {
            Ok(byte) => Ok(byte == 1),
            Err(e) => Err(e),
        }
    }
}

impl DataType for i8 {
    type Value = i8;

    open spec fn value(&self) -> i8 {
        *self
    }

    open spec fn encodable(&self) -> bool {
        true
    }

    open spec fn wire(&self) -> Seq<u8> {
        be_bytes(unsigned_of(*self as int, 1), 1)
    }

    open spec fn parse(input: Seq<u8>) -> Result<(i8, nat), WireError> {
        match parse_be(input, 1) {
            Ok((v, n)) => Ok((signed_of(v, 1) as i8, n)),
            Err(e) => Err(e),
        }
    }

    proof fn lemma_parse_wire(&self, rest: Seq<u8>) {
        lemma_byte_ranges();
        lemma_parse_be_bytes(unsigned_of(*self as int, 1), 1, rest);
    }

    fn serialize<O: MyAsyncWrite>(self, output: &mut O) {
        write_be::<O, 1>(output, i8_bits(self) as u64);
    }

    fn deserialize<S: MyAsyncRead>(input: &mut S) -> (r: Result<Self, WireError>) {
        proof {
            lemma_byte_ranges();
        }
        match read_be::<S, 1>(input) {
            Ok(v) => Ok(i8_of_bits(v as u8)),
            Err(e) => Err(e),
        }
    }
}

impl DataType for u16 {
    type Value = u16;

    open spec fn value(&self) -> u16 {
        *self
    }

    open spec fn encodable(&self) -> bool {
        true
    }

    open spec fn wire(&self) -> Seq<u8> {
        be_bytes(*self as nat, 2)
    }

    open spec fn parse(input: Seq<u8>) -> Result<(u16, nat), WireError> {
        match parse_be(input, 2) {
            Ok((v, n)) => Ok((v as u16, n)),
            Err(e) => Err(e),
        }
    }

    proof fn lemma_parse_wire(&self, rest: Seq<u8>) {
        lemma_byte_ranges();
        lemma_parse_be_bytes(*self as nat, 2, rest);
    }

    fn serialize<O: MyAsyncWrite>(self, output: &mut O) {
        write_be::<O, 2>(output, self as u64);
    }

    fn deserialize<S: MyAsyncRead>(input: &mut S) -> (r: Result<Self, WireError>) {
        proof {
            lemma_byte_ranges();
        }
        match read_be::<S, 2>(input) {
            Ok(v) => Ok(v as u16),
            Err(e) => Err(e),
        }
    }
}

impl DataType for i16 {
    type Value = i16;

    open spec fn value(&self) -> i16 {
        *self
    }

    open spec fn encodable(&self) -> bool {
        true
    }

    open spec fn wire(&self) -> Seq<u8> {
        be_bytes(unsigned_of(*self as int, 2), 2)
    }

    open spec fn parse(input: Seq<u8>) -> Result<(i16, nat), WireError> {
        match parse_be(input, 2) {
            Ok((v, n)) => Ok((signed_of(v, 2) as i16, n)),
            Err(e) => Err(e),
        }
    }

    proof fn lemma_parse_wire(&self, rest: Seq<u8>) {
        lemma_byte_ranges();
        lemma_parse_be_bytes(unsigned_of(*self as int, 2), 2, rest);
    }

    fn serialize<O: MyAsyncWrite>(self, output: &mut O) {
        write_be::<O, 2>(output, i16_bits(self) as u64);
    }

    fn deserialize<S: MyAsyncRead>(input: &mut S) -> (r: Result<Self, WireError>) {
        proof {
            lemma_byte_ranges();
        }
        match read_be::<S, 2>(input) {
            Ok(v) => Ok(i16_of_bits(v as u16)),
            Err(e) => Err(e),
        }
    }
}

impl DataType for i32 {
    type Value = i32;

    open spec fn value(&self) -> i32 {
        *self
    }

    open spec fn encodable(&self) -> bool {
        true
    }

    open spec fn wire(&self) -> Seq<u8> {
        be_bytes(unsigned_of(*self as int, 4), 4)
    }

    open spec fn parse(input: Seq<u8>) -> Result<(i32, nat), WireError> {
        match parse_be(input, 4) {
            Ok((v, n)) => Ok((signed_of(v, 4) as i32, n)),
            Err(e) => Err(e),
        }
    }

    proof fn lemma_parse_wire(&self, rest: Seq<u8>) {
        lemma_byte_ranges();
        lemma_parse_be_bytes(unsigned_of(*self as int, 4), 4, rest);
    }

    fn serialize<O: MyAsyncWrite>(self, output: &mut O) {
        write_be::<O, 4>(output, i32_bits(self) as u64);
    }

    fn deserialize<S: MyAsyncRead>(input: &mut S) -> (r: Result<Self, WireError>) {
        proof {
            lemma_byte_ranges();
        }
        match read_be::<S, 4>(input) {
            Ok(v) => Ok(i32_of_bits(v as u32)),
            Err(e) => Err(e),
        }
    }
}

impl DataType for i64 {
    type Value = i64;

    open spec fn value(&self) -> i64 {
        *self
    }

    open spec fn encodable(&self) -> bool {
        true
    }

    open spec fn wire(&self) -> Seq<u8> {
        be_bytes(unsigned_of(*self as int, 8), 8)
    }

    open spec fn parse(input: Seq<u8>) -> Result<(i64, nat), WireError> {
        match parse_be(input, 8) {
            Ok((v, n)) => Ok((signed_of(v, 8) as i64, n)),
            Err(e) => Err(e),
        }
    }

    proof fn lemma_parse_wire(&self, rest: Seq<u8>) {
        lemma_byte_ranges();
        lemma_parse_be_bytes(unsigned_of(*self as int, 8), 8, rest);
    }

    fn serialize<O: MyAsyncWrite>(self, output: &mut O) {
        write_be::<O, 8>(output, i64_bits(self));
    }

    fn deserialize<S: MyAsyncRead>(input: &mut S) -> (r: Result<Self, WireError>) {
        proof {
            lemma_byte_ranges();
        }
        match read_be::<S, 8>(input) {
            Ok(v) => Ok(i64_of_bits(v)),
            Err(e) => Err(e),
        }
    }
}

impl DataType for Float {
    type Value = Float;

    open spec fn value(&self) -> Float {
        *self
    }

    open spec fn encodable(&self) -> bool {
        true
    }

    open spec fn wire(&self) -> Seq<u8> {
        be_bytes(self.0 as nat, 4)
    }

    open spec fn parse(input: Seq<u8>) -> Result<(Float, nat), WireError> {
        match parse_be(input, 4) {
            Ok((v, n)) => Ok((Float(v as u32), n)),
            Err(e) => Err(e),
        }
    }

    proof fn lemma_parse_wire(&self, rest: Seq<u8>) {
        lemma_byte_ranges();
        lemma_parse_be_bytes(self.0 as nat, 4, rest);
    }

    fn serialize<O: MyAsyncWrite>(self, output: &mut O) {
        write_be::<O, 4>(output, self.0 as u64);
    }

    fn deserialize<S: MyAsyncRead>(input: &mut S) -> (r: Result<Self, WireError>) {
        proof {
            lemma_byte_ranges();
        }
        match read_be::<S, 4>(input) {
            Ok(v) => Ok(Float(v as u32)),
            Err(e) => Err(e),
        }
    }
}

impl DataType for Double {
    type Value = Double;

    open spec fn value(&self) -> Double {
        *self
    }

    open spec fn encodable(&self) -> bool {
        true
    }

    open spec fn wire(&self) -> Seq<u8> {
        be_bytes(self.0 as nat, 8)
    }

    open spec fn parse(input: Seq<u8>) -> Result<(Double, nat), WireError> {
        match parse_be(input, 8) {
            Ok((v, n)) => Ok((Double(v as u64), n)),
            Err(e) => Err(e),
        }
    }

    proof fn lemma_parse_wire(&self, rest: Seq<u8>) {
        lemma_byte_ranges();
        lemma_parse_be_bytes(self.0 as nat, 8, rest);
    }

    fn serialize<O: MyAsyncWrite>(self, output: &mut O) {
        write_be::<O, 8>(output, self.0);
    }

    fn deserialize<S: MyAsyncRead>(input: &mut S) -> (r: Result<Self, WireError>) {
        proof {
            lemma_byte_ranges();
        }
        match read_be::<S, 8>(input) {
            Ok(v) => Ok(Double(v)),
            Err(e) => Err(e),
        }
    }
}

/// A 128-bit value travels as two 64-bit halves, the high half first.
impl DataType for u128 {
    type Value = u128;

    open spec fn value(&self) -> u128 {
        *self
    }

    open spec fn encodable(&self) -> bool {
        true
    }

    open spec fn wire(&self) -> Seq<u8> {
        be_bytes((*self / 0x1_0000_0000_0000_0000) as nat, 8) + be_bytes(
            (*self % 0x1_0000_0000_0000_0000) as nat,
            8,
        )
    }

    open spec fn parse(input: Seq<u8>) -> Result<(u128, nat), WireError> {
        match parse_be(input, 8) {
            Ok((high, _)) => match parse_be(input.skip(8), 8) {
                Ok((low, _)) => Ok(((high * two_64() + low) as u128, 16)),
                Err(e) => Err(e),
            },
            Err(e) => Err(e),
        }
    }

    proof fn lemma_parse_wire(&self, rest: Seq<u8>) {
        lemma_byte_ranges();
        let high = (*self / 0x1_0000_0000_0000_0000) as nat;
        let low = (*self % 0x1_0000_0000_0000_0000) as nat;
        lemma_parse_be_bytes(high, 8, be_bytes(low, 8) + rest);
        lemma_parse_be_bytes(low, 8, rest);
        let input = self.wire() + rest;
        assert(input =~= be_bytes(high, 8) + (be_bytes(low, 8) + rest));
        assert(input.skip(8) =~= be_bytes(low, 8) + rest);
    }

    fn serialize<O: MyAsyncWrite>(self, output: &mut O) {
        let high = (self / 0x1_0000_0000_0000_0000) as u64;
        let low = (self % 0x1_0000_0000_0000_0000) as u64;
        let ghost start = *output;
        proof {
            lemma_be_bytes_len(high as nat, 8);
            lemma_be_bytes_len(low as nat, 8);
            start.lemma_room_for_less(16, 8);
        }
        write_be::<O, 8>(output, high);
        let ghost middle = *output;
        proof {
            middle.lemma_room_left(&start, be_bytes(high as nat, 8), 8);
        }
        write_be::<O, 8>(output, low);
        proof {
            output.lemma_holds_after_both(
                &start,
                &middle,
                be_bytes(high as nat, 8),
                be_bytes(low as nat, 8),
            );
        }
    }

    fn deserialize<S: MyAsyncRead>(input: &mut S) -> (r: Result<Self, WireError>) {
        let ghost bytes = input.pending();
        proof {
            lemma_byte_ranges();
        }
        let high = match read_be::<S, 8>(input) {
            Ok(v) => v,
            Err(e) => {
                return Err(e);
            },
        };
        let low = match read_be::<S, 8>(input) {
            Ok(v) => v,
            Err(e) => {
                return Err(e);
            },
        };
        proof {
            assert(bytes.skip(8).skip(8) =~= bytes.skip(16));
            assert(bytes.skip(8).len() == bytes.len() - 8);
            assert(parse_be(bytes, 8) is Ok);
            assert(parse_be(bytes.skip(8), 8) is Ok);
        }
        let whole: u128 = high as u128 * 0x1_0000_0000_0000_0000 + low as u128;
        assert(whole == high * two_64() + low);
        Ok(whole)
    }
}

/// What `String::from_utf8_lossy` makes of bytes that are not UTF-8: the
/// characters of the valid stretches, with a replacement character for each
/// stretch that is not.
pub uninterp spec fn utf8_lossy(bytes: Seq<u8>) -> Seq<char>;

/// The characters that a decoder which never fails reads from `bytes`: what
/// the bytes encode where they are UTF-8, the lossy reading where not.
pub open spec fn utf8_chars(bytes: Seq<u8>) -> Seq<char> {
    if valid_utf8(bytes) {
        decode_utf8(bytes)
    } else {
        utf8_lossy(bytes)
    }
}

/// `String::from_utf8_lossy`, made into an owned string: valid UTF-8 comes
/// back as the string it encodes, anything else as the lossy reading that
/// the standard library documents.
#[verifier::external_body]
fn string_from_utf8_lossy(bytes: &[u8]) -> (r: String)
    ensures
        valid_utf8(bytes@) ==> r@ == decode_utf8(bytes@),
        !valid_utf8(bytes@) ==> r@ == utf8_lossy(bytes@),
{
    String::from_utf8_lossy(bytes).into_owned()
}

impl DataType for MString {
    type Value = Seq<char>;

    open spec fn value(&self) -> Seq<char> {
        self.0@
    }

    open spec fn encodable(&self) -> bool {
        encode_utf8(self.0@).len() <= i64::MAX && encode_utf8(self.0@).len() <= usize::MAX
    }

    open spec fn wire(&self) -> Seq<u8> {
        VarInt(encode_utf8(self.0@).len() as i64).wire() + encode_utf8(self.0@)
    }

    open spec fn parse(input: Seq<u8>) -> Result<(Seq<char>, nat), WireError> {
        match VarInt::parse(input) {
            Ok((length, k)) => if length.0 < 0 || length.0 > usize::MAX {
                Err(WireError::BadLength)
            } else if input.len() - k < length.0 {
                Err(WireError::UnexpectedEof)
            } else {
                let n = length.0 as nat;
                Ok((utf8_chars(input.subrange(k as int, (k + n) as int)), k + n))
            },
            Err(e) => Err(e),
        }
    }

    proof fn lemma_parse_wire(&self, rest: Seq<u8>) {
        let text = encode_utf8(self.0@);
        let prefix = VarInt(text.len() as i64);
        let k = prefix.wire().len();
        prefix.lemma_parse_wire(text + rest);
        let input = self.wire() + rest;
        assert(input =~= prefix.wire() + (text + rest));
        assert(input.subrange(k as int, (k + text.len()) as int) =~= text);
        encode_utf8_valid_utf8(self.0@);
        encode_utf8_decode_utf8(self.0@);
    }

    fn serialize<O: MyAsyncWrite>(self, output: &mut O) {
        let bytes = self.0.as_str().as_bytes();
        let prefix = VarInt(bytes.len() as i64);
        let ghost start = *output;
        proof {
            start.lemma_room_for_less(self.wire().len(), prefix.wire().len());
        }
        prefix.serialize(output);
        let ghost middle = *output;
        proof {
            middle.lemma_room_left(&start, prefix.wire(), bytes@.len());
        }
        output.write(bytes);
        proof {
            output.lemma_holds_after_both(&start, &middle, prefix.wire(), bytes@);
        }
    }

    fn deserialize<S: MyAsyncRead>(input: &mut S) -> (r: Result<Self, WireError>) {
        let ghost bytes = input.pending();
        let length = match VarInt::deserialize(input) {
            Ok(v) => v,
            Err(e) => {
                return Err(e);
            },
        };
        if length.0 < 0 || length.0 as u64 > usize::MAX as u64 {
            return Err(WireError::BadLength);
        }
        let ghost k = VarInt::parse(bytes)->Ok_0.1;
        let text = match input.read_vec(length.0 as usize) {
            Ok(v) => v,
            Err(e) => {
                return Err(e);
            },
        };
        proof {
            let n = length.0 as nat;
            assert(bytes.skip(k as int).take(n as int) =~= bytes.subrange(k as int, (k + n) as int));
            assert(bytes.skip(k as int).skip(n as int) =~= bytes.skip((k + n) as int));
        }
        Ok(MString(string_from_utf8_lossy(text.as_slice())))
    }
}

impl DataType for Slot {
    type Value = Slot;

    open spec fn value(&self) -> Slot {
        *self
    }

    open spec fn encodable(&self) -> bool {
        true
    }

    /// A presence flag, then, for a present item, its id and its count.
    open spec fn wire(&self) -> Seq<u8> {
        match *self {
            Slot::Present(id, number) => true.wire() + id.wire() + number.wire(),
            Slot::NotPresent => false.wire(),
        }
    }

    open spec fn parse(input: Seq<u8>) -> Result<(Slot, nat), WireError> {
        match bool::parse(input) {
            Ok((present, _)) => if present {
                match VarInt::parse(input.skip(1)) {
                    Ok((id, k)) => match i8::parse(input.skip((1 + k) as int)) {
                        Ok((number, _)) => Ok((Slot::Present(id, number), k + 2)),
                        Err(e) => Err(e),
                    },
                    Err(e) => Err(e),
                }
            } else {
                Ok((Slot::NotPresent, 1))
            },
            Err(e) => Err(e),
        }
    }

    proof fn lemma_parse_wire(&self, rest: Seq<u8>) {
        match *self {
            Slot::Present(id, number) => {
                let input = self.wire() + rest;
                let k = id.wire().len();
                id.lemma_parse_wire(number.wire() + rest);
                number.lemma_parse_wire(rest);
                assert(input.skip(1) =~= id.wire() + (number.wire() + rest));
                assert(input.skip((1 + k) as int) =~= number.wire() + rest);
                lemma_be_bytes_len(unsigned_of(number as int, 1), 1);
            },
            Slot::NotPresent => {},
        }
    }

    fn serialize<O: MyAsyncWrite>(self, output: &mut O) {
        match self {
            Slot::Present(id, number) => {
                let ghost start = *output;
                proof {
                    lemma_be_bytes_len(unsigned_of(number as int, 1), 1);
                    start.lemma_room_for_less(self.wire().len(), 1);
                }
                true.serialize(output);
                let ghost flagged = *output;
                proof {
                    flagged.lemma_room_left(&start, true.wire(), id.wire().len() + 1);
                    flagged.lemma_room_for_less(id.wire().len() + 1, id.wire().len());
                }
                id.serialize(output);
                let ghost named = *output;
                proof {
                    named.lemma_holds_after_both(&start, &flagged, true.wire(), id.wire());
                    named.lemma_room_left(&start, true.wire() + id.wire(), 1);
                }
                number.serialize(output);
                proof {
                    output.lemma_holds_after_both(
                        &start,
                        &named,
                        true.wire() + id.wire(),
                        number.wire(),
                    );
                }
            },
            Slot::NotPresent => {
                false.serialize(output);
            },
        }
    }

    fn deserialize<S: MyAsyncRead>(input: &mut S) -> (r: Result<Self, WireError>) {
        let ghost bytes = input.pending();
        let present = match bool::deserialize(input) {
            Ok(v) => v,
            Err(e) => {
                return Err(e);
            },
        };
        if present {
            let id = match VarInt::deserialize(input) {
                Ok(v) => v,
                Err(e) => {
                    return Err(e);
                },
            };
            let ghost k = VarInt::parse(bytes.skip(1))->Ok_0.1;
            proof {
                assert(bytes.skip(1).skip(k as int) =~= bytes.skip((1 + k) as int));
            }
            let number = match i8::deserialize(input) {
                Ok(v) => v,
                Err(e) => {
                    return Err(e);
                },
            };
            proof {
                assert(bytes.skip((1 + k) as int).skip(1) =~= bytes.skip((k + 2) as int));
            }
            Ok(Slot::Present(id, number))
        } else {
            Ok(Slot::NotPresent)
        }
    }
}

/// The encodings of `items`, one after the other.
pub open spec fn wire_all<T: DataType>(items: Seq<T>) -> Seq<u8>
    decreases items.len(),
{
    if items.len() == 0 {
        Seq::empty()
    } else {
        wire_all(items.drop_last()) + items.last().wire()
    }
}

/// What a decoder makes of `input` when it reads `count` values in a row:
/// their values and the bytes they took together, or the first failure.
pub open spec fn parse_all<T: DataType>(input: Seq<u8>, count: nat) -> Result<
    (Seq<T::Value>, nat),
    WireError,
>
    decreases count,
{
    if count == 0 {
        Ok((Seq::empty(), 0))
    } else {
        match parse_all::<T>(input, (count - 1) as nat) {
            Ok((values, used)) => match T::parse(input.skip(used as int)) {
                Ok((v, n)) => Ok((values.push(v), used + n)),
                Err(e) => Err(e),
            },
            Err(e) => Err(e),
        }
    }
}

/// The values of `items`, in order.
pub open spec fn values_of<T: DataType>(items: Seq<T>) -> Seq<T::Value> {
    Seq::new(items.len(), |i: int| items[i].value())
}

/// Reading as many values as were written gives them back and takes exactly
/// their encodings.
pub proof fn lemma_parse_all_wire<T: DataType>(items: Seq<T>, rest: Seq<u8>)
    requires
        forall|i: int| 0 <= i < items.len() ==> (#[trigger] items[i]).encodable(),
    ensures
        parse_all::<T>(wire_all(items) + rest, items.len()) == Ok::<(Seq<T::Value>, nat), WireError>(
            (values_of(items), wire_all(items).len()),
        ),
    decreases items.len(),
{
    if items.len() == 0 {
        assert(values_of(items) =~= Seq::<T::Value>::empty());
    } else {
        let front = items.drop_last();
        let last = items.last();
        let input = wire_all(items) + rest;
        assert forall|i: int| 0 <= i < front.len() implies (#[trigger] front[i]).encodable() by {
            assert(front[i] == items[i]);
        }
        lemma_parse_all_wire(front, last.wire() + rest);
        assert(input =~= wire_all(front) + (last.wire() + rest));
        assert(input.skip(wire_all(front).len() as int) =~= last.wire() + rest);
        last.lemma_parse_wire(rest);
        assert(values_of(items) =~= values_of(front).push(last.value()));
    }
}

/// A sequence travels as its count and then its elements.
impl<T: DataType> DataType for Vec<T> {
    type Value = Seq<T::Value>;

    open spec fn value(&self) -> Seq<T::Value> {
        values_of(self@)
    }

    open spec fn encodable(&self) -> bool {
        &&& self@.len() <= i64::MAX
        &&& forall|i: int| 0 <= i < self@.len() ==> (#[trigger] self@[i]).encodable()
    }

    open spec fn wire(&self) -> Seq<u8> {
        VarInt(self@.len() as i64).wire() + wire_all(self@)
    }

    open spec fn parse(input: Seq<u8>) -> Result<(Seq<T::Value>, nat), WireError> {
        match VarInt::parse(input) {
            Ok((count, k)) => if count.0 < 0 {
                Err(WireError::BadLength)
            } else {
                match parse_all::<T>(input.skip(k as int), count.0 as nat) {
                    Ok((values, used)) => Ok((values, k + used)),
                    Err(e) => Err(e),
                }
            },
            Err(e) => Err(e),
        }
    }

    proof fn lemma_parse_wire(&self, rest: Seq<u8>) {
        let prefix = VarInt(self@.len() as i64);
        let k = prefix.wire().len();
        let input = self.wire() + rest;
        prefix.lemma_parse_wire(wire_all(self@) + rest);
        assert(input =~= prefix.wire() + (wire_all(self@) + rest));
        assert(input.skip(k as int) =~= wire_all(self@) + rest);
        lemma_parse_all_wire(self@, rest);
    }

    fn serialize<O: MyAsyncWrite>(self, output: &mut O) {
        let size = self.len();
        let prefix = VarInt(size as i64);
        let ghost start = *output;
        let ghost items = self@;
        proof {
            start.lemma_room_for_less(self.wire().len(), prefix.wire().len());
        }
        prefix.serialize(output);
        proof {
            output.lemma_room_left(&start, prefix.wire(), wire_all(items).len());
            assert(items.take(0) =~= Seq::<T>::empty());
            assert(prefix.wire() + wire_all(items.take(0)) =~= prefix.wire());
        }
        let ghost mut i: int = 0;
        for item in iter: self
            invariant
                i == iter.index(),
                iter.seq() == items,
                0 <= i <= items.len(),
                forall|j: int| 0 <= j < items.len() ==> (#[trigger] items[j]).encodable(),
                output.holds_after(&start, prefix.wire() + wire_all(items.take(i))),
                start.has_room((prefix.wire() + wire_all(items)).len()),
        {
            let ghost before = *output;
            let ghost done = prefix.wire() + wire_all(items.take(i));
            proof {
                assert(item == items[i]);
                assert(items.take(i + 1).drop_last() =~= items.take(i));
                assert(items.take(i + 1).last() == item);
                lemma_wire_all_take(items, i + 1);
                before.lemma_room_left(
                    &start,
                    done,
                    ((prefix.wire() + wire_all(items)).len() - done.len()) as nat,
                );
                before.lemma_room_for_less(
                    ((prefix.wire() + wire_all(items)).len() - done.len()) as nat,
                    item.wire().len(),
                );
            }
            item.serialize(output);
            proof {
                output.lemma_holds_after_both(&start, &before, done, item.wire());
                assert(done + item.wire() =~= prefix.wire() + wire_all(items.take(i + 1)));
                i = i + 1;
            }
        }
        proof {
            assert(items.take(i) =~= items);
        }
    }

    fn deserialize<S: MyAsyncRead>(input: &mut S) -> (r: Result<Self, WireError>) {
        let ghost bytes = input.pending();
        let count = match VarInt::deserialize(input) {
            Ok(v) => v,
            Err(e) => {
                return Err(e);
            },
        };
        if count.0 < 0 {
            return Err(WireError::BadLength);
        }
        let ghost k = VarInt::parse(bytes)->Ok_0.1;
        let ghost body = bytes.skip(k as int);
        let mut data: Vec<T> = Vec::new();
        let mut i: i64 = 0;
        let ghost mut used: nat = 0;
        proof {
            assert(body.skip(0) =~= body);
            assert(values_of(data@) =~= Seq::<T::Value>::empty());
        }
        while i < count.0
            invariant
                0 <= i <= count.0,
                k <= bytes.len(),
                VarInt::parse(bytes) == Ok::<(VarInt, nat), WireError>((count, k)),
                bytes == old(input).pending(),
                body == bytes.skip(k as int),
                used <= body.len(),
                parse_all::<T>(body, i as nat) == Ok::<(Seq<T::Value>, nat), WireError>(
                    (values_of(data@), used),
                ),
                input.pending() == body.skip(used as int),
            decreases count.0 - i,
        {
            let item = match T::deserialize(input) {
                Ok(v) => v,
                Err(e) => {
                    proof {
                        assert(parse_all::<T>(body, (i + 1) as nat) == Err::<
                            (Seq<T::Value>, nat),
                            WireError,
                        >(e));
                        lemma_parse_all_fails::<T>(body, (i + 1) as nat, count.0 as nat);
                    }
                    return Err(e);
                },
            };
            proof {
                let n = T::parse(body.skip(used as int))->Ok_0.1;
                assert(body.skip(used as int).skip(n as int) =~= body.skip((used + n) as int));
                assert(values_of(data@.push(item)) =~= values_of(data@).push(item.value()));
                used = used + n;
            }
            data.push(item);
            i = i + 1;
        }
        proof {
            assert(bytes.skip(k as int).skip(used as int) =~= bytes.skip((k + used) as int));
        }
        Ok(data)
    }
}

/// The encodings of the first `n` items end with the encoding of item `n - 1`.
proof fn lemma_wire_all_take<T: DataType>(items: Seq<T>, n: int)
    requires
        0 < n <= items.len(),
    ensures
        wire_all(items.take(n)) == wire_all(items.take(n - 1)) + items[n - 1].wire(),
        wire_all(items.take(n)).len() <= wire_all(items).len(),
    decreases items.len() - n,
{
    assert(items.take(n).drop_last() =~= items.take(n - 1));
    if n < items.len() {
        lemma_wire_all_take(items, n + 1);
    } else {
        assert(items.take(n) =~= items);
    }
}

/// Where reading `short` values fails, reading more fails in the same way.
proof fn lemma_parse_all_fails<T: DataType>(input: Seq<u8>, short: nat, count: nat)
    requires
        short <= count,
        parse_all::<T>(input, short) is Err,
    ensures
        parse_all::<T>(input, count) == parse_all::<T>(input, short),
    decreases count,
{
    if short < count {
        lemma_parse_all_fails::<T>(input, short, (count - 1) as nat);
    }
}

/// Three variable-length integers in a row.
impl DataType for (VarInt, VarInt, VarInt) {
    type Value = (VarInt, VarInt, VarInt);

    open spec fn value(&self) -> (VarInt, VarInt, VarInt) {
        *self
    }

    open spec fn encodable(&self) -> bool {
        true
    }

    open spec fn wire(&self) -> Seq<u8> {
        self.0.wire() + self.1.wire() + self.2.wire()
    }

    open spec fn parse(input: Seq<u8>) -> Result<((VarInt, VarInt, VarInt), nat), WireError> {
        match VarInt::parse(input) {
            Ok((a, i)) => match VarInt::parse(input.skip(i as int)) {
                Ok((b, j)) => match VarInt::parse(input.skip((i + j) as int)) {
                    Ok((c, k)) => Ok(((a, b, c), i + j + k)),
                    Err(e) => Err(e),
                },
                Err(e) => Err(e),
            },
            Err(e) => Err(e),
        }
    }

    proof fn lemma_parse_wire(&self, rest: Seq<u8>) {
        let input = self.wire() + rest;
        let i = self.0.wire().len();
        let j = self.1.wire().len();
        self.0.lemma_parse_wire(self.1.wire() + self.2.wire() + rest);
        self.1.lemma_parse_wire(self.2.wire() + rest);
        self.2.lemma_parse_wire(rest);
        assert(input =~= self.0.wire() + (self.1.wire() + self.2.wire() + rest));
        assert(input.skip(i as int) =~= self.1.wire() + (self.2.wire() + rest));
        assert(input.skip((i + j) as int) =~= self.2.wire() + rest);
    }

    fn serialize<O: MyAsyncWrite>(self, output: &mut O) {
        let ghost start = *output;
        let ghost total = self.wire().len();
        proof {
            start.lemma_room_for_less(total, self.0.wire().len());
        }
        self.0.serialize(output);
        let ghost first = *output;
        proof {
            first.lemma_room_left(&start, self.0.wire(), (total - self.0.wire().len()) as nat);
            first.lemma_room_for_less(
                (total - self.0.wire().len()) as nat,
                self.1.wire().len(),
            );
        }
        self.1.serialize(output);
        let ghost second = *output;
        proof {
            second.lemma_holds_after_both(&start, &first, self.0.wire(), self.1.wire());
            second.lemma_room_left(
                &start,
                self.0.wire() + self.1.wire(),
                self.2.wire().len(),
            );
        }
        self.2.serialize(output);
        proof {
            output.lemma_holds_after_both(
                &start,
                &second,
                self.0.wire() + self.1.wire(),
                self.2.wire(),
            );
        }
    }

    fn deserialize<S: MyAsyncRead>(input: &mut S) -> (r: Result<Self, WireError>) {
        let ghost bytes = input.pending();
        let a = match VarInt::deserialize(input) {
            Ok(v) => v,
            Err(e) => {
                return Err(e);
            },
        };
        let ghost i = VarInt::parse(bytes)->Ok_0.1;
        let b = match VarInt::deserialize(input) {
            Ok(v) => v,
            Err(e) => {
                return Err(e);
            },
        };
        let ghost j = VarInt::parse(bytes.skip(i as int))->Ok_0.1;
        proof {
            assert(bytes.skip(i as int).skip(j as int) =~= bytes.skip((i + j) as int));
        }
        let c = match VarInt::deserialize(input) {
            Ok(v) => v,
            Err(e) => {
                return Err(e);
            },
        };
        proof {
            let k = VarInt::parse(bytes.skip((i + j) as int))->Ok_0.1;
            assert(bytes.skip((i + j) as int).skip(k as int) =~= bytes.skip((i + j + k) as int));
        }
        Ok((a, b, c))
    }
}

} // verus!
