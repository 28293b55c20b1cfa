//! Big-endian fixed-width integers, and the two's complement reading that
//! carries signed values in them.
use vstd::prelude::*;

verus! {

/// 256 to the power `n`: the number of values that `n` bytes hold.
pub open spec fn byte_range(n: nat) -> nat
    decreases n,
{
    if n == 0 {
        1
    } else {
        256 * byte_range((n - 1) as nat)
    }
}

/// The `n` bytes of `v`, most significant first. Bits of `v` above the
/// `n`-th byte are dropped.
pub open spec fn be_bytes(v: nat, n: nat) -> Seq<u8>
    decreases n,
{
    if n == 0 {
        Seq::empty()
    } else {
        be_bytes(v / 256, (n - 1) as nat).push((v % 256) as u8)
    }
}

/// The number that a run of bytes denotes, most significant byte first.
pub open spec fn be_value(s: Seq<u8>) -> nat
    decreases s.len(),
{
    if s.len() == 0 {
        0
    } else {
        256 * be_value(s.drop_last()) + s.last() as nat
    }
}

/// The unsigned number with the same `n` bytes as the signed `x`.
pub open spec fn unsigned_of(x: int, n: nat) -> nat {
    if x >= 0 {
        x as nat
    } else {
        (x + byte_range(n)) as nat
    }
}

/// The signed number with the same `n` bytes as the unsigned `v`.
pub open spec fn signed_of(v: nat, n: nat) -> int {
    if 2 * v < byte_range(n) {
        v as int
    } else {
        v - byte_range(n)
    }
}

/// The ranges of one to eight bytes, and of sixteen.
pub proof fn lemma_byte_ranges()
    ensures
        byte_range(0) == 1,
        byte_range(1) == 0x100,
        byte_range(2) == 0x1_0000,
        byte_range(3) == 0x100_0000,
        byte_range(4) == 0x1_0000_0000,
        byte_range(5) == 0x100_0000_0000,
        byte_range(6) == 0x1_0000_0000_0000,
        byte_range(7) == 0x100_0000_0000_0000,
        byte_range(8) == 0x1_0000_0000_0000_0000,
{
    reveal_with_fuel(byte_range, 9);
}

/// The encoding has the length asked for.
pub proof fn lemma_be_bytes_len(v: nat, n: nat)
    ensures
        be_bytes(v, n).len() == n,
    decreases n,
{
    if n > 0 {
        lemma_be_bytes_len(v / 256, (n - 1) as nat);
    }
}

/// A run of `n` bytes denotes a number below 256 to the `n`.
pub proof fn lemma_be_value_bound(s: Seq<u8>)
    ensures
        be_value(s) < byte_range(s.len()),
    decreases s.len(),
{
    if s.len() > 0 {
        lemma_be_value_bound(s.drop_last());
    }
}

/// The bytes of a number that fits denote that number.
pub proof fn lemma_be_value_of_bytes(v: nat, n: nat)
    requires
        v < byte_range(n),
    ensures
        be_value(be_bytes(v, n)) == v,
    decreases n,
{
    if n > 0 {
        let shorter = be_bytes(v / 256, (n - 1) as nat);
        lemma_be_value_of_bytes(v / 256, (n - 1) as nat);
        assert(be_bytes(v, n).drop_last() =~= shorter);
    }
}

/// A run of bytes is the encoding of the number it denotes.
pub proof fn lemma_be_bytes_of_value(s: Seq<u8>)
    ensures
        be_bytes(be_value(s), s.len()) == s,
    decreases s.len(),
{
    if s.len() > 0 {
        lemma_be_bytes_of_value(s.drop_last());
        assert(be_bytes(be_value(s), s.len()) =~= s);
    }
}

/// The number that `bytes` denote.
pub fn be_decode(bytes: &[u8]) -> (r: u64)
    requires
        bytes@.len() <= 8,
    ensures
        r == be_value(bytes@),
{
    let mut acc: u64 = 0;
    let mut i: usize = 0;
    while i < bytes.len()
        invariant
            i <= bytes@.len() <= 8,
            acc == be_value(bytes@.take(i as int)),
        decreases bytes@.len() - i,
    {
        proof {
            lemma_be_value_bound(bytes@.take(i as int));
            lemma_be_value_bound(bytes@.take(i + 1));
            lemma_byte_ranges();
            reveal_with_fuel(byte_range, 9);
            assert(bytes@.take(i + 1).drop_last() =~= bytes@.take(i as int));
        }
        acc = acc * 256 + bytes[i] as u64;
        i = i + 1;
    }
    assert(bytes@.take(i as int) =~= bytes@);
    acc
}

/// Fills `output` with the bytes of `v`, most significant first.
pub fn be_encode(v: u64, output: &mut [u8])
    requires
        old(output)@.len() <= 8,
    ensures
        final(output)@ == be_bytes(v as nat, old(output)@.len()),
{
    let n = output.len();
    let mut rest: u64 = v;
    let mut i: usize = n;
    proof {
        lemma_be_bytes_len(v as nat, n as nat);
    }
    while i > 0
        invariant
            i <= n <= 8,
            output@.len() == n,
            be_bytes(v as nat, n as nat).len() == n,
            be_bytes(v as nat, n as nat).take(i as int) == be_bytes(rest as nat, i as nat),
            forall|k: int| i <= k < n ==> output@[k] == be_bytes(v as nat, n as nat)[k],
        decreases i,
    {
        let ghost whole = be_bytes(v as nat, n as nat);
        let ghost head = be_bytes(rest as nat, i as nat);
        proof {
            lemma_be_bytes_len(rest as nat, i as nat);
            lemma_be_bytes_len((rest / 256) as nat, (i - 1) as nat);
            assert(head.last() == (rest % 256) as u8);
            assert(whole[i - 1] == head[i - 1]);
            assert(whole.take(i - 1) =~= head.drop_last());
        }
        output[i - 1] = (rest % 256) as u8;
        rest = rest / 256;
        i = i - 1;
    }
    assert(output@ =~= be_bytes(v as nat, n as nat));
}

/// The unsigned reading of a signed byte.
pub fn i8_bits(x: i8) -> (r: u8)
    ensures
        r == unsigned_of(x as int, 1),
{
    proof {
        lemma_byte_ranges();
    }
    let r = #[verifier::truncate]
    (x as u8);
    assert(r == (if x >= 0 {
        x as int
    } else {
        x + 0x100
    })) by (bit_vector)
        requires
            r == x as u8,
    ;
    r
}

/// The signed reading of a byte.
pub fn i8_of_bits(v: u8) -> (r: i8)
    ensures
        r == signed_of(v as nat, 1),
{
    proof {
        lemma_byte_ranges();
    }
    let r = #[verifier::truncate]
    (v as i8);
    assert(r == (if v < 0x80 {
        v as int
    } else {
        v - 0x100
    })) by (bit_vector)
        requires
            r == v as i8,
    ;
    r
}

/// The unsigned reading of a signed 16-bit value.
pub fn i16_bits(x: i16) -> (r: u16)
    ensures
        r == unsigned_of(x as int, 2),
{
    proof {
        lemma_byte_ranges();
    }
    let r = #[verifier::truncate]
    (x as u16);
    assert(r == (if x >= 0 {
        x as int
    } else {
        x + 0x1_0000
    })) by (bit_vector)
        requires
            r == x as u16,
    ;
    r
}

/// The signed reading of a 16-bit value.
pub fn i16_of_bits(v: u16) -> (r: i16)
    ensures
        r == signed_of(v as nat, 2),
{
    proof {
        lemma_byte_ranges();
    }
    let r = #[verifier::truncate]
    (v as i16);
    assert(r == (if v < 0x8000 {
        v as int
    } else {
        v - 0x1_0000
    })) by (bit_vector)
        requires
            r == v as i16,
    ;
    r
}

/// The unsigned reading of a signed 32-bit value.
pub fn i32_bits(x: i32) -> (r: u32)
    ensures
        r == unsigned_of(x as int, 4),
{
    proof {
        lemma_byte_ranges();
    }
    let r = #[verifier::truncate]
    (x as u32);
    assert(r == (if x >= 0 {
        x as int
    } else {
        x + 0x1_0000_0000
    })) by (bit_vector)
        requires
            r == x as u32,
    ;
    r
}

/// The signed reading of a 32-bit value.
pub fn i32_of_bits(v: u32) -> (r: i32)
    ensures
        r == signed_of(v as nat, 4),
{
    proof {
        lemma_byte_ranges();
    }
    let r = #[verifier::truncate]
    (v as i32);
    assert(r == (if v < 0x8000_0000 {
        v as int
    } else {
        v - 0x1_0000_0000
    })) by (bit_vector)
        requires
            r == v as i32,
    ;
    r
}

/// The unsigned reading of a signed 64-bit value.
pub fn i64_bits(x: i64) -> (r: u64)
    ensures
        r == unsigned_of(x as int, 8),
{
    proof {
        lemma_byte_ranges();
    }
    let r = #[verifier::truncate]
    (x as u64);
    assert(r == (if x >= 0 {
        x as int
    } else {
        x + 0x1_0000_0000_0000_0000
    })) by (bit_vector)
        requires
            r == x as u64,
    ;
    r
}

/// The signed reading of a 64-bit value.
pub fn i64_of_bits(v: u64) -> (r: i64)
    ensures
        r == signed_of(v as nat, 8),
{
    proof {
        lemma_byte_ranges();
    }
    let r = #[verifier::truncate]
    (v as i64);
    assert(r == (if v < 0x8000_0000_0000_0000 {
        v as int
    } else {
        v - 0x1_0000_0000_0000_0000
    })) by (bit_vector)
        requires
            r == v as i64,
    ;
    r
}

} // verus!
