//! The numeric meaning of fixed-width byte sequences.
//!
//! A sequence of bytes denotes a natural number under either byte order:
//! [`be_value`] treats the first byte as the most significant, [`le_value`]
//! as the least significant. A two's-complement reading of the same bits is
//! given by [`as_signed`]. The executable folds and sign conversions here
//! are proved against those spec functions; the lemmas state the laws that
//! relate them (round trips with the encodings [`be_bytes`] and
//! [`le_bytes`], byte-order reversal, and preservation of bit patterns).

use vstd::prelude::*;

verus! {

/// 256 raised to the power `n`: the number of distinct values of `n` bytes.
pub open spec fn pow256(n: nat) -> nat
    decreases n,
{
    if n == 0 {
        1
    } else {
        256 * pow256((n - 1) as nat)
    }
}

/// The big-endian value of a byte sequence: the first byte is the most
/// significant, so the last byte is the units digit in base 256.
pub open spec fn be_value(b: Seq<u8>) -> nat
    decreases b.len(),
{
    if b.len() == 0 {
        0
    } else {
        256 * be_value(b.drop_last()) + (b.last() as nat)
    }
}

/// The little-endian value of a byte sequence: the first byte is the least
/// significant, i.e. the units digit in base 256.
pub open spec fn le_value(b: Seq<u8>) -> nat
    decreases b.len(),
{
    if b.len() == 0 {
        0
    } else {
        (b[0] as nat) + 256 * le_value(b.skip(1))
    }
}

/// The two's-complement reading of a `w`-byte unsigned value `v`: values
/// with the top bit clear are unchanged, values with the top bit set wrap
/// down by `pow256(w)`.
pub open spec fn as_signed(v: nat, w: nat) -> int {
    if 2 * v < pow256(w) {
        v as int
    } else {
        v - pow256(w)
    }
}

/// The `w`-byte unsigned value whose bit pattern encodes the signed value
/// `v`: non-negative values are unchanged, negative ones wrap up by
/// `pow256(w)`.
pub open spec fn as_unsigned(v: int, w: nat) -> nat {
    if v >= 0 {
        v as nat
    } else {
        (v + pow256(w)) as nat
    }
}

/// The `w`-byte big-endian encoding of `v`: the inverse of [`be_value`] on
/// values below `pow256(w)`.
pub open spec fn be_bytes(v: nat, w: nat) -> Seq<u8>
    decreases w,
{
    if w == 0 {
        Seq::empty()
    } else {
        be_bytes(v / 256, (w - 1) as nat).push((v % 256) as u8)
    }
}

/// The `w`-byte little-endian encoding of `v`: the inverse of [`le_value`]
/// on values below `pow256(w)`.
pub open spec fn le_bytes(v: nat, w: nat) -> Seq<u8>
    decreases w,
{
    if w == 0 {
        Seq::empty()
    } else {
        seq![(v % 256) as u8] + le_bytes(v / 256, (w - 1) as nat)
    }
}

/// `pow256` grows with its argument.
pub proof fn lemma_pow256_increases(i: nat, j: nat)
    requires
        i <= j,
    ensures
        pow256(i) <= pow256(j),
    decreases j,
{
    if i < j {
        lemma_pow256_increases(i, (j - 1) as nat);
    }
}

/// A sequence of `n` bytes denotes a value below `pow256(n)` under the
/// big-endian reading.
pub proof fn lemma_be_value_bound(b: Seq<u8>)
    ensures
        be_value(b) < pow256(b.len()),
    decreases b.len(),
{
    if b.len() > 0 {
        lemma_be_value_bound(b.drop_last());
    }
}

/// A sequence of `n` bytes denotes a value below `pow256(n)` under the
/// little-endian reading.
pub proof fn lemma_le_value_bound(b: Seq<u8>)
    ensures
        le_value(b) < pow256(b.len()),
    decreases b.len(),
{
    if b.len() > 0 {
        lemma_le_value_bound(b.skip(1));
    }
}

/// Appending a byte to a big-endian sequence shifts the value up by one
/// base-256 digit and adds the new byte as the units digit.
pub proof fn lemma_be_value_push(b: Seq<u8>, x: u8)
    ensures
        be_value(b.push(x)) == 256 * be_value(b) + x,
{
    assert(b.push(x).drop_last() =~= b);
}

/// Every `w`-byte encoding is `w` bytes long.
pub proof fn lemma_be_bytes_len(v: nat, w: nat)
    ensures
        be_bytes(v, w).len() == w,
    decreases w,
{
    if w > 0 {
        lemma_be_bytes_len(v / 256, (w - 1) as nat);
    }
}

/// Every `w`-byte encoding is `w` bytes long.
pub proof fn lemma_le_bytes_len(v: nat, w: nat)
    ensures
        le_bytes(v, w).len() == w,
    decreases w,
{
    if w > 0 {
        lemma_le_bytes_len(v / 256, (w - 1) as nat);
    }
}

/// Round trip: decoding the `w`-byte big-endian encoding of any value that
/// fits in `w` bytes yields that value back.
pub proof fn lemma_be_round_trip(v: nat, w: nat)
    requires
        v < pow256(w),
    ensures
        be_value(be_bytes(v, w)) == v,
    decreases w,
{
    if w > 0 {
        assert(v / 256 < pow256((w - 1) as nat)) by (nonlinear_arith)
            requires v < pow256(w) && pow256(w) == 256 * pow256((w - 1) as nat);
        lemma_be_round_trip(v / 256, (w - 1) as nat);
        lemma_be_value_push(be_bytes(v / 256, (w - 1) as nat), (v % 256) as u8);
    }
}

/// Round trip: decoding the `w`-byte little-endian encoding of any value
/// that fits in `w` bytes yields that value back.
pub proof fn lemma_le_round_trip(v: nat, w: nat)
    requires
        v < pow256(w),
    ensures
        le_value(le_bytes(v, w)) == v,
    decreases w,
{
    if w > 0 {
        assert(v / 256 < pow256((w - 1) as nat)) by (nonlinear_arith)
            requires v < pow256(w) && pow256(w) == 256 * pow256((w - 1) as nat);
        lemma_le_round_trip(v / 256, (w - 1) as nat);
        let rest = le_bytes(v / 256, (w - 1) as nat);
        let b = seq![(v % 256) as u8] + rest;
        assert(b[0] == (v % 256) as u8);
        assert(b.skip(1) =~= rest);
    }
}

/// Byte-order law: the big-endian reading of a sequence equals the
/// little-endian reading of the reversed sequence, and vice versa.
pub proof fn lemma_endian_reverse(b: Seq<u8>)
    ensures
        be_value(b.reverse()) == le_value(b),
        le_value(b.reverse()) == be_value(b),
    decreases b.len(),
{
    if b.len() > 0 {
        lemma_endian_reverse(b.skip(1));
        lemma_endian_reverse(b.drop_last());
        assert(b.reverse().drop_last() =~= b.skip(1).reverse());
        assert(b.reverse().skip(1) =~= b.drop_last().reverse());
        assert(b.reverse().last() == b[0]);
        assert(b.reverse()[0] == b.last());
    }
}

/// Bit-pattern law: the two's-complement reading of a `w`-byte value keeps
/// the underlying bit pattern, so reading it back as unsigned recovers the
/// original value.
pub proof fn lemma_signed_bit_pattern(v: nat, w: nat)
    requires
        v < pow256(w),
    ensures
        as_unsigned(as_signed(v, w), w) == v,
{
}

/// Wrapping a signed value that fits in `w` bytes into its `w`-byte bit
/// pattern and reading it back as two's complement yields that value.
pub proof fn lemma_signed_unsigned_inverse(v: int, w: nat)
    requires
        -(pow256(w) as int) <= 2 * v < pow256(w) as int,
    ensures
        as_signed(as_unsigned(v, w), w) == v,
{
}

/// Round trip for signed big-endian decoding: encoding the bit pattern of
/// a signed value that fits in `w` bytes and decoding it as two's
/// complement yields that value back.
pub proof fn lemma_be_signed_round_trip(v: int, w: nat)
    requires
        -(pow256(w) as int) <= 2 * v < pow256(w) as int,
    ensures
        as_signed(be_value(be_bytes(as_unsigned(v, w), w)), w) == v,
{
    lemma_be_round_trip(as_unsigned(v, w), w);
    lemma_signed_unsigned_inverse(v, w);
}

/// Round trip for signed little-endian decoding: encoding the bit pattern
/// of a signed value that fits in `w` bytes and decoding it as two's
/// complement yields that value back.
pub proof fn lemma_le_signed_round_trip(v: int, w: nat)
    requires
        -(pow256(w) as int) <= 2 * v < pow256(w) as int,
    ensures
        as_signed(le_value(le_bytes(as_unsigned(v, w), w)), w) == v,
{
    lemma_le_round_trip(as_unsigned(v, w), w);
    lemma_signed_unsigned_inverse(v, w);
}

/// Folds a whole buffer of at most eight bytes into its big-endian value.
pub fn fold_be(buf: &Vec<u8>) -> (v: u64)
    requires
        buf@.len() <= 8,
    ensures
        v as nat == be_value(buf@),
{
    let mut v: u64 = 0;
    let mut i: usize = 0;
    proof {
        assert(buf@.take(0) =~= Seq::<u8>::empty());
    }
    while i < buf.len()
        invariant
            i <= buf@.len() <= 8,
            v as nat == be_value(buf@.take(i as int)),
        decreases buf@.len() - i,
    {
        proof {
            lemma_be_value_bound(buf@.take(i as int));
            lemma_pow256_increases(i as nat, 7);
            assert(pow256(7) == 0x100000000000000) by {
                reveal_with_fuel(pow256, 8);
            }
            lemma_be_value_push(buf@.take(i as int), buf@[i as int]);
            assert(buf@.take(i + 1) =~= buf@.take(i as int).push(buf@[i as int]));
        }
        v = v * 256 + (buf[i] as u64);
        i = i + 1;
    }
    proof {
        assert(buf@.take(buf@.len() as int) =~= buf@);
    }
    v
}

/// Folds a whole buffer of at most eight bytes into its little-endian
/// value, walking from the most significant (last) byte down.
pub fn fold_le(buf: &Vec<u8>) -> (v: u64)
    requires
        buf@.len() <= 8,
    ensures
        v as nat == le_value(buf@),
{
    let mut v: u64 = 0;
    let mut i: usize = buf.len();
    proof {
        assert(buf@.skip(buf@.len() as int) =~= Seq::<u8>::empty());
    }
    while i > 0
        invariant
            i <= buf@.len() <= 8,
            v as nat == le_value(buf@.skip(i as int)),
        decreases i,
    {
        proof {
            lemma_le_value_bound(buf@.skip(i as int));
            lemma_pow256_increases((buf@.len() - i) as nat, 7);
            assert(pow256(7) == 0x100000000000000) by {
                reveal_with_fuel(pow256, 8);
            }
            assert(buf@.skip(i - 1).skip(1) =~= buf@.skip(i as int));
        }
        i = i - 1;
        v = v * 256 + (buf[i] as u64);
    }
    proof {
        assert(buf@.skip(0) =~= buf@);
    }
    v
}

/// Reinterprets a one-byte value as two's complement.
pub fn to_i8(v: u64) -> (r: i8)
    requires
        v < 0x100,
    ensures
        r as int == as_signed(v as nat, 1),
{
    proof {
        assert(pow256(1) == 0x100) by {
            reveal_with_fuel(pow256, 2);
        }
    }
    if v < 0x80 {
        v as i8
    } else {
        -1i8 - ((0xFFu64 - v) as i8)
    }
}

/// Reinterprets a two-byte value as two's complement.
pub fn to_i16(v: u64) -> (r: i16)
    requires
        v < 0x10000,
    ensures
        r as int == as_signed(v as nat, 2),
{
    proof {
        assert(pow256(2) == 0x10000) by {
            reveal_with_fuel(pow256, 3);
        }
    }
    if v < 0x8000 {
        v as i16
    } else {
        -1i16 - ((0xFFFFu64 - v) as i16)
    }
}

/// Reinterprets a four-byte value as two's complement.
pub fn to_i32(v: u64) -> (r: i32)
    requires
        v < 0x100000000,
    ensures
        r as int == as_signed(v as nat, 4),
{
    proof {
        assert(pow256(4) == 0x100000000) by {
            reveal_with_fuel(pow256, 5);
        }
    }
    if v < 0x80000000 {
        v as i32
    } else {
        -1i32 - ((0xFFFFFFFFu64 - v) as i32)
    }
}

/// Reinterprets an eight-byte value as two's complement.
pub fn to_i64(v: u64) -> (r: i64)
    ensures
        r as int == as_signed(v as nat, 8),
{
    proof {
        assert(pow256(8) == 0x10000000000000000) by {
            reveal_with_fuel(pow256, 9);
        }
    }
    if v < 0x8000000000000000 {
        v as i64
    } else {
        -1i64 - ((0xFFFFFFFFFFFFFFFFu64 - v) as i64)
    }
}

} // verus!
