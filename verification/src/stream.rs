//! The little-endian byte format that models are saved in, and in-memory
//! writers and readers for it.
use vstd::prelude::*;
use crate::helpers::Int3;

verus! {

/// The four little-endian bytes of `v`.
pub open spec fn le_bytes_u32(v: u32) -> Seq<u8> {
    seq![
        (v & 0xffu32) as u8,
        ((v >> 8u32) & 0xffu32) as u8,
        ((v >> 16u32) & 0xffu32) as u8,
        ((v >> 24u32) & 0xffu32) as u8,
    ]
}

/// The `u32` whose little-endian bytes are `b[0..4]`.
pub open spec fn u32_from_le(b: Seq<u8>) -> u32 {
    (b[0] as u32) | ((b[1] as u32) << 8u32) | ((b[2] as u32) << 16u32) | ((b[3] as u32) << 24u32)
}

/// The four little-endian bytes of the two's-complement `v`.
pub open spec fn le_bytes_i32(v: i32) -> Seq<u8> {
    le_bytes_u32(v as u32)
}

/// The `i32` whose little-endian two's-complement bytes are `b[0..4]`.
pub open spec fn i32_from_le(b: Seq<u8>) -> i32 {
    u32_from_le(b) as i32
}

/// The little-endian encoding of a sequence of `i32` values, one after another.
pub open spec fn le_bytes_i32_seq(vs: Seq<i32>) -> Seq<u8>
    decreases vs.len(),
{
    if vs.len() == 0 {
        Seq::empty()
    } else {
        le_bytes_i32_seq(vs.drop_last()) + le_bytes_i32(vs.last())
    }
}

/// The little-endian encoding of a sequence of `u32` values, one after another.
pub open spec fn le_bytes_u32_seq(vs: Seq<u32>) -> Seq<u8>
    decreases vs.len(),
{
    if vs.len() == 0 {
        Seq::empty()
    } else {
        le_bytes_u32_seq(vs.drop_last()) + le_bytes_u32(vs.last())
    }
}

/// The bytes of `i8` values, each taken as its two's-complement byte.
pub open spec fn i8_seq_bytes(vs: Seq<i8>) -> Seq<u8> {
    vs.map_values(|v: i8| v as u8)
}

/// The encoding of an [`Int3`]: its three coordinates as `i32`, in order x, y, z.
pub open spec fn le_bytes_int3(v: Int3) -> Seq<u8> {
    le_bytes_i32(v.x) + le_bytes_i32(v.y) + le_bytes_i32(v.z)
}

proof fn lemma_u32_bytes(v: u32)
    ensures
        u32_from_le(le_bytes_u32(v)) == v,
{
    let b0 = (v & 0xffu32) as u8;
    let b1 = ((v >> 8u32) & 0xffu32) as u8;
    let b2 = ((v >> 16u32) & 0xffu32) as u8;
    let b3 = ((v >> 24u32) & 0xffu32) as u8;
    assert((b0 as u32) | ((b1 as u32) << 8u32) | ((b2 as u32) << 16u32) | ((b3 as u32) << 24u32)
        == v) by (bit_vector)
        requires
            b0 == (v & 0xffu32) as u8,
            b1 == ((v >> 8u32) & 0xffu32) as u8,
            b2 == ((v >> 16u32) & 0xffu32) as u8,
            b3 == ((v >> 24u32) & 0xffu32) as u8,
    ;
}

/// Four bytes are the encoding of the `u32` they decode to.
pub proof fn lemma_u32_bytes_inverse(b: Seq<u8>)
    requires
        b.len() == 4,
    ensures
        le_bytes_u32(u32_from_le(b)) == b,
{
    let b0 = b[0];
    let b1 = b[1];
    let b2 = b[2];
    let b3 = b[3];
    let v = (b0 as u32) | ((b1 as u32) << 8u32) | ((b2 as u32) << 16u32) | ((b3 as u32) << 24u32);
    assert((v & 0xffu32) as u8 == b0 && ((v >> 8u32) & 0xffu32) as u8 == b1 && ((v >> 16u32) & 0xffu32) as u8
        == b2 && ((v >> 24u32) & 0xffu32) as u8 == b3) by (bit_vector)
        requires
            v == (b0 as u32) | ((b1 as u32) << 8u32) | ((b2 as u32) << 16u32) | ((b3 as u32) << 24u32),
    ;
    assert(le_bytes_u32(u32_from_le(b)) =~= b);
}

/// Decoding the encoding of a `u32` gives the value back.
pub proof fn lemma_u32_round_trip(v: u32)
    ensures
        u32_from_le(le_bytes_u32(v)) == v,
{
    lemma_u32_bytes(v);
}

/// Decoding the encoding of an `i32` gives the value back.
pub proof fn lemma_i32_round_trip(v: i32)
    ensures
        i32_from_le(le_bytes_i32(v)) == v,
{
    lemma_u32_bytes(v as u32);
    assert(((v as u32) as i32) == v) by (bit_vector);
}

/// Encode a `u32` as four little-endian bytes.
pub fn encode_u32(v: u32) -> (r: [u8; 4])
    ensures
        r@ == le_bytes_u32(v),
{
    let r = [
        (v & 0xff) as u8,
        ((v >> 8) & 0xff) as u8,
        ((v >> 16) & 0xff) as u8,
        ((v >> 24) & 0xff) as u8,
    ];
    assert(r@ =~= le_bytes_u32(v));
    r
}

/// Decode a `u32` from four little-endian bytes.
pub fn decode_u32(b: [u8; 4]) -> (r: u32)
    ensures
        r == u32_from_le(b@),
{
    (b[0] as u32) | ((b[1] as u32) << 8) | ((b[2] as u32) << 16) | ((b[3] as u32) << 24)
}

/// Encode an `i32` as four little-endian two's-complement bytes.
pub fn encode_i32(v: i32) -> (r: [u8; 4])
    ensures
        r@ == le_bytes_i32(v),
{
    encode_u32(v as u32)
}

/// Decode an `i32` from four little-endian two's-complement bytes.
pub fn decode_i32(b: [u8; 4]) -> (r: i32)
    ensures
        r == i32_from_le(b@),
{
    decode_u32(b) as i32
}

/// The encoding of a sequence of `i32` values takes four bytes per value, and
/// bytes `4i..4i+4` decode to value `i`.
pub proof fn lemma_i32_seq_round_trip(vs: Seq<i32>)
    ensures
        le_bytes_i32_seq(vs).len() == 4 * vs.len(),
        forall|i: int|
            0 <= i < vs.len() ==> #[trigger] i32_from_le(
                le_bytes_i32_seq(vs).subrange(4 * i, 4 * i + 4),
            ) == vs[i],
    decreases vs.len(),
{
    if vs.len() > 0 {
        let pre = vs.drop_last();
        lemma_i32_seq_round_trip(pre);
        let enc = le_bytes_i32_seq(vs);
        assert(enc == le_bytes_i32_seq(pre) + le_bytes_i32(vs.last()));
        assert forall|i: int| 0 <= i < vs.len() implies #[trigger] i32_from_le(
            enc.subrange(4 * i, 4 * i + 4),
        ) == vs[i] by {
            if i < pre.len() {
                assert(enc.subrange(4 * i, 4 * i + 4) =~= le_bytes_i32_seq(pre).subrange(
                    4 * i,
                    4 * i + 4,
                ));
                assert(pre[i] == vs[i]);
            } else {
                assert(enc.subrange(4 * i, 4 * i + 4) =~= le_bytes_i32(vs.last()));
                lemma_i32_round_trip(vs.last());
            }
        }
    }
}

/// Bytes whose groups of four decode to the values of `vs` are the encoding of `vs`.
pub proof fn lemma_i32_seq_from_bytes(vs: Seq<i32>, b: Seq<u8>)
    requires
        b.len() == 4 * vs.len(),
        forall|i: int| 0 <= i < vs.len() ==> #[trigger] vs[i] == i32_from_le(b.subrange(4 * i, 4 * i + 4)),
    ensures
        le_bytes_i32_seq(vs) == b,
    decreases vs.len(),
{
    if vs.len() > 0 {
        let n = vs.len() - 1;
        let pre = vs.drop_last();
        let bp = b.subrange(0, 4 * n);
        assert forall|i: int| 0 <= i < pre.len() implies #[trigger] pre[i] == i32_from_le(bp.subrange(4 * i, 4 * i + 4)) by {
            assert(bp.subrange(4 * i, 4 * i + 4) =~= b.subrange(4 * i, 4 * i + 4));
            assert(vs[i] == i32_from_le(b.subrange(4 * i, 4 * i + 4)));
        }
        lemma_i32_seq_from_bytes(pre, bp);
        let last = b.subrange(4 * n, 4 * n + 4);
        assert(vs[n] == i32_from_le(last));
        lemma_u32_bytes_inverse(last);
        let u = u32_from_le(last);
        assert(((u as i32) as u32) == u) by (bit_vector);
        assert(le_bytes_i32(vs.last()) == last);
        assert(b =~= bp + last);
    }
}

/// Bytes whose groups of four decode to the values of `vs` are the encoding of `vs`.
pub proof fn lemma_u32_seq_from_bytes(vs: Seq<u32>, b: Seq<u8>)
    requires
        b.len() == 4 * vs.len(),
        forall|i: int| 0 <= i < vs.len() ==> #[trigger] vs[i] == u32_from_le(b.subrange(4 * i, 4 * i + 4)),
    ensures
        le_bytes_u32_seq(vs) == b,
    decreases vs.len(),
{
    if vs.len() > 0 {
        let n = vs.len() - 1;
        let pre = vs.drop_last();
        let bp = b.subrange(0, 4 * n);
        assert forall|i: int| 0 <= i < pre.len() implies #[trigger] pre[i] == u32_from_le(bp.subrange(4 * i, 4 * i + 4)) by {
            assert(bp.subrange(4 * i, 4 * i + 4) =~= b.subrange(4 * i, 4 * i + 4));
            assert(vs[i] == u32_from_le(b.subrange(4 * i, 4 * i + 4)));
        }
        lemma_u32_seq_from_bytes(pre, bp);
        let last = b.subrange(4 * n, 4 * n + 4);
        lemma_u32_bytes_inverse(last);
        assert(b =~= bp + last);
    }
}

/// The encoding of a sequence of `u32` values takes four bytes per value, and
/// bytes `4i..4i+4` decode to value `i`.
pub proof fn lemma_u32_seq_round_trip(vs: Seq<u32>)
    ensures
        le_bytes_u32_seq(vs).len() == 4 * vs.len(),
        forall|i: int|
            0 <= i < vs.len() ==> #[trigger] u32_from_le(
                le_bytes_u32_seq(vs).subrange(4 * i, 4 * i + 4),
            ) == vs[i],
    decreases vs.len(),
{
    if vs.len() > 0 {
        let pre = vs.drop_last();
        lemma_u32_seq_round_trip(pre);
        let enc = le_bytes_u32_seq(vs);
        assert forall|i: int| 0 <= i < vs.len() implies #[trigger] u32_from_le(
            enc.subrange(4 * i, 4 * i + 4),
        ) == vs[i] by {
            if i < pre.len() {
                assert(enc.subrange(4 * i, 4 * i + 4) =~= le_bytes_u32_seq(pre).subrange(4 * i, 4 * i + 4));
                assert(pre[i] == vs[i]);
            } else {
                assert(enc.subrange(4 * i, 4 * i + 4) =~= le_bytes_u32(vs.last()));
                lemma_u32_bytes(vs.last());
            }
        }
    }
}

/// The encoding of two sequences one after the other is the encoding of
/// their concatenation.
pub proof fn lemma_i32_seq_concat(a: Seq<i32>, b: Seq<i32>)
    ensures
        le_bytes_i32_seq(a + b) == le_bytes_i32_seq(a) + le_bytes_i32_seq(b),
    decreases b.len(),
{
    if b.len() == 0 {
        assert(a + b =~= a);
        assert(le_bytes_i32_seq(a) + le_bytes_i32_seq(b) =~= le_bytes_i32_seq(a));
    } else {
        lemma_i32_seq_concat(a, b.drop_last());
        assert((a + b).drop_last() =~= a + b.drop_last());
        assert((a + b).last() == b.last());
        assert(le_bytes_i32_seq(a + b) =~= le_bytes_i32_seq(a) + le_bytes_i32_seq(b));
    }
}

/// A value written after any prefix is read back from the position where the
/// prefix ends, whatever follows it.
pub proof fn lemma_i32_read_after_write(prefix: Seq<u8>, v: i32, suffix: Seq<u8>)
    ensures
        i32_from_le(
            (prefix + le_bytes_i32(v) + suffix).subrange(prefix.len() as int, prefix.len() + 4int),
        ) == v,
{
    assert((prefix + le_bytes_i32(v) + suffix).subrange(prefix.len() as int, prefix.len() + 4int)
        =~= le_bytes_i32(v));
    lemma_i32_round_trip(v);
}

/// The bytes of a sequence of `i8` values are one per value, and each byte,
/// read back as an `i8`, is the value.
pub proof fn lemma_i8_seq_round_trip(vs: Seq<i8>)
    ensures
        i8_seq_bytes(vs).len() == vs.len(),
        forall|i: int| 0 <= i < vs.len() ==> (#[trigger] i8_seq_bytes(vs)[i]) as i8 == vs[i],
{
    assert forall|i: int| 0 <= i < vs.len() implies (#[trigger] i8_seq_bytes(vs)[i]) as i8
        == vs[i] by {
        let v = vs[i];
        assert((v as u8) as i8 == v) by (bit_vector);
    }
}

/// The encoding of an [`Int3`] takes twelve bytes, and its three groups of four
/// decode to x, y and z.
pub proof fn lemma_int3_round_trip(v: Int3)
    ensures
        le_bytes_int3(v).len() == 12,
        i32_from_le(le_bytes_int3(v).subrange(0, 4)) == v.x,
        i32_from_le(le_bytes_int3(v).subrange(4, 8)) == v.y,
        i32_from_le(le_bytes_int3(v).subrange(8, 12)) == v.z,
{
    let b = le_bytes_int3(v);
    assert(b.subrange(0, 4) =~= le_bytes_i32(v.x));
    assert(b.subrange(4, 8) =~= le_bytes_i32(v.y));
    assert(b.subrange(8, 12) =~= le_bytes_i32(v.z));
    lemma_i32_round_trip(v.x);
    lemma_i32_round_trip(v.y);
    lemma_i32_round_trip(v.z);
}

} // verus!
