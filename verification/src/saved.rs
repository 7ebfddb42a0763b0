//! The saved-model format: what a saved encoder, decoder, actor and hierarchy
//! hold, their exact bytes, and a writer and a reader for them. Floating-point
//! values travel as the `u32` bit patterns of their `f32`s.
use vstd::prelude::*;
use crate::helpers::{Int3, SliceReader, VecWriter};
use crate::hierarchy::{
    check_header, check_magic, count_type, layer_plan_is, plan_hierarchy, topology_is, IoDesc, IoType,
    LayerDesc, Topology, SERIAL_MAGIC, SERIAL_VERSION,
};
use crate::stream::{
    i32_from_le, i8_seq_bytes, le_bytes_i32, le_bytes_i32_seq, le_bytes_int3, le_bytes_u32,
    le_bytes_u32_seq, lemma_i32_seq_from_bytes, lemma_i32_seq_round_trip,
    lemma_u32_bytes_inverse, lemma_u32_round_trip, lemma_u32_seq_from_bytes,
    lemma_u32_seq_round_trip, u32_from_le,
};

verus! {

/// Why saved bytes cannot be read.
#[derive(Clone, Copy, Debug, PartialEq, Eq, Structural)]
pub enum ReadError {
    /// The bytes do not start with the magic number; holds what they start with.
    BadMagic(u32),
    /// The layout version is not the supported one; holds it.
    UnsupportedVersion(u32),
    /// The bytes end before the record does.
    Truncated,
    /// A count or size read from the bytes describes no record: it is
    /// negative, or a length derived from it does not fit in memory.
    BadSize,
}

/// `b` stands in `d` from position `p` on.
pub open spec fn at(d: Seq<u8>, p: int, b: Seq<u8>) -> bool {
    &&& 0 <= p
    &&& p + b.len() <= d.len()
    &&& d.subrange(p, p + b.len()) == b
}

/// `a + b` stands at `p` exactly when `a` does and `b` follows it.
pub(crate) proof fn lemma_at_split(d: Seq<u8>, p: int, a: Seq<u8>, b: Seq<u8>)
    ensures
        at(d, p, a + b) <==> (at(d, p, a) && at(d, p + a.len(), b)),
{
    if at(d, p, a + b) {
        let s = d.subrange(p, p + a.len() + b.len());
        assert(s == a + b);
        assert(d.subrange(p, p + a.len()) =~= s.subrange(0, a.len() as int));
        assert(s.subrange(0, a.len() as int) =~= a);
        assert(d.subrange(p + a.len(), p + a.len() + b.len()) =~= s.subrange(
            a.len() as int,
            s.len() as int,
        ));
        assert(s.subrange(a.len() as int, s.len() as int) =~= b);
    }
    if at(d, p, a) && at(d, p + a.len(), b) {
        assert(d.subrange(p, p + (a + b).len()) =~= d.subrange(p, p + a.len()) + d.subrange(
            p + a.len(),
            p + a.len() + b.len(),
        ));
        assert(d.subrange(p, p + (a + b).len()) =~= a + b);
    }
}

/// The bytes left between the reader's position and the end of its data.
fn remaining(r: &SliceReader) -> (n: usize)
    ensures
        n == (if r.pos <= r.data@.len() { r.data@.len() - r.pos } else { 0 }),
{
    if r.pos <= r.data.len() {
        r.data.len() - r.pos
    } else {
        0
    }
}

pub(crate) fn get_u32(r: &mut SliceReader) -> (res: Result<u32, ReadError>)
    ensures
        final(r).data@ == old(r).data@,
        res matches Ok(v) ==> at(old(r).data@, old(r).pos as int, le_bytes_u32(v)) && final(r).pos
            == old(r).pos + 4,
        res matches Err(e) ==> e == ReadError::Truncated,
        forall|v: u32| #[trigger] at(old(r).data@, old(r).pos as int, le_bytes_u32(v)) ==> res == Ok::<
            u32,
            ReadError,
        >(v),
{
    if remaining(r) < 4 {
        return Err(ReadError::Truncated);
    }
    let ghost p = r.pos as int;
    let ghost d = r.data@;
    let v = r.read_u32();
    proof {
        let b = d.subrange(p, p + 4);
        lemma_u32_bytes_inverse(b);
        assert forall|w: u32| #[trigger] at(d, p, le_bytes_u32(w)) implies v == w by {
            lemma_u32_round_trip(w);
        }
    }
    Ok(v)
}

pub(crate) fn get_i32(r: &mut SliceReader) -> (res: Result<i32, ReadError>)
    ensures
        final(r).data@ == old(r).data@,
        res matches Ok(v) ==> at(old(r).data@, old(r).pos as int, le_bytes_i32(v)) && final(r).pos
            == old(r).pos + 4,
        res matches Err(e) ==> e == ReadError::Truncated,
        forall|v: i32| #[trigger] at(old(r).data@, old(r).pos as int, le_bytes_i32(v)) ==> res == Ok::<
            i32,
            ReadError,
        >(v),
{
    let ghost d = r.data@;
    let ghost p = r.pos as int;
    match get_u32(r) {
        Ok(u) => {
            let v = u as i32;
            proof {
                assert((v as u32) == u) by (bit_vector)
                    requires
                        v == u as i32,
                ;
                assert forall|w: i32| #[trigger] at(d, p, le_bytes_i32(w)) implies v == w by {
                    assert(at(d, p, le_bytes_u32(w as u32)));
                    assert(((w as u32) as i32) == w) by (bit_vector);
                }
            }
            Ok(v)
        },
        Err(e) => {
            proof {
                assert forall|w: i32| !#[trigger] at(d, p, le_bytes_i32(w)) by {
                    if at(d, p, le_bytes_i32(w)) {
                        assert(at(d, p, le_bytes_u32(w as u32)));
                    }
                }
            }
            Err(e)
        },
    }
}

pub(crate) fn get_u8(r: &mut SliceReader) -> (res: Result<u8, ReadError>)
    ensures
        final(r).data@ == old(r).data@,
        res matches Ok(v) ==> at(old(r).data@, old(r).pos as int, seq![v]) && final(r).pos == old(r).pos + 1,
        res matches Err(e) ==> e == ReadError::Truncated,
        forall|v: u8| #[trigger] at(old(r).data@, old(r).pos as int, seq![v]) ==> res == Ok::<
            u8,
            ReadError,
        >(v),
{
    if remaining(r) < 1 {
        return Err(ReadError::Truncated);
    }
    let ghost p = r.pos as int;
    let ghost d = r.data@;
    let v = r.read_u8();
    proof {
        assert(d.subrange(p, p + 1) =~= seq![v]);
        assert forall|w: u8| #[trigger] at(d, p, seq![w]) implies v == w by {
            assert(d.subrange(p, p + 1)[0] == w);
        }
    }
    Ok(v)
}

pub(crate) fn get_int3(r: &mut SliceReader) -> (res: Result<Int3, ReadError>)
    ensures
        final(r).data@ == old(r).data@,
        res matches Ok(v) ==> at(old(r).data@, old(r).pos as int, le_bytes_int3(v)) && final(r).pos
            == old(r).pos + 12,
        res matches Err(e) ==> e == ReadError::Truncated,
        forall|v: Int3| #[trigger] at(old(r).data@, old(r).pos as int, le_bytes_int3(v)) ==> res
            == Ok::<Int3, ReadError>(v),
{
    let ghost d = r.data@;
    let ghost p = r.pos as int;
    proof {
        assert forall|v: Int3| #[trigger] at(d, p, le_bytes_int3(v)) implies at(d, p, le_bytes_i32(v.x))
            && at(d, p + 4, le_bytes_i32(v.y)) && at(d, p + 8, le_bytes_i32(v.z)) by {
            lemma_at_split(d, p, le_bytes_i32(v.x) + le_bytes_i32(v.y), le_bytes_i32(v.z));
            lemma_at_split(d, p, le_bytes_i32(v.x), le_bytes_i32(v.y));
        }
    }
    let x = get_i32(r)?;
    let y = get_i32(r)?;
    let z = get_i32(r)?;
    let v = Int3::new(x, y, z);
    proof {
        lemma_at_split(d, p, le_bytes_i32(x), le_bytes_i32(y));
        lemma_at_split(d, p, le_bytes_i32(x) + le_bytes_i32(y), le_bytes_i32(z));
    }
    Ok(v)
}

pub(crate) fn get_i32s(r: &mut SliceReader, n: usize) -> (res: Result<Vec<i32>, ReadError>)
    ensures
        final(r).data@ == old(r).data@,
        res matches Ok(v) ==> v@.len() == n && at(old(r).data@, old(r).pos as int, le_bytes_i32_seq(v@))
            && final(r).pos == old(r).pos + 4 * n,
        res matches Err(e) ==> e == ReadError::Truncated,
        forall|vs: Seq<i32>|
            vs.len() == n && #[trigger] at(old(r).data@, old(r).pos as int, le_bytes_i32_seq(vs))
                ==> (res is Ok && res->Ok_0@ == vs),
{
    let ghost d = r.data@;
    let ghost p = r.pos as int;
    proof {
        assert forall|vs: Seq<i32>| vs.len() == n implies le_bytes_i32_seq(vs).len() == 4 * n by {
            lemma_i32_seq_round_trip(vs);
        }
    }
    let rem = remaining(r);
    if r.pos > r.data.len() || rem / 4 < n {
        return Err(ReadError::Truncated);
    }
    assert(4 * n <= rem) by (nonlinear_arith)
        requires
            n <= rem / 4,
    ;
    let v = r.read_i32_vec(n);
    proof {
        let b = d.subrange(p, p + 4 * n);
        assert forall|i: int| 0 <= i < v@.len() implies #[trigger] v@[i] == i32_from_le(
            b.subrange(4 * i, 4 * i + 4),
        ) by {
            assert(b.subrange(4 * i, 4 * i + 4) =~= d.subrange(p + 4 * i, p + 4 * i + 4));
        }
        lemma_i32_seq_from_bytes(v@, b);
        assert forall|vs: Seq<i32>|
            vs.len() == n && #[trigger] at(d, p, le_bytes_i32_seq(vs)) implies v@ == vs by {
            lemma_i32_seq_round_trip(vs);
            assert forall|i: int| 0 <= i < n implies v@[i] == vs[i] by {
                assert(b.subrange(4 * i, 4 * i + 4) =~= d.subrange(p + 4 * i, p + 4 * i + 4));
                assert(v@[i] == i32_from_le(b.subrange(4 * i, 4 * i + 4)));
            }
            assert(v@ =~= vs);
        }
    }
    Ok(v)
}

pub(crate) fn get_u32s(r: &mut SliceReader, n: usize) -> (res: Result<Vec<u32>, ReadError>)
    ensures
        final(r).data@ == old(r).data@,
        res matches Ok(v) ==> v@.len() == n && at(old(r).data@, old(r).pos as int, le_bytes_u32_seq(v@))
            && final(r).pos == old(r).pos + 4 * n,
        res matches Err(e) ==> e == ReadError::Truncated,
        forall|vs: Seq<u32>|
            vs.len() == n && #[trigger] at(old(r).data@, old(r).pos as int, le_bytes_u32_seq(vs))
                ==> (res is Ok && res->Ok_0@ == vs),
{
    let ghost d = r.data@;
    let ghost p = r.pos as int;
    proof {
        assert forall|vs: Seq<u32>| vs.len() == n implies le_bytes_u32_seq(vs).len() == 4 * n by {
            lemma_u32_seq_round_trip(vs);
        }
    }
    let rem = remaining(r);
    if r.pos > r.data.len() || rem / 4 < n {
        return Err(ReadError::Truncated);
    }
    assert(4 * n <= rem) by (nonlinear_arith)
        requires
            n <= rem / 4,
    ;
    let mut v: Vec<u32> = Vec::new();
    let mut i: usize = 0;
    while i < n
        invariant
            d == r.data@,
            p + 4 * n <= d.len(),
            0 <= p,
            i <= n,
            r.pos == p + 4 * i,
            v@.len() == i,
            forall|k: int|
                0 <= k < i ==> #[trigger] v@[k] == u32_from_le(d.subrange(p + 4 * k, p + 4 * k + 4)),
        decreases n - i,
    {
        let w = r.read_u32();
        v.push(w);
        i = i + 1;
    }
    proof {
        let b = d.subrange(p, p + 4 * n);
        assert forall|k: int| 0 <= k < v@.len() implies #[trigger] v@[k] == u32_from_le(
            b.subrange(4 * k, 4 * k + 4),
        ) by {
            assert(b.subrange(4 * k, 4 * k + 4) =~= d.subrange(p + 4 * k, p + 4 * k + 4));
        }
        lemma_u32_seq_from_bytes(v@, b);
        assert forall|vs: Seq<u32>|
            vs.len() == n && #[trigger] at(d, p, le_bytes_u32_seq(vs)) implies v@ == vs by {
            lemma_u32_seq_round_trip(vs);
            assert forall|k: int| 0 <= k < n implies v@[k] == vs[k] by {
                assert(b.subrange(4 * k, 4 * k + 4) =~= d.subrange(p + 4 * k, p + 4 * k + 4));
                assert(v@[k] == u32_from_le(b.subrange(4 * k, 4 * k + 4)));
            }
            assert(v@ =~= vs);
        }
    }
    Ok(v)
}

pub(crate) fn get_u8s(r: &mut SliceReader, n: usize) -> (res: Result<Vec<u8>, ReadError>)
    ensures
        final(r).data@ == old(r).data@,
        res matches Ok(v) ==> v@.len() == n && at(old(r).data@, old(r).pos as int, v@) && final(r).pos == old(r).pos + n,
        res matches Err(e) ==> e == ReadError::Truncated,
        forall|vs: Seq<u8>|
            vs.len() == n && #[trigger] at(old(r).data@, old(r).pos as int, vs) ==> (res is Ok && res->Ok_0@ == vs),
{
    if r.pos > r.data.len() || remaining(r) < n {
        return Err(ReadError::Truncated);
    }
    let v = r.read_bytes(n);
    Ok(v)
}

pub(crate) fn get_i8s(r: &mut SliceReader, n: usize) -> (res: Result<Vec<i8>, ReadError>)
    ensures
        final(r).data@ == old(r).data@,
        res matches Ok(v) ==> v@.len() == n && at(old(r).data@, old(r).pos as int, i8_seq_bytes(v@))
            && final(r).pos == old(r).pos + n,
        res matches Err(e) ==> e == ReadError::Truncated,
        forall|vs: Seq<i8>|
            vs.len() == n && #[trigger] at(old(r).data@, old(r).pos as int, i8_seq_bytes(vs))
                ==> (res is Ok && res->Ok_0@ == vs),
{
    let ghost d = r.data@;
    let ghost p = r.pos as int;
    if r.pos > r.data.len() || remaining(r) < n {
        return Err(ReadError::Truncated);
    }
    let v = r.read_i8_vec(n);
    proof {
        assert forall|k: int| 0 <= k < n implies #[trigger] i8_seq_bytes(v@)[k] == d.subrange(p, p + n)[k] by {
            let b = d[p + k];
            assert(((b as i8) as u8) == b) by (bit_vector);
        }
        assert(i8_seq_bytes(v@) =~= d.subrange(p, p + n));
        assert forall|vs: Seq<i8>|
            vs.len() == n && #[trigger] at(d, p, i8_seq_bytes(vs)) implies v@ == vs by {
            assert forall|k: int| 0 <= k < n implies v@[k] == vs[k] by {
                let w = vs[k];
                assert(d.subrange(p, p + n)[k] == i8_seq_bytes(vs)[k]);
                assert(((w as u8) as i8) == w) by (bit_vector);
            }
            assert(v@ =~= vs);
        }
    }
    Ok(v)
}

// --- Lengths ---

/// Number of columns of a layer of size `s`.
pub open spec fn cols(s: Int3) -> int {
    s.x * s.y
}

/// Number of cells of a layer of size `s`.
pub open spec fn cells(s: Int3) -> int {
    cols(s) * s.z
}

/// Number of positions in a square field of the given radius.
pub open spec fn area(radius: i32) -> int {
    (2 * radius + 1) * (2 * radius + 1)
}

/// Length of the weights of `n` weight owners over a visible layer of `z`
/// cells per column seen through a field of radius `radius`.
pub open spec fn weights_len(n: int, radius: i32, z: i32) -> int {
    n * area(radius) * z
}

/// `a * b` as a length, if it is one.
fn mul_len(a: usize, b: i64) -> (r: Option<usize>)
    ensures
        r == (if 0 <= a * b <= usize::MAX { Some((a * b) as usize) } else { None::<usize> }),
{
    if a == 0 {
        return Some(0);
    }
    if b < 0 {
        assert(a * b < 0) by (nonlinear_arith)
            requires
                a > 0,
                b < 0,
        ;
        return None;
    }
    if b as u64 > usize::MAX as u64 {
        assert(a * b > usize::MAX) by (nonlinear_arith)
            requires
                a >= 1,
                b > usize::MAX,
        ;
        return None;
    }
    a.checked_mul(b as usize)
}

fn cols_len(s: Int3) -> (r: Option<usize>)
    ensures
        r == (if 0 <= cols(s) <= usize::MAX { Some(cols(s) as usize) } else { None::<usize> }),
{
    let x: i64 = s.x as i64;
    let y: i64 = s.y as i64;
    assert(-0x4000_0000_0000_0000 <= x * y <= 0x4000_0000_0000_0000) by (nonlinear_arith)
        requires
            -0x8000_0000 <= x <= 0x8000_0000,
            -0x8000_0000 <= y <= 0x8000_0000,
    ;
    let p: i64 = x * y;
    mul_len(1, p)
}

fn cells_len(s: Int3) -> (r: Option<usize>)
    ensures
        r matches Some(n) ==> n == cells(s),
        0 <= cols(s) <= usize::MAX && 0 <= cells(s) <= usize::MAX ==> r is Some,
{
    match cols_len(s) {
        Some(c) => mul_len(c, s.z as i64),
        None => None,
    }
}

fn field_weights_len(n: usize, radius: i32, z: i32) -> (r: Option<usize>)
    ensures
        r == (if 0 <= weights_len(n as int, radius, z) <= usize::MAX {
            Some(weights_len(n as int, radius, z) as usize)
        } else {
            None::<usize>
        }),
{
    let d: i64 = 2 * radius as i64 + 1;
    let ad: i64 = if d < 0 { -d } else { d };
    let ghost total = weights_len(n as int, radius, z);
    assert(total == n * z * ad * ad) by (nonlinear_arith)
        requires
            total == n * ((2 * radius + 1) * (2 * radius + 1)) * z,
            d == 2 * radius + 1,
            ad == (if d < 0 { -d } else { d as int }),
    ;
    assert(ad >= 1);
    match mul_len(n, z as i64) {
        None => {
            assert(!(0 <= total <= usize::MAX)) by (nonlinear_arith)
                requires
                    total == n * z * ad * ad,
                    ad >= 1,
                    n >= 0,
                    !(0 <= n * z <= usize::MAX),
            ;
            None
        },
        Some(t1) => match mul_len(t1, ad) {
            None => {
                assert(!(0 <= total <= usize::MAX)) by (nonlinear_arith)
                    requires
                        total == t1 * ad * ad,
                        ad >= 1,
                        t1 >= 0,
                        !(0 <= t1 * ad <= usize::MAX),
                ;
                None
            },
            Some(t2) => {
                assert(total == t2 * ad) by (nonlinear_arith)
                    requires
                        total == n * z * ad * ad,
                        t1 == n * z,
                        t2 == t1 * ad,
                ;
                mul_len(t2, ad)
            },
        },
    }
}

// --- Lists of records ---

/// The bytes of each element of `s` under `f`, one after another.
pub open spec fn concat_map<T>(s: Seq<T>, f: spec_fn(T) -> Seq<u8>) -> Seq<u8>
    decreases s.len(),
{
    if s.len() == 0 {
        Seq::empty()
    } else {
        concat_map(s.drop_last(), f) + f(s.last())
    }
}

pub(crate) proof fn lemma_concat_map_prefix<T>(s: Seq<T>, f: spec_fn(T) -> Seq<u8>, j: int)
    requires
        0 <= j <= s.len(),
    ensures
        concat_map(s, f) == concat_map(s.take(j), f) + concat_map(s.skip(j), f),
    decreases s.len(),
{
    if j == s.len() {
        assert(s.take(j) =~= s);
        assert(s.skip(j) =~= Seq::<T>::empty());
        assert(concat_map(s, f) =~= concat_map(s.take(j), f) + concat_map(s.skip(j), f));
    } else {
        lemma_concat_map_prefix(s.drop_last(), f, j);
        assert(s.drop_last().take(j) =~= s.take(j));
        assert(s.skip(j).drop_last() =~= s.drop_last().skip(j));
        assert(s.skip(j).last() == s.last());
        assert(concat_map(s, f) =~= concat_map(s.take(j), f) + concat_map(s.skip(j), f));
    }
}

pub(crate) proof fn lemma_concat_map_step<T>(s: Seq<T>, f: spec_fn(T) -> Seq<u8>, j: int)
    requires
        0 <= j < s.len(),
    ensures
        concat_map(s.take(j + 1), f) == concat_map(s.take(j), f) + f(s[j]),
{
    assert(s.take(j + 1).drop_last() =~= s.take(j));
}

/// If `concat_map(s, f)` stands at `p`, so does the part of it for the first
/// `j` elements, and element `j` follows it.
pub(crate) proof fn lemma_concat_map_at<T>(d: Seq<u8>, p: int, s: Seq<T>, f: spec_fn(T) -> Seq<u8>, j: int)
    requires
        0 <= j < s.len(),
        at(d, p, concat_map(s, f)),
    ensures
        at(d, p, concat_map(s.take(j), f)),
        at(d, p + concat_map(s.take(j), f).len(), f(s[j])),
{
    lemma_concat_map_prefix(s, f, j + 1);
    lemma_at_split(d, p, concat_map(s.take(j + 1), f), concat_map(s.skip(j + 1), f));
    lemma_concat_map_step(s, f, j);
    lemma_at_split(d, p, concat_map(s.take(j), f), f(s[j]));
}

// --- Encoder ---

/// What a saved encoder holds for one of its visible layers.
#[derive(Clone, Debug)]
pub struct SavedEncoderLayer {
    /// Size of the visible layer.
    pub size: Int3,
    /// Field radius.
    pub radius: i32,
    /// Byte weights.
    pub weights: Vec<u8>,
    /// Per-cell weight totals.
    pub totals: Vec<i32>,
    /// Bit pattern of the layer's importance.
    pub importance: u32,
}

/// The contents of a [`SavedEncoderLayer`].
pub struct EncoderLayerModel {
    pub size: Int3,
    pub radius: i32,
    pub weights: Seq<u8>,
    pub totals: Seq<i32>,
    pub importance: u32,
}

impl View for SavedEncoderLayer {
    type V = EncoderLayerModel;

    open spec fn view(&self) -> EncoderLayerModel {
        EncoderLayerModel {
            size: self.size,
            radius: self.radius,
            weights: self.weights@,
            totals: self.totals@,
            importance: self.importance,
        }
    }
}

/// The bytes of one encoder layer: size, radius, weights, totals, importance.
pub open spec fn encoder_layer_bytes(m: EncoderLayerModel) -> Seq<u8> {
    le_bytes_int3(m.size) + le_bytes_i32(m.radius) + m.weights + le_bytes_i32_seq(m.totals)
        + le_bytes_u32(m.importance)
}

/// The lengths of `m` are those an encoder of `cells` hidden cells gives it.
pub open spec fn encoder_layer_wf(m: EncoderLayerModel, cells: int) -> bool {
    &&& m.weights.len() == weights_len(cells, m.radius, m.size.z)
    &&& m.totals.len() == cells
}

/// A well-formed encoder layer stands in `d` at `p`.
pub open spec fn encoder_layer_at(d: Seq<u8>, p: int, m: EncoderLayerModel, cells: int) -> bool {
    encoder_layer_wf(m, cells) && at(d, p, encoder_layer_bytes(m))
}

proof fn lemma_encoder_layer_parts(d: Seq<u8>, p: int, m: EncoderLayerModel)
    ensures
        le_bytes_int3(m.size).len() == 12,
        le_bytes_i32_seq(m.totals).len() == 4 * m.totals.len(),
        at(d, p, encoder_layer_bytes(m)) <==> {
            &&& at(d, p, le_bytes_int3(m.size))
            &&& at(d, p + 12, le_bytes_i32(m.radius))
            &&& at(d, p + 16, m.weights)
            &&& at(d, p + 16 + m.weights.len(), le_bytes_i32_seq(m.totals))
            &&& at(d, p + 16 + m.weights.len() + 4 * m.totals.len(), le_bytes_u32(m.importance))
        },
{
    lemma_i32_seq_round_trip(m.totals);
    let a = le_bytes_int3(m.size);
    let b = le_bytes_i32(m.radius);
    let c = m.weights;
    let e = le_bytes_i32_seq(m.totals);
    let g = le_bytes_u32(m.importance);
    lemma_at_split(d, p, a + b + c + e, g);
    lemma_at_split(d, p, a + b + c, e);
    lemma_at_split(d, p, a + b, c);
    lemma_at_split(d, p, a, b);
}

/// Write one encoder layer.
pub fn encode_encoder_layer(l: &SavedEncoderLayer, w: &mut VecWriter)
    ensures
        final(w).data@ == old(w).data@ + encoder_layer_bytes(l@),
{
    w.write_int3(l.size);
    w.write_i32(l.radius);
    w.write_u8_slice(&l.weights);
    w.write_i32_slice(&l.totals);
    w.write_u32(l.importance);
    assert(w.data@ =~= old(w).data@ + encoder_layer_bytes(l@));
}

/// Read one encoder layer of an encoder with `cells` hidden cells.
pub fn decode_encoder_layer(r: &mut SliceReader, cells: usize) -> (res: Result<SavedEncoderLayer, ReadError>)
    ensures
        res is Err ==> (res == Err::<SavedEncoderLayer, ReadError>(ReadError::Truncated) || res == Err::<SavedEncoderLayer, ReadError>(ReadError::BadSize)),
        final(r).data@ == old(r).data@,
        res matches Ok(v) ==> encoder_layer_at(old(r).data@, old(r).pos as int, v@, cells as int)
            && final(r).pos == old(r).pos + encoder_layer_bytes(v@).len(),
        forall|m: EncoderLayerModel| #[trigger]
            encoder_layer_at(old(r).data@, old(r).pos as int, m, cells as int) ==> (res is Ok
                && res->Ok_0@ == m),
{
    let ghost d = r.data@;
    let ghost p = r.pos as int;
    proof {
        assert forall|m: EncoderLayerModel| #[trigger] encoder_layer_at(d, p, m, cells as int) implies at(
            d,
            p,
            le_bytes_int3(m.size),
        ) by {
            lemma_encoder_layer_parts(d, p, m);
        }
    }
    let dl = r.data.len();
    let size = get_int3(r)?;
    proof {
        assert forall|m: EncoderLayerModel| #[trigger] encoder_layer_at(d, p, m, cells as int) implies m.size
            == size && at(d, p + 12, le_bytes_i32(m.radius)) by {
            lemma_encoder_layer_parts(d, p, m);
        }
    }
    let radius = get_i32(r)?;
    proof {
        assert forall|m: EncoderLayerModel| #[trigger] encoder_layer_at(d, p, m, cells as int) implies m.size
            == size && m.radius == radius && at(d, p + 16, m.weights) by {
            lemma_encoder_layer_parts(d, p, m);
        }
    }
    let n = match field_weights_len(cells, radius, size.z) {
        Some(n) => n,
        None => {
            proof {
                assert forall|m: EncoderLayerModel| !#[trigger] encoder_layer_at(d, p, m, cells as int) by {
                    if encoder_layer_at(d, p, m, cells as int) {
                        assert(m.weights.len() <= dl);
                    }
                }
            }
            return Err(ReadError::BadSize);
        },
    };
    let weights = get_u8s(r, n)?;
    proof {
        assert forall|m: EncoderLayerModel| #[trigger] encoder_layer_at(d, p, m, cells as int) implies m.weights
            == weights@ && at(d, p + 16 + n, le_bytes_i32_seq(m.totals)) by {
            lemma_encoder_layer_parts(d, p, m);
        }
    }
    let totals = get_i32s(r, cells)?;
    proof {
        assert forall|m: EncoderLayerModel| #[trigger] encoder_layer_at(d, p, m, cells as int) implies m.totals
            == totals@ && at(d, p + 16 + n + 4 * cells, le_bytes_u32(m.importance)) by {
            lemma_encoder_layer_parts(d, p, m);
        }
    }
    let importance = get_u32(r)?;
    let v = SavedEncoderLayer { size, radius, weights, totals, importance };
    proof {
        lemma_encoder_layer_parts(d, p, v@);
    }
    Ok(v)
}

/// What a saved encoder holds.
#[derive(Clone, Debug)]
pub struct SavedEncoder {
    /// Size of the hidden layer.
    pub hidden_size: Int3,
    /// Hidden column states.
    pub hidden_cis: Vec<i32>,
    /// Per-cell committed flags.
    pub committed: Vec<u8>,
    /// The visible layers.
    pub layers: Vec<SavedEncoderLayer>,
}

/// The contents of a [`SavedEncoder`].
pub struct EncoderModel {
    pub hidden_size: Int3,
    pub hidden_cis: Seq<i32>,
    pub committed: Seq<u8>,
    pub layers: Seq<EncoderLayerModel>,
}

impl View for SavedEncoder {
    type V = EncoderModel;

    open spec fn view(&self) -> EncoderModel {
        EncoderModel {
            hidden_size: self.hidden_size,
            hidden_cis: self.hidden_cis@,
            committed: self.committed@,
            layers: self.layers@.map_values(|l: SavedEncoderLayer| l@),
        }
    }
}

/// [`encoder_layer_bytes`] as a function value.
pub open spec fn encoder_layer_bytes_fn() -> spec_fn(EncoderLayerModel) -> Seq<u8> {
    |l: EncoderLayerModel| encoder_layer_bytes(l)
}

/// The bytes of an encoder: hidden size, hidden states, committed flags, the
/// number of visible layers, and each visible layer.
pub open spec fn encoder_bytes(m: EncoderModel) -> Seq<u8> {
    le_bytes_int3(m.hidden_size) + le_bytes_i32_seq(m.hidden_cis) + m.committed + le_bytes_i32(
        m.layers.len() as i32,
    ) + concat_map(m.layers, encoder_layer_bytes_fn())
}

/// The lengths and counts of `m` agree with its hidden size.
pub open spec fn encoder_wf(m: EncoderModel) -> bool {
    &&& m.hidden_cis.len() == cols(m.hidden_size)
    &&& m.committed.len() == cells(m.hidden_size)
    &&& m.layers.len() <= i32::MAX
    &&& forall|i: int| 0 <= i < m.layers.len() ==> encoder_layer_wf(#[trigger] m.layers[i], cells(m.hidden_size))
}

/// A well-formed encoder stands in `d` at `p`.
pub open spec fn encoder_at(d: Seq<u8>, p: int, m: EncoderModel) -> bool {
    encoder_wf(m) && at(d, p, encoder_bytes(m))
}

proof fn lemma_encoder_parts(d: Seq<u8>, p: int, m: EncoderModel)
    ensures
        at(d, p, encoder_bytes(m)) <==> {
            &&& at(d, p, le_bytes_int3(m.hidden_size))
            &&& at(d, p + 12, le_bytes_i32_seq(m.hidden_cis))
            &&& at(d, p + 12 + 4 * m.hidden_cis.len(), m.committed)
            &&& at(d, p + 12 + 4 * m.hidden_cis.len() + m.committed.len(), le_bytes_i32(m.layers.len() as i32))
            &&& at(
                d,
                p + 16 + 4 * m.hidden_cis.len() + m.committed.len(),
                concat_map(m.layers, encoder_layer_bytes_fn()),
            )
        },
{
    lemma_i32_seq_round_trip(m.hidden_cis);
    let a = le_bytes_int3(m.hidden_size);
    let b = le_bytes_i32_seq(m.hidden_cis);
    let c = m.committed;
    let e = le_bytes_i32(m.layers.len() as i32);
    let g = concat_map(m.layers, encoder_layer_bytes_fn());
    lemma_at_split(d, p, a + b + c + e, g);
    lemma_at_split(d, p, a + b + c, e);
    lemma_at_split(d, p, a + b, c);
    lemma_at_split(d, p, a, b);
}

/// Write an encoder.
pub fn encode_encoder(e: &SavedEncoder, w: &mut VecWriter)
    requires
        e.layers@.len() <= i32::MAX,
    ensures
        final(w).data@ == old(w).data@ + encoder_bytes(e@),
{
    w.write_int3(e.hidden_size);
    w.write_i32_slice(&e.hidden_cis);
    w.write_u8_slice(&e.committed);
    w.write_i32(e.layers.len() as i32);
    let ghost base = w.data@;
    let ghost ls = e@.layers;
    let mut i: usize = 0;
    while i < e.layers.len()
        invariant
            i <= e.layers@.len(),
            ls == e@.layers,
            ls.len() == e.layers@.len(),
            w.data@ == base + concat_map(ls.take(i as int), encoder_layer_bytes_fn()),
        decreases e.layers@.len() - i,
    {
        encode_encoder_layer(&e.layers[i], w);
        proof {
            lemma_concat_map_step(ls, encoder_layer_bytes_fn(), i as int);
        }
        i = i + 1;
        assert(w.data@ =~= base + concat_map(ls.take(i as int), encoder_layer_bytes_fn()));
    }
    assert(ls.take(i as int) =~= ls);
    assert(w.data@ =~= old(w).data@ + encoder_bytes(e@));
}

/// `ms` are well-formed layers of an encoder of `cells` hidden cells and stand,
/// one after another, in `d` at `p`.
pub open spec fn encoder_layers_at(d: Seq<u8>, p: int, ms: Seq<EncoderLayerModel>, cells: int) -> bool {
    &&& forall|i: int| 0 <= i < ms.len() ==> encoder_layer_wf(#[trigger] ms[i], cells)
    &&& at(d, p, concat_map(ms, encoder_layer_bytes_fn()))
}

fn decode_encoder_layers(r: &mut SliceReader, count: usize, cells: usize) -> (res: Result<Vec<SavedEncoderLayer>, ReadError>)
    ensures
        res is Err ==> (res == Err::<Vec<SavedEncoderLayer>, ReadError>(ReadError::Truncated) || res == Err::<Vec<SavedEncoderLayer>, ReadError>(ReadError::BadSize)),
        final(r).data@ == old(r).data@,
        res matches Ok(v) ==> v@.len() == count && encoder_layers_at(
            old(r).data@,
            old(r).pos as int,
            v@.map_values(|l: SavedEncoderLayer| l@),
            cells as int,
        ) && final(r).pos == old(r).pos + concat_map(
            v@.map_values(|l: SavedEncoderLayer| l@),
            encoder_layer_bytes_fn(),
        ).len(),
        forall|ms: Seq<EncoderLayerModel>|
            ms.len() == count && #[trigger] encoder_layers_at(old(r).data@, old(r).pos as int, ms, cells as int)
                ==> (res is Ok && res->Ok_0@.map_values(|l: SavedEncoderLayer| l@) == ms),
{
    let ghost d = r.data@;
    let ghost p = r.pos as int;
    let ghost f = encoder_layer_bytes_fn();
    let mut layers: Vec<SavedEncoderLayer> = Vec::new();
    if r.pos > r.data.len() {
        return Err(ReadError::Truncated);
    }
    proof {
        assert(layers@.map_values(|l: SavedEncoderLayer| l@) =~= Seq::<EncoderLayerModel>::empty());
        assert(d.subrange(p, p) =~= Seq::<u8>::empty());
    }
    let mut i: usize = 0;
    while i < count
        invariant
            d == old(r).data@,
            p == old(r).pos,
            r.data@ == d,
            f == encoder_layer_bytes_fn(),
            i <= count,
            layers@.len() == i,
            at(d, p, concat_map(layers@.map_values(|l: SavedEncoderLayer| l@), f)),
            r.pos == p + concat_map(layers@.map_values(|l: SavedEncoderLayer| l@), f).len(),
            forall|k: int| 0 <= k < i ==> encoder_layer_wf(#[trigger] layers@[k]@, cells as int),
            forall|ms: Seq<EncoderLayerModel>|
                ms.len() == count && #[trigger] encoder_layers_at(d, p, ms, cells as int) ==> ms.take(i as int)
                    == layers@.map_values(|l: SavedEncoderLayer| l@),
        decreases count - i,
    {
        let ghost done = layers@.map_values(|l: SavedEncoderLayer| l@);
        let ghost before = layers@;
        let ghost q = r.pos as int;
        proof {
            assert forall|ms: Seq<EncoderLayerModel>|
                ms.len() == count && #[trigger] encoder_layers_at(d, p, ms, cells as int) implies encoder_layer_at(
                d,
                q,
                ms[i as int],
                cells as int,
            ) by {
                lemma_concat_map_at(d, p, ms, f, i as int);
            }
        }
        match decode_encoder_layer(r, cells) {
            Ok(l) => {
                layers.push(l);
                proof {
                    let now = layers@.map_values(|l: SavedEncoderLayer| l@);
                    assert(now =~= done.push(l@));
                    assert(now.drop_last() =~= done);
                    lemma_at_split(d, p, concat_map(done, f), f(l@));
                    assert forall|ms: Seq<EncoderLayerModel>|
                        ms.len() == count && #[trigger] encoder_layers_at(d, p, ms, cells as int) implies ms.take(
                        i + 1,
                    ) == now by {
                        assert(ms.take(i + 1) =~= ms.take(i as int).push(ms[i as int]));
                    }
                    assert forall|k: int| 0 <= k < i + 1 implies encoder_layer_wf(#[trigger] layers@[k]@, cells as int) by {
                        if k < i {
                            assert(layers@[k] == before[k]);
                        }
                    }
                }
                i = i + 1;
            },
            Err(e) => {
                return Err(e);
            },
        }
    }
    proof {
        let now = layers@.map_values(|l: SavedEncoderLayer| l@);
        assert forall|k: int| 0 <= k < now.len() implies encoder_layer_wf(#[trigger] now[k], cells as int) by {
            assert(now[k] == layers@[k]@);
        }
        assert forall|ms: Seq<EncoderLayerModel>|
            ms.len() == count && #[trigger] encoder_layers_at(d, p, ms, cells as int) implies now == ms by {
            assert(ms.take(count as int) =~= ms);
        }
    }
    Ok(layers)
}

/// Read an encoder.
#[verifier::rlimit(100)]
pub fn decode_encoder(r: &mut SliceReader) -> (res: Result<SavedEncoder, ReadError>)
    ensures
        res is Err ==> (res == Err::<SavedEncoder, ReadError>(ReadError::Truncated) || res == Err::<SavedEncoder, ReadError>(ReadError::BadSize)),
        final(r).data@ == old(r).data@,
        res matches Ok(v) ==> encoder_at(old(r).data@, old(r).pos as int, v@) && final(r).pos == old(
            r,
        ).pos + encoder_bytes(v@).len(),
        forall|m: EncoderModel| #[trigger] encoder_at(old(r).data@, old(r).pos as int, m) ==> (res is Ok
            && res->Ok_0@ == m),
{
    let ghost d = r.data@;
    let ghost p = r.pos as int;
    let dl = r.data.len();
    proof {
        assert forall|m: EncoderModel| #[trigger] encoder_at(d, p, m) implies at(d, p, le_bytes_int3(m.hidden_size)) by {
            lemma_encoder_parts(d, p, m);
        }
    }
    let size = get_int3(r)?;
    proof {
        assert forall|m: EncoderModel| #[trigger] encoder_at(d, p, m) implies m.hidden_size == size && at(
            d,
            p + 12,
            le_bytes_i32_seq(m.hidden_cis),
        ) by {
            lemma_encoder_parts(d, p, m);
            lemma_i32_seq_round_trip(m.hidden_cis);
        }
    }
    let ncols = match cols_len(size) {
        Some(n) => n,
        None => {
            proof {
                assert forall|m: EncoderModel| !#[trigger] encoder_at(d, p, m) by {
                    if encoder_at(d, p, m) {
                        lemma_i32_seq_round_trip(m.hidden_cis);
                    }
                }
            }
            return Err(ReadError::BadSize);
        },
    };
    let cis = get_i32s(r, ncols)?;
    proof {
        assert forall|m: EncoderModel| #[trigger] encoder_at(d, p, m) implies m.hidden_cis == cis@ && at(
            d,
            p + 12 + 4 * ncols,
            m.committed,
        ) by {
            lemma_encoder_parts(d, p, m);
        }
    }
    let ncells = match cells_len(size) {
        Some(n) => n,
        None => {
            proof {
                assert forall|m: EncoderModel| !#[trigger] encoder_at(d, p, m) by {
                    if encoder_at(d, p, m) {
                        assert(m.committed.len() <= dl);
                    }
                }
            }
            return Err(ReadError::BadSize);
        },
    };
    let committed = get_u8s(r, ncells)?;
    proof {
        assert forall|m: EncoderModel| #[trigger] encoder_at(d, p, m) implies m.committed == committed@ && at(
            d,
            p + 12 + 4 * ncols + ncells,
            le_bytes_i32(m.layers.len() as i32),
        ) by {
            lemma_encoder_parts(d, p, m);
        }
    }
    let count = get_i32(r)?;
    if count < 0 {
        return Err(ReadError::BadSize);
    }
    let ghost p1 = r.pos as int;
    let ghost f = encoder_layer_bytes_fn();
    proof {
        assert forall|m: EncoderModel| #[trigger] encoder_at(d, p, m) implies m.layers.len() == count && at(
            d,
            p1,
            concat_map(m.layers, f),
        ) by {
            lemma_encoder_parts(d, p, m);
        }
    }
    let layers = match decode_encoder_layers(r, count as usize, ncells) {
        Ok(ls) => ls,
        Err(e) => {
            proof {
                assert forall|m: EncoderModel| !#[trigger] encoder_at(d, p, m) by {
                    if encoder_at(d, p, m) {
                        assert(encoder_layers_at(d, p1, m.layers, ncells as int));
                    }
                }
            }
            return Err(e);
        },
    };
    let v = SavedEncoder { hidden_size: size, hidden_cis: cis, committed, layers };
    proof {
        assert forall|m: EncoderModel| #[trigger] encoder_at(d, p, m) implies v@ == m by {
            assert(encoder_layers_at(d, p1, m.layers, ncells as int));
        }
        assert(v@.layers.len() == count);
        assert((v@.layers.len() as i32) == count);
        lemma_i32_seq_round_trip(cis@);
        lemma_encoder_parts(d, p, v@);
        assert(encoder_wf(v@));
    }
    Ok(v)
}

// --- Decoder ---

/// What a saved decoder holds for one of its visible layers.
#[derive(Clone, Debug)]
pub struct SavedDecoderLayer {
    /// Size of the visible layer.
    pub size: Int3,
    /// Field radius.
    pub radius: i32,
    /// Signed byte weights.
    pub weights: Vec<i8>,
}

/// The contents of a [`SavedDecoderLayer`].
pub struct DecoderLayerModel {
    pub size: Int3,
    pub radius: i32,
    pub weights: Seq<i8>,
}

impl View for SavedDecoderLayer {
    type V = DecoderLayerModel;

    open spec fn view(&self) -> DecoderLayerModel {
        DecoderLayerModel { size: self.size, radius: self.radius, weights: self.weights@ }
    }
}

/// The bytes of one decoder layer: size, radius, weights.
pub open spec fn decoder_layer_bytes(m: DecoderLayerModel) -> Seq<u8> {
    le_bytes_int3(m.size) + le_bytes_i32(m.radius) + i8_seq_bytes(m.weights)
}

/// [`decoder_layer_bytes`] as a function value.
pub open spec fn decoder_layer_bytes_fn() -> spec_fn(DecoderLayerModel) -> Seq<u8> {
    |l: DecoderLayerModel| decoder_layer_bytes(l)
}

/// The weights of `m` are as many as a decoder of `dendrites` dendrites gives it.
pub open spec fn decoder_layer_wf(m: DecoderLayerModel, dendrites: int) -> bool {
    m.weights.len() == weights_len(dendrites, m.radius, m.size.z)
}

/// A well-formed decoder layer stands in `d` at `p`.
pub open spec fn decoder_layer_at(d: Seq<u8>, p: int, m: DecoderLayerModel, dendrites: int) -> bool {
    decoder_layer_wf(m, dendrites) && at(d, p, decoder_layer_bytes(m))
}

proof fn lemma_decoder_layer_parts(d: Seq<u8>, p: int, m: DecoderLayerModel)
    ensures
        at(d, p, decoder_layer_bytes(m)) <==> {
            &&& at(d, p, le_bytes_int3(m.size))
            &&& at(d, p + 12, le_bytes_i32(m.radius))
            &&& at(d, p + 16, i8_seq_bytes(m.weights))
        },
{
    let a = le_bytes_int3(m.size);
    let b = le_bytes_i32(m.radius);
    let c = i8_seq_bytes(m.weights);
    lemma_at_split(d, p, a + b, c);
    lemma_at_split(d, p, a, b);
}

/// Write one decoder layer.
pub fn encode_decoder_layer(l: &SavedDecoderLayer, w: &mut VecWriter)
    ensures
        final(w).data@ == old(w).data@ + decoder_layer_bytes(l@),
{
    w.write_int3(l.size);
    w.write_i32(l.radius);
    w.write_i8_slice(&l.weights);
    assert(w.data@ =~= old(w).data@ + decoder_layer_bytes(l@));
}

/// Read one decoder layer of a decoder with `dendrites` dendrites.
pub fn decode_decoder_layer(r: &mut SliceReader, dendrites: usize) -> (res: Result<SavedDecoderLayer, ReadError>)
    ensures
        res is Err ==> (res == Err::<SavedDecoderLayer, ReadError>(ReadError::Truncated) || res == Err::<SavedDecoderLayer, ReadError>(ReadError::BadSize)),
        final(r).data@ == old(r).data@,
        res matches Ok(v) ==> decoder_layer_at(old(r).data@, old(r).pos as int, v@, dendrites as int)
            && final(r).pos == old(r).pos + decoder_layer_bytes(v@).len(),
        forall|m: DecoderLayerModel| #[trigger]
            decoder_layer_at(old(r).data@, old(r).pos as int, m, dendrites as int) ==> (res is Ok
                && res->Ok_0@ == m),
{
    let ghost d = r.data@;
    let ghost p = r.pos as int;
    let dl = r.data.len();
    proof {
        assert forall|m: DecoderLayerModel| #[trigger] decoder_layer_at(d, p, m, dendrites as int) implies at(
            d,
            p,
            le_bytes_int3(m.size),
        ) by {
            lemma_decoder_layer_parts(d, p, m);
        }
    }
    let size = get_int3(r)?;
    proof {
        assert forall|m: DecoderLayerModel| #[trigger] decoder_layer_at(d, p, m, dendrites as int) implies m.size
            == size && at(d, p + 12, le_bytes_i32(m.radius)) by {
            lemma_decoder_layer_parts(d, p, m);
        }
    }
    let radius = get_i32(r)?;
    proof {
        assert forall|m: DecoderLayerModel| #[trigger] decoder_layer_at(d, p, m, dendrites as int) implies m.size
            == size && m.radius == radius && at(d, p + 16, i8_seq_bytes(m.weights)) by {
            lemma_decoder_layer_parts(d, p, m);
        }
    }
    let n = match field_weights_len(dendrites, radius, size.z) {
        Some(n) => n,
        None => {
            proof {
                assert forall|m: DecoderLayerModel| !#[trigger] decoder_layer_at(d, p, m, dendrites as int) by {
                    if decoder_layer_at(d, p, m, dendrites as int) {
                        assert(i8_seq_bytes(m.weights).len() <= dl);
                    }
                }
            }
            return Err(ReadError::BadSize);
        },
    };
    let weights = get_i8s(r, n)?;
    let v = SavedDecoderLayer { size, radius, weights };
    proof {
        lemma_decoder_layer_parts(d, p, v@);
    }
    Ok(v)
}

/// `ms` are well-formed layers of a decoder of `dendrites` dendrites and stand,
/// one after another, in `d` at `p`.
pub open spec fn decoder_layers_at(d: Seq<u8>, p: int, ms: Seq<DecoderLayerModel>, dendrites: int) -> bool {
    &&& forall|i: int| 0 <= i < ms.len() ==> decoder_layer_wf(#[trigger] ms[i], dendrites)
    &&& at(d, p, concat_map(ms, decoder_layer_bytes_fn()))
}

fn decode_decoder_layers(r: &mut SliceReader, count: usize, dendrites: usize) -> (res: Result<Vec<SavedDecoderLayer>, ReadError>)
    ensures
        res is Err ==> (res == Err::<Vec<SavedDecoderLayer>, ReadError>(ReadError::Truncated) || res == Err::<Vec<SavedDecoderLayer>, ReadError>(ReadError::BadSize)),
        final(r).data@ == old(r).data@,
        res matches Ok(v) ==> v@.len() == count && decoder_layers_at(
            old(r).data@,
            old(r).pos as int,
            v@.map_values(|l: SavedDecoderLayer| l@),
            dendrites as int,
        ) && final(r).pos == old(r).pos + concat_map(
            v@.map_values(|l: SavedDecoderLayer| l@),
            decoder_layer_bytes_fn(),
        ).len(),
        forall|ms: Seq<DecoderLayerModel>|
            ms.len() == count && #[trigger] decoder_layers_at(old(r).data@, old(r).pos as int, ms, dendrites as int)
                ==> (res is Ok && res->Ok_0@.map_values(|l: SavedDecoderLayer| l@) == ms),
{
    let ghost d = r.data@;
    let ghost p = r.pos as int;
    let ghost f = decoder_layer_bytes_fn();
    let mut layers: Vec<SavedDecoderLayer> = Vec::new();
    if r.pos > r.data.len() {
        return Err(ReadError::Truncated);
    }
    proof {
        assert(layers@.map_values(|l: SavedDecoderLayer| l@) =~= Seq::<DecoderLayerModel>::empty());
        assert(d.subrange(p, p) =~= Seq::<u8>::empty());
    }
    let mut i: usize = 0;
    while i < count
        invariant
            d == old(r).data@,
            p == old(r).pos,
            r.data@ == d,
            f == decoder_layer_bytes_fn(),
            i <= count,
            layers@.len() == i,
            at(d, p, concat_map(layers@.map_values(|l: SavedDecoderLayer| l@), f)),
            r.pos == p + concat_map(layers@.map_values(|l: SavedDecoderLayer| l@), f).len(),
            forall|k: int| 0 <= k < i ==> decoder_layer_wf(#[trigger] layers@[k]@, dendrites as int),
            forall|ms: Seq<DecoderLayerModel>|
                ms.len() == count && #[trigger] decoder_layers_at(d, p, ms, dendrites as int) ==> ms.take(i as int)
                    == layers@.map_values(|l: SavedDecoderLayer| l@),
        decreases count - i,
    {
        let ghost done = layers@.map_values(|l: SavedDecoderLayer| l@);
        let ghost before = layers@;
        let ghost q = r.pos as int;
        proof {
            assert forall|ms: Seq<DecoderLayerModel>|
                ms.len() == count && #[trigger] decoder_layers_at(d, p, ms, dendrites as int) implies decoder_layer_at(
                d,
                q,
                ms[i as int],
                dendrites as int,
            ) by {
                lemma_concat_map_at(d, p, ms, f, i as int);
            }
        }
        match decode_decoder_layer(r, dendrites) {
            Ok(l) => {
                layers.push(l);
                proof {
                    let now = layers@.map_values(|l: SavedDecoderLayer| l@);
                    assert(now =~= done.push(l@));
                    assert(now.drop_last() =~= done);
                    lemma_at_split(d, p, concat_map(done, f), f(l@));
                    assert forall|ms: Seq<DecoderLayerModel>|
                        ms.len() == count && #[trigger] decoder_layers_at(d, p, ms, dendrites as int) implies ms.take(
                        i + 1,
                    ) == now by {
                        assert(ms.take(i + 1) =~= ms.take(i as int).push(ms[i as int]));
                    }
                    assert forall|k: int| 0 <= k < i + 1 implies decoder_layer_wf(#[trigger] layers@[k]@, dendrites as int) by {
                        if k < i {
                            assert(layers@[k] == before[k]);
                        }
                    }
                }
                i = i + 1;
            },
            Err(e) => {
                return Err(e);
            },
        }
    }
    proof {
        let now = layers@.map_values(|l: SavedDecoderLayer| l@);
        assert forall|k: int| 0 <= k < now.len() implies decoder_layer_wf(#[trigger] now[k], dendrites as int) by {
            assert(now[k] == layers@[k]@);
        }
        assert forall|ms: Seq<DecoderLayerModel>|
            ms.len() == count && #[trigger] decoder_layers_at(d, p, ms, dendrites as int) implies now == ms by {
            assert(ms.take(count as int) =~= ms);
        }
    }
    Ok(layers)
}

/// What a saved decoder holds.
#[derive(Clone, Debug)]
pub struct SavedDecoder {
    /// Size of the predicted layer.
    pub hidden_size: Int3,
    /// Dendrites per predicted cell.
    pub num_dendrites_per_cell: i32,
    /// Predicted column states.
    pub hidden_cis: Vec<i32>,
    /// Bit patterns of the per-cell activations.
    pub hidden_acts: Vec<u32>,
    /// Bit patterns of the per-dendrite activations.
    pub dendrite_acts: Vec<u32>,
    /// The visible layers.
    pub layers: Vec<SavedDecoderLayer>,
}

/// The contents of a [`SavedDecoder`].
pub struct DecoderModel {
    pub hidden_size: Int3,
    pub num_dendrites_per_cell: i32,
    pub hidden_cis: Seq<i32>,
    pub hidden_acts: Seq<u32>,
    pub dendrite_acts: Seq<u32>,
    pub layers: Seq<DecoderLayerModel>,
}

impl View for SavedDecoder {
    type V = DecoderModel;

    open spec fn view(&self) -> DecoderModel {
        DecoderModel {
            hidden_size: self.hidden_size,
            num_dendrites_per_cell: self.num_dendrites_per_cell,
            hidden_cis: self.hidden_cis@,
            hidden_acts: self.hidden_acts@,
            dendrite_acts: self.dendrite_acts@,
            layers: self.layers@.map_values(|l: SavedDecoderLayer| l@),
        }
    }
}

/// Number of dendrites of a decoder.
pub open spec fn decoder_dendrites(m: DecoderModel) -> int {
    cells(m.hidden_size) * m.num_dendrites_per_cell
}

/// The bytes of a decoder: hidden size, dendrites per cell, hidden states,
/// hidden and dendrite activations, the number of visible layers, and each
/// visible layer.
pub open spec fn decoder_bytes(m: DecoderModel) -> Seq<u8> {
    le_bytes_int3(m.hidden_size) + le_bytes_i32(m.num_dendrites_per_cell) + le_bytes_i32_seq(m.hidden_cis)
        + le_bytes_u32_seq(m.hidden_acts) + le_bytes_u32_seq(m.dendrite_acts) + le_bytes_i32(
        m.layers.len() as i32,
    ) + concat_map(m.layers, decoder_layer_bytes_fn())
}

/// The lengths and counts of `m` agree with its sizes.
pub open spec fn decoder_wf(m: DecoderModel) -> bool {
    &&& m.hidden_cis.len() == cols(m.hidden_size)
    &&& m.hidden_acts.len() == cells(m.hidden_size)
    &&& m.dendrite_acts.len() == decoder_dendrites(m)
    &&& m.layers.len() <= i32::MAX
    &&& forall|i: int| 0 <= i < m.layers.len() ==> decoder_layer_wf(#[trigger] m.layers[i], decoder_dendrites(m))
}

/// A well-formed decoder stands in `d` at `p`.
pub open spec fn decoder_at(d: Seq<u8>, p: int, m: DecoderModel) -> bool {
    decoder_wf(m) && at(d, p, decoder_bytes(m))
}

proof fn lemma_decoder_parts(d: Seq<u8>, p: int, m: DecoderModel)
    ensures
        at(d, p, decoder_bytes(m)) <==> {
            let o1 = p + 16 + 4 * m.hidden_cis.len();
            let o2 = o1 + 4 * m.hidden_acts.len();
            let o3 = o2 + 4 * m.dendrite_acts.len();
            &&& at(d, p, le_bytes_int3(m.hidden_size))
            &&& at(d, p + 12, le_bytes_i32(m.num_dendrites_per_cell))
            &&& at(d, p + 16, le_bytes_i32_seq(m.hidden_cis))
            &&& at(d, o1, le_bytes_u32_seq(m.hidden_acts))
            &&& at(d, o2, le_bytes_u32_seq(m.dendrite_acts))
            &&& at(d, o3, le_bytes_i32(m.layers.len() as i32))
            &&& at(d, o3 + 4, concat_map(m.layers, decoder_layer_bytes_fn()))
        },
{
    lemma_i32_seq_round_trip(m.hidden_cis);
    lemma_u32_seq_round_trip(m.hidden_acts);
    lemma_u32_seq_round_trip(m.dendrite_acts);
    let a = le_bytes_int3(m.hidden_size);
    let b = le_bytes_i32(m.num_dendrites_per_cell);
    let c = le_bytes_i32_seq(m.hidden_cis);
    let e = le_bytes_u32_seq(m.hidden_acts);
    let g = le_bytes_u32_seq(m.dendrite_acts);
    let h = le_bytes_i32(m.layers.len() as i32);
    let k = concat_map(m.layers, decoder_layer_bytes_fn());
    lemma_at_split(d, p, a + b + c + e + g + h, k);
    lemma_at_split(d, p, a + b + c + e + g, h);
    lemma_at_split(d, p, a + b + c + e, g);
    lemma_at_split(d, p, a + b + c, e);
    lemma_at_split(d, p, a + b, c);
    lemma_at_split(d, p, a, b);
}

/// Write a decoder.
pub fn encode_decoder(e: &SavedDecoder, w: &mut VecWriter)
    requires
        e.layers@.len() <= i32::MAX,
    ensures
        final(w).data@ == old(w).data@ + decoder_bytes(e@),
{
    w.write_int3(e.hidden_size);
    w.write_i32(e.num_dendrites_per_cell);
    w.write_i32_slice(&e.hidden_cis);
    w.write_u32_slice(&e.hidden_acts);
    w.write_u32_slice(&e.dendrite_acts);
    w.write_i32(e.layers.len() as i32);
    let ghost base = w.data@;
    let ghost ls = e@.layers;
    let mut i: usize = 0;
    while i < e.layers.len()
        invariant
            i <= e.layers@.len(),
            ls == e@.layers,
            ls.len() == e.layers@.len(),
            w.data@ == base + concat_map(ls.take(i as int), decoder_layer_bytes_fn()),
        decreases e.layers@.len() - i,
    {
        encode_decoder_layer(&e.layers[i], w);
        proof {
            lemma_concat_map_step(ls, decoder_layer_bytes_fn(), i as int);
        }
        i = i + 1;
        assert(w.data@ =~= base + concat_map(ls.take(i as int), decoder_layer_bytes_fn()));
    }
    assert(ls.take(i as int) =~= ls);
    assert(w.data@ =~= old(w).data@ + decoder_bytes(e@));
}

/// Read a decoder.
#[verifier::rlimit(100)]
pub fn decode_decoder(r: &mut SliceReader) -> (res: Result<SavedDecoder, ReadError>)
    ensures
        res is Err ==> (res == Err::<SavedDecoder, ReadError>(ReadError::Truncated) || res == Err::<SavedDecoder, ReadError>(ReadError::BadSize)),
        final(r).data@ == old(r).data@,
        res matches Ok(v) ==> decoder_at(old(r).data@, old(r).pos as int, v@) && final(r).pos == old(
            r,
        ).pos + decoder_bytes(v@).len(),
        forall|m: DecoderModel| #[trigger] decoder_at(old(r).data@, old(r).pos as int, m) ==> (res is Ok
            && res->Ok_0@ == m),
{
    let ghost d = r.data@;
    let ghost p = r.pos as int;
    let dl = r.data.len();
    proof {
        assert forall|m: DecoderModel| #[trigger] decoder_at(d, p, m) implies at(d, p, le_bytes_int3(m.hidden_size)) by {
            lemma_decoder_parts(d, p, m);
        }
    }
    let size = get_int3(r)?;
    proof {
        assert forall|m: DecoderModel| #[trigger] decoder_at(d, p, m) implies m.hidden_size == size && at(
            d,
            p + 12,
            le_bytes_i32(m.num_dendrites_per_cell),
        ) by {
            lemma_decoder_parts(d, p, m);
        }
    }
    let ndpc = get_i32(r)?;
    proof {
        assert forall|m: DecoderModel| #[trigger] decoder_at(d, p, m) implies m.num_dendrites_per_cell == ndpc
            && at(d, p + 16, le_bytes_i32_seq(m.hidden_cis)) by {
            lemma_decoder_parts(d, p, m);
        }
    }
    let ncols = match cols_len(size) {
        Some(n) => n,
        None => {
            proof {
                assert forall|m: DecoderModel| !#[trigger] decoder_at(d, p, m) by {
                    if decoder_at(d, p, m) {
                        lemma_i32_seq_round_trip(m.hidden_cis);
                    }
                }
            }
            return Err(ReadError::BadSize);
        },
    };
    let cis = get_i32s(r, ncols)?;
    proof {
        assert forall|m: DecoderModel| #[trigger] decoder_at(d, p, m) implies m.hidden_cis == cis@ && at(
            d,
            p + 16 + 4 * ncols,
            le_bytes_u32_seq(m.hidden_acts),
        ) by {
            lemma_decoder_parts(d, p, m);
        }
    }
    let ncells = match cells_len(size) {
        Some(n) => n,
        None => {
            proof {
                assert forall|m: DecoderModel| !#[trigger] decoder_at(d, p, m) by {
                    if decoder_at(d, p, m) {
                        lemma_u32_seq_round_trip(m.hidden_acts);
                    }
                }
            }
            return Err(ReadError::BadSize);
        },
    };
    let acts = get_u32s(r, ncells)?;
    proof {
        assert forall|m: DecoderModel| #[trigger] decoder_at(d, p, m) implies m.hidden_acts == acts@ && at(
            d,
            p + 16 + 4 * ncols + 4 * ncells,
            le_bytes_u32_seq(m.dendrite_acts),
        ) by {
            lemma_decoder_parts(d, p, m);
        }
    }
    let nd = match mul_len(ncells, ndpc as i64) {
        Some(n) => n,
        None => {
            proof {
                assert forall|m: DecoderModel| !#[trigger] decoder_at(d, p, m) by {
                    if decoder_at(d, p, m) {
                        lemma_u32_seq_round_trip(m.dendrite_acts);
                    }
                }
            }
            return Err(ReadError::BadSize);
        },
    };
    let dacts = get_u32s(r, nd)?;
    proof {
        assert forall|m: DecoderModel| #[trigger] decoder_at(d, p, m) implies m.dendrite_acts == dacts@ && at(
            d,
            p + 16 + 4 * ncols + 4 * ncells + 4 * nd,
            le_bytes_i32(m.layers.len() as i32),
        ) by {
            lemma_decoder_parts(d, p, m);
        }
    }
    let count = get_i32(r)?;
    if count < 0 {
        return Err(ReadError::BadSize);
    }
    let ghost p1 = r.pos as int;
    proof {
        assert forall|m: DecoderModel| #[trigger] decoder_at(d, p, m) implies m.layers.len() == count && at(
            d,
            p1,
            concat_map(m.layers, decoder_layer_bytes_fn()),
        ) by {
            lemma_decoder_parts(d, p, m);
        }
    }
    let layers = match decode_decoder_layers(r, count as usize, nd) {
        Ok(ls) => ls,
        Err(e) => {
            proof {
                assert forall|m: DecoderModel| !#[trigger] decoder_at(d, p, m) by {
                    if decoder_at(d, p, m) {
                        assert(decoder_layers_at(d, p1, m.layers, nd as int));
                    }
                }
            }
            return Err(e);
        },
    };
    let v = SavedDecoder {
        hidden_size: size,
        num_dendrites_per_cell: ndpc,
        hidden_cis: cis,
        hidden_acts: acts,
        dendrite_acts: dacts,
        layers,
    };
    proof {
        assert forall|m: DecoderModel| #[trigger] decoder_at(d, p, m) implies v@ == m by {
            assert(decoder_layers_at(d, p1, m.layers, nd as int));
        }
        assert(v@.layers.len() == count);
        assert((v@.layers.len() as i32) == count);
        lemma_i32_seq_round_trip(cis@);
        lemma_u32_seq_round_trip(acts@);
        lemma_u32_seq_round_trip(dacts@);
        lemma_decoder_parts(d, p, v@);
        assert(decoder_wf(v@));
    }
    Ok(v)
}

// --- Actor ---

/// What a saved actor holds for one of its visible layers.
#[derive(Clone, Debug)]
pub struct SavedActorLayer {
    /// Size of the visible layer.
    pub size: Int3,
    /// Field radius.
    pub radius: i32,
    /// Bit patterns of the value weights.
    pub value_weights: Vec<u32>,
    /// Bit patterns of the policy weights.
    pub policy_weights: Vec<u32>,
}

/// The contents of a [`SavedActorLayer`].
pub struct ActorLayerModel {
    pub size: Int3,
    pub radius: i32,
    pub value_weights: Seq<u32>,
    pub policy_weights: Seq<u32>,
}

impl View for SavedActorLayer {
    type V = ActorLayerModel;

    open spec fn view(&self) -> ActorLayerModel {
        ActorLayerModel {
            size: self.size,
            radius: self.radius,
            value_weights: self.value_weights@,
            policy_weights: self.policy_weights@,
        }
    }
}

/// The bytes of one actor layer: size, radius, value weights, policy weights.
pub open spec fn actor_layer_bytes(m: ActorLayerModel) -> Seq<u8> {
    le_bytes_int3(m.size) + le_bytes_i32(m.radius) + le_bytes_u32_seq(m.value_weights) + le_bytes_u32_seq(
        m.policy_weights,
    )
}

/// [`actor_layer_bytes`] as a function value.
pub open spec fn actor_layer_bytes_fn() -> spec_fn(ActorLayerModel) -> Seq<u8> {
    |l: ActorLayerModel| actor_layer_bytes(l)
}

/// The weights of `m` are as many as an actor of `vd` value and `pd` policy
/// dendrites gives it.
pub open spec fn actor_layer_wf(m: ActorLayerModel, vd: int, pd: int) -> bool {
    &&& m.value_weights.len() == weights_len(vd, m.radius, m.size.z)
    &&& m.policy_weights.len() == weights_len(pd, m.radius, m.size.z)
}

/// A well-formed actor layer stands in `d` at `p`.
pub open spec fn actor_layer_at(d: Seq<u8>, p: int, m: ActorLayerModel, vd: int, pd: int) -> bool {
    actor_layer_wf(m, vd, pd) && at(d, p, actor_layer_bytes(m))
}

proof fn lemma_actor_layer_parts(d: Seq<u8>, p: int, m: ActorLayerModel)
    ensures
        at(d, p, actor_layer_bytes(m)) <==> {
            &&& at(d, p, le_bytes_int3(m.size))
            &&& at(d, p + 12, le_bytes_i32(m.radius))
            &&& at(d, p + 16, le_bytes_u32_seq(m.value_weights))
            &&& at(d, p + 16 + 4 * m.value_weights.len(), le_bytes_u32_seq(m.policy_weights))
        },
{
    lemma_u32_seq_round_trip(m.value_weights);
    let a = le_bytes_int3(m.size);
    let b = le_bytes_i32(m.radius);
    let c = le_bytes_u32_seq(m.value_weights);
    let e = le_bytes_u32_seq(m.policy_weights);
    lemma_at_split(d, p, a + b + c, e);
    lemma_at_split(d, p, a + b, c);
    lemma_at_split(d, p, a, b);
}

/// Write one actor layer.
pub fn encode_actor_layer(l: &SavedActorLayer, w: &mut VecWriter)
    ensures
        final(w).data@ == old(w).data@ + actor_layer_bytes(l@),
{
    w.write_int3(l.size);
    w.write_i32(l.radius);
    w.write_u32_slice(&l.value_weights);
    w.write_u32_slice(&l.policy_weights);
    assert(w.data@ =~= old(w).data@ + actor_layer_bytes(l@));
}

/// Read one actor layer of an actor with `vd` value and `pd` policy dendrites.
pub fn decode_actor_layer(r: &mut SliceReader, vd: usize, pd: usize) -> (res: Result<SavedActorLayer, ReadError>)
    ensures
        res is Err ==> (res == Err::<SavedActorLayer, ReadError>(ReadError::Truncated) || res == Err::<SavedActorLayer, ReadError>(ReadError::BadSize)),
        final(r).data@ == old(r).data@,
        res matches Ok(v) ==> actor_layer_at(old(r).data@, old(r).pos as int, v@, vd as int, pd as int)
            && final(r).pos == old(r).pos + actor_layer_bytes(v@).len(),
        forall|m: ActorLayerModel| #[trigger]
            actor_layer_at(old(r).data@, old(r).pos as int, m, vd as int, pd as int) ==> (res is Ok
                && res->Ok_0@ == m),
{
    let ghost d = r.data@;
    let ghost p = r.pos as int;
    let dl = r.data.len();
    proof {
        assert forall|m: ActorLayerModel| #[trigger] actor_layer_at(d, p, m, vd as int, pd as int) implies at(
            d,
            p,
            le_bytes_int3(m.size),
        ) by {
            lemma_actor_layer_parts(d, p, m);
        }
    }
    let size = get_int3(r)?;
    proof {
        assert forall|m: ActorLayerModel| #[trigger] actor_layer_at(d, p, m, vd as int, pd as int) implies m.size
            == size && at(d, p + 12, le_bytes_i32(m.radius)) by {
            lemma_actor_layer_parts(d, p, m);
        }
    }
    let radius = get_i32(r)?;
    proof {
        assert forall|m: ActorLayerModel| #[trigger] actor_layer_at(d, p, m, vd as int, pd as int) implies m.size
            == size && m.radius == radius && at(d, p + 16, le_bytes_u32_seq(m.value_weights)) by {
            lemma_actor_layer_parts(d, p, m);
        }
    }
    let nv = match field_weights_len(vd, radius, size.z) {
        Some(n) => n,
        None => {
            proof {
                assert forall|m: ActorLayerModel| !#[trigger] actor_layer_at(d, p, m, vd as int, pd as int) by {
                    if actor_layer_at(d, p, m, vd as int, pd as int) {
                        lemma_u32_seq_round_trip(m.value_weights);
                    }
                }
            }
            return Err(ReadError::BadSize);
        },
    };
    let value_weights = get_u32s(r, nv)?;
    proof {
        assert forall|m: ActorLayerModel| #[trigger] actor_layer_at(d, p, m, vd as int, pd as int) implies m.value_weights
            == value_weights@ && at(d, p + 16 + 4 * nv, le_bytes_u32_seq(m.policy_weights)) by {
            lemma_actor_layer_parts(d, p, m);
        }
    }
    let np = match field_weights_len(pd, radius, size.z) {
        Some(n) => n,
        None => {
            proof {
                assert forall|m: ActorLayerModel| !#[trigger] actor_layer_at(d, p, m, vd as int, pd as int) by {
                    if actor_layer_at(d, p, m, vd as int, pd as int) {
                        lemma_u32_seq_round_trip(m.policy_weights);
                    }
                }
            }
            return Err(ReadError::BadSize);
        },
    };
    let policy_weights = get_u32s(r, np)?;
    let v = SavedActorLayer { size, radius, value_weights, policy_weights };
    proof {
        lemma_u32_seq_round_trip(v@.value_weights);
        lemma_u32_seq_round_trip(v@.policy_weights);
        lemma_actor_layer_parts(d, p, v@);
    }
    Ok(v)
}

/// `ms` are well-formed layers of an actor of `vd` value and `pd` policy
/// dendrites and stand, one after another, in `d` at `p`.
pub open spec fn actor_layers_at(d: Seq<u8>, p: int, ms: Seq<ActorLayerModel>, vd: int, pd: int) -> bool {
    &&& forall|i: int| 0 <= i < ms.len() ==> actor_layer_wf(#[trigger] ms[i], vd, pd)
    &&& at(d, p, concat_map(ms, actor_layer_bytes_fn()))
}

fn decode_actor_layers(r: &mut SliceReader, count: usize, vd: usize, pd: usize) -> (res: Result<Vec<SavedActorLayer>, ReadError>)
    ensures
        res is Err ==> (res == Err::<Vec<SavedActorLayer>, ReadError>(ReadError::Truncated) || res == Err::<Vec<SavedActorLayer>, ReadError>(ReadError::BadSize)),
        final(r).data@ == old(r).data@,
        res matches Ok(v) ==> v@.len() == count && actor_layers_at(
            old(r).data@,
            old(r).pos as int,
            v@.map_values(|l: SavedActorLayer| l@),
            vd as int,
            pd as int,
        ) && final(r).pos == old(r).pos + concat_map(
            v@.map_values(|l: SavedActorLayer| l@),
            actor_layer_bytes_fn(),
        ).len(),
        forall|ms: Seq<ActorLayerModel>|
            ms.len() == count && #[trigger] actor_layers_at(old(r).data@, old(r).pos as int, ms, vd as int, pd as int)
                ==> (res is Ok && res->Ok_0@.map_values(|l: SavedActorLayer| l@) == ms),
{
    let ghost d = r.data@;
    let ghost p = r.pos as int;
    let ghost f = actor_layer_bytes_fn();
    let mut layers: Vec<SavedActorLayer> = Vec::new();
    if r.pos > r.data.len() {
        return Err(ReadError::Truncated);
    }
    proof {
        assert(layers@.map_values(|l: SavedActorLayer| l@) =~= Seq::<ActorLayerModel>::empty());
        assert(d.subrange(p, p) =~= Seq::<u8>::empty());
    }
    let mut i: usize = 0;
    while i < count
        invariant
            d == old(r).data@,
            p == old(r).pos,
            r.data@ == d,
            f == actor_layer_bytes_fn(),
            i <= count,
            layers@.len() == i,
            at(d, p, concat_map(layers@.map_values(|l: SavedActorLayer| l@), f)),
            r.pos == p + concat_map(layers@.map_values(|l: SavedActorLayer| l@), f).len(),
            forall|k: int| 0 <= k < i ==> actor_layer_wf(#[trigger] layers@[k]@, vd as int, pd as int),
            forall|ms: Seq<ActorLayerModel>|
                ms.len() == count && #[trigger] actor_layers_at(d, p, ms, vd as int, pd as int) ==> ms.take(i as int)
                    == layers@.map_values(|l: SavedActorLayer| l@),
        decreases count - i,
    {
        let ghost done = layers@.map_values(|l: SavedActorLayer| l@);
        let ghost before = layers@;
        let ghost q = r.pos as int;
        proof {
            assert forall|ms: Seq<ActorLayerModel>|
                ms.len() == count && #[trigger] actor_layers_at(d, p, ms, vd as int, pd as int) implies actor_layer_at(
                d,
                q,
                ms[i as int],
                vd as int,
                pd as int,
            ) by {
                lemma_concat_map_at(d, p, ms, f, i as int);
            }
        }
        match decode_actor_layer(r, vd, pd) {
            Ok(l) => {
                layers.push(l);
                proof {
                    let now = layers@.map_values(|l: SavedActorLayer| l@);
                    assert(now =~= done.push(l@));
                    assert(now.drop_last() =~= done);
                    lemma_at_split(d, p, concat_map(done, f), f(l@));
                    assert forall|ms: Seq<ActorLayerModel>|
                        ms.len() == count && #[trigger] actor_layers_at(d, p, ms, vd as int, pd as int) implies ms.take(
                        i + 1,
                    ) == now by {
                        assert(ms.take(i + 1) =~= ms.take(i as int).push(ms[i as int]));
                    }
                    assert forall|k: int| 0 <= k < i + 1 implies actor_layer_wf(#[trigger] layers@[k]@, vd as int, pd as int) by {
                        if k < i {
                            assert(layers@[k] == before[k]);
                        }
                    }
                }
                i = i + 1;
            },
            Err(e) => {
                return Err(e);
            },
        }
    }
    proof {
        let now = layers@.map_values(|l: SavedActorLayer| l@);
        assert forall|k: int| 0 <= k < now.len() implies actor_layer_wf(#[trigger] now[k], vd as int, pd as int) by {
            assert(now[k] == layers@[k]@);
        }
        assert forall|ms: Seq<ActorLayerModel>|
            ms.len() == count && #[trigger] actor_layers_at(d, p, ms, vd as int, pd as int) implies now == ms by {
            assert(ms.take(count as int) =~= ms);
        }
    }
    Ok(layers)
}

/// What a saved actor holds for one step of its history.
#[derive(Clone, Debug)]
pub struct SavedSample {
    /// The input columns of every visible layer, one layer after another.
    pub inputs: Vec<i32>,
    /// The action columns taken before the step.
    pub targets: Vec<i32>,
    /// Bit patterns of the value estimates.
    pub values: Vec<u32>,
    /// Bit pattern of the reward.
    pub reward: u32,
}

/// The contents of a [`SavedSample`].
pub struct SampleModel {
    pub inputs: Seq<i32>,
    pub targets: Seq<i32>,
    pub values: Seq<u32>,
    pub reward: u32,
}

impl View for SavedSample {
    type V = SampleModel;

    open spec fn view(&self) -> SampleModel {
        SampleModel {
            inputs: self.inputs@,
            targets: self.targets@,
            values: self.values@,
            reward: self.reward,
        }
    }
}

/// The bytes of one history step: inputs, targets, values, reward.
pub open spec fn sample_bytes(m: SampleModel) -> Seq<u8> {
    le_bytes_i32_seq(m.inputs) + le_bytes_i32_seq(m.targets) + le_bytes_u32_seq(m.values) + le_bytes_u32(
        m.reward,
    )
}

/// [`sample_bytes`] as a function value.
pub open spec fn sample_bytes_fn() -> spec_fn(SampleModel) -> Seq<u8> {
    |m: SampleModel| sample_bytes(m)
}

/// `m` has `ninputs` input columns and `ncols` targets and values.
pub open spec fn sample_wf(m: SampleModel, ninputs: int, ncols: int) -> bool {
    &&& m.inputs.len() == ninputs
    &&& m.targets.len() == ncols
    &&& m.values.len() == ncols
}

/// A well-formed history step stands in `d` at `p`.
pub open spec fn sample_at(d: Seq<u8>, p: int, m: SampleModel, ninputs: int, ncols: int) -> bool {
    sample_wf(m, ninputs, ncols) && at(d, p, sample_bytes(m))
}

pub(crate) proof fn lemma_sample_parts(d: Seq<u8>, p: int, m: SampleModel)
    ensures
        at(d, p, sample_bytes(m)) <==> {
            let o1 = p + 4 * m.inputs.len();
            let o2 = o1 + 4 * m.targets.len();
            &&& at(d, p, le_bytes_i32_seq(m.inputs))
            &&& at(d, o1, le_bytes_i32_seq(m.targets))
            &&& at(d, o2, le_bytes_u32_seq(m.values))
            &&& at(d, o2 + 4 * m.values.len(), le_bytes_u32(m.reward))
        },
{
    lemma_i32_seq_round_trip(m.inputs);
    lemma_i32_seq_round_trip(m.targets);
    lemma_u32_seq_round_trip(m.values);
    let a = le_bytes_i32_seq(m.inputs);
    let b = le_bytes_i32_seq(m.targets);
    let c = le_bytes_u32_seq(m.values);
    let e = le_bytes_u32(m.reward);
    lemma_at_split(d, p, a + b + c, e);
    lemma_at_split(d, p, a + b, c);
    lemma_at_split(d, p, a, b);
}

/// Write one history step.
pub fn encode_sample(m: &SavedSample, w: &mut VecWriter)
    ensures
        final(w).data@ == old(w).data@ + sample_bytes(m@),
{
    w.write_i32_slice(&m.inputs);
    w.write_i32_slice(&m.targets);
    w.write_u32_slice(&m.values);
    w.write_u32(m.reward);
    assert(w.data@ =~= old(w).data@ + sample_bytes(m@));
}

/// Read one history step of `ninputs` input columns and `ncols` action columns.
pub fn decode_sample(r: &mut SliceReader, ninputs: usize, ncols: usize) -> (res: Result<SavedSample, ReadError>)
    ensures
        res is Err ==> (res == Err::<SavedSample, ReadError>(ReadError::Truncated) || res == Err::<SavedSample, ReadError>(ReadError::BadSize)),
        final(r).data@ == old(r).data@,
        res matches Ok(v) ==> sample_at(old(r).data@, old(r).pos as int, v@, ninputs as int, ncols as int)
            && final(r).pos == old(r).pos + sample_bytes(v@).len(),
        forall|m: SampleModel| #[trigger]
            sample_at(old(r).data@, old(r).pos as int, m, ninputs as int, ncols as int) ==> (res is Ok
                && res->Ok_0@ == m),
{
    let ghost d = r.data@;
    let ghost p = r.pos as int;
    proof {
        assert forall|m: SampleModel| #[trigger] sample_at(d, p, m, ninputs as int, ncols as int) implies at(
            d,
            p,
            le_bytes_i32_seq(m.inputs),
        ) by {
            lemma_sample_parts(d, p, m);
        }
    }
    let inputs = get_i32s(r, ninputs)?;
    proof {
        assert forall|m: SampleModel| #[trigger] sample_at(d, p, m, ninputs as int, ncols as int) implies m.inputs
            == inputs@ && at(d, p + 4 * ninputs, le_bytes_i32_seq(m.targets)) by {
            lemma_sample_parts(d, p, m);
        }
    }
    let targets = get_i32s(r, ncols)?;
    proof {
        assert forall|m: SampleModel| #[trigger] sample_at(d, p, m, ninputs as int, ncols as int) implies m.targets
            == targets@ && at(d, p + 4 * ninputs + 4 * ncols, le_bytes_u32_seq(m.values)) by {
            lemma_sample_parts(d, p, m);
        }
    }
    let values = get_u32s(r, ncols)?;
    proof {
        assert forall|m: SampleModel| #[trigger] sample_at(d, p, m, ninputs as int, ncols as int) implies m.values
            == values@ && at(d, p + 4 * ninputs + 8 * ncols, le_bytes_u32(m.reward)) by {
            lemma_sample_parts(d, p, m);
        }
    }
    let reward = get_u32(r)?;
    let v = SavedSample { inputs, targets, values, reward };
    proof {
        lemma_i32_seq_round_trip(v@.inputs);
        lemma_i32_seq_round_trip(v@.targets);
        lemma_u32_seq_round_trip(v@.values);
        lemma_sample_parts(d, p, v@);
    }
    Ok(v)
}

/// `ms` are well-formed history steps and stand, one after another, in `d` at `p`.
pub open spec fn samples_at(d: Seq<u8>, p: int, ms: Seq<SampleModel>, ninputs: int, ncols: int) -> bool {
    &&& forall|i: int| 0 <= i < ms.len() ==> sample_wf(#[trigger] ms[i], ninputs, ncols)
    &&& at(d, p, concat_map(ms, sample_bytes_fn()))
}

fn decode_samples(r: &mut SliceReader, count: usize, ninputs: usize, ncols: usize) -> (res: Result<Vec<SavedSample>, ReadError>)
    ensures
        res is Err ==> (res == Err::<Vec<SavedSample>, ReadError>(ReadError::Truncated) || res == Err::<Vec<SavedSample>, ReadError>(ReadError::BadSize)),
        final(r).data@ == old(r).data@,
        res matches Ok(v) ==> v@.len() == count && samples_at(
            old(r).data@,
            old(r).pos as int,
            v@.map_values(|l: SavedSample| l@),
            ninputs as int,
            ncols as int,
        ) && final(r).pos == old(r).pos + concat_map(
            v@.map_values(|l: SavedSample| l@),
            sample_bytes_fn(),
        ).len(),
        forall|ms: Seq<SampleModel>|
            ms.len() == count && #[trigger] samples_at(old(r).data@, old(r).pos as int, ms, ninputs as int, ncols as int)
                ==> (res is Ok && res->Ok_0@.map_values(|l: SavedSample| l@) == ms),
{
    let ghost d = r.data@;
    let ghost p = r.pos as int;
    let ghost f = sample_bytes_fn();
    let mut layers: Vec<SavedSample> = Vec::new();
    if r.pos > r.data.len() {
        return Err(ReadError::Truncated);
    }
    proof {
        assert(layers@.map_values(|l: SavedSample| l@) =~= Seq::<SampleModel>::empty());
        assert(d.subrange(p, p) =~= Seq::<u8>::empty());
    }
    let mut i: usize = 0;
    while i < count
        invariant
            d == old(r).data@,
            p == old(r).pos,
            r.data@ == d,
            f == sample_bytes_fn(),
            i <= count,
            layers@.len() == i,
            at(d, p, concat_map(layers@.map_values(|l: SavedSample| l@), f)),
            r.pos == p + concat_map(layers@.map_values(|l: SavedSample| l@), f).len(),
            forall|k: int| 0 <= k < i ==> sample_wf(#[trigger] layers@[k]@, ninputs as int, ncols as int),
            forall|ms: Seq<SampleModel>|
                ms.len() == count && #[trigger] samples_at(d, p, ms, ninputs as int, ncols as int) ==> ms.take(i as int)
                    == layers@.map_values(|l: SavedSample| l@),
        decreases count - i,
    {
        let ghost done = layers@.map_values(|l: SavedSample| l@);
        let ghost before = layers@;
        let ghost q = r.pos as int;
        proof {
            assert forall|ms: Seq<SampleModel>|
                ms.len() == count && #[trigger] samples_at(d, p, ms, ninputs as int, ncols as int) implies sample_at(
                d,
                q,
                ms[i as int],
                ninputs as int,
                ncols as int,
            ) by {
                lemma_concat_map_at(d, p, ms, f, i as int);
            }
        }
        match decode_sample(r, ninputs, ncols) {
            Ok(l) => {
                layers.push(l);
                proof {
                    let now = layers@.map_values(|l: SavedSample| l@);
                    assert(now =~= done.push(l@));
                    assert(now.drop_last() =~= done);
                    lemma_at_split(d, p, concat_map(done, f), f(l@));
                    assert forall|ms: Seq<SampleModel>|
                        ms.len() == count && #[trigger] samples_at(d, p, ms, ninputs as int, ncols as int) implies ms.take(
                        i + 1,
                    ) == now by {
                        assert(ms.take(i + 1) =~= ms.take(i as int).push(ms[i as int]));
                    }
                    assert forall|k: int| 0 <= k < i + 1 implies sample_wf(#[trigger] layers@[k]@, ninputs as int, ncols as int) by {
                        if k < i {
                            assert(layers@[k] == before[k]);
                        }
                    }
                }
                i = i + 1;
            },
            Err(e) => {
                return Err(e);
            },
        }
    }
    proof {
        let now = layers@.map_values(|l: SavedSample| l@);
        assert forall|k: int| 0 <= k < now.len() implies sample_wf(#[trigger] now[k], ninputs as int, ncols as int) by {
            assert(now[k] == layers@[k]@);
        }
        assert forall|ms: Seq<SampleModel>|
            ms.len() == count && #[trigger] samples_at(d, p, ms, ninputs as int, ncols as int) implies now == ms by {
            assert(ms.take(count as int) =~= ms);
        }
    }
    Ok(layers)
}

/// Number of input columns a history step holds: the columns of every
/// visible layer.
pub open spec fn inputs_len(ls: Seq<ActorLayerModel>) -> int
    decreases ls.len(),
{
    if ls.len() == 0 {
        0
    } else {
        inputs_len(ls.drop_last()) + cols(ls.last().size)
    }
}

proof fn lemma_inputs_len_prefix(ls: Seq<ActorLayerModel>, j: int)
    requires
        0 <= j <= ls.len(),
        forall|i: int| 0 <= i < ls.len() ==> cols(#[trigger] ls[i].size) >= 0,
    ensures
        0 <= inputs_len(ls.take(j)) <= inputs_len(ls),
    decreases ls.len(),
{
    if ls.len() == 0 {
        assert(ls.take(j) =~= ls);
    } else {
        let dl = ls.drop_last();
        let j2 = if j < ls.len() { j } else { ls.len() - 1 };
        assert forall|i: int| 0 <= i < dl.len() implies cols(#[trigger] dl[i].size) >= 0 by {
            assert(dl[i] == ls[i]);
        }
        lemma_inputs_len_prefix(dl, j2);
        assert(cols(ls[ls.len() - 1].size) >= 0);
        if j == ls.len() {
            assert(ls.take(j) =~= ls);
            assert(dl.take(j2) =~= dl);
        } else {
            assert(dl.take(j) =~= ls.take(j));
        }
    }
}

/// The number of input columns of a history step over `layers`.
fn sample_inputs_len(layers: &Vec<SavedActorLayer>, bound: usize) -> (r: Option<usize>)
    ensures
        r matches Some(n) ==> n == inputs_len(layers@.map_values(|l: SavedActorLayer| l@)) && forall|i: int|
            0 <= i < layers@.len() ==> cols(#[trigger] layers@[i].size) >= 0,
        r is Some <== ((forall|i: int| 0 <= i < layers@.len() ==> cols(#[trigger] layers@[i].size) >= 0)
            && inputs_len(layers@.map_values(|l: SavedActorLayer| l@)) <= bound),
{
    let ghost ls = layers@.map_values(|l: SavedActorLayer| l@);
    let mut acc: usize = 0;
    let mut i: usize = 0;
    while i < layers.len()
        invariant
            ls == layers@.map_values(|l: SavedActorLayer| l@),
            i <= layers@.len(),
            acc == inputs_len(ls.take(i as int)),
            forall|k: int| 0 <= k < i ==> cols(#[trigger] layers@[k].size) >= 0,
        decreases layers@.len() - i,
    {
        proof {
            assert(ls.take(i + 1).drop_last() =~= ls.take(i as int));
            assert(ls[i as int].size == layers@[i as int].size);
        }
        let c = match cols_len(layers[i].size) {
            Some(c) => c,
            None => {
                proof {
                    if (forall|k: int| 0 <= k < layers@.len() ==> cols(#[trigger] layers@[k].size) >= 0)
                        && inputs_len(ls) <= bound {
                        assert(forall|k: int| 0 <= k < ls.len() ==> cols(#[trigger] ls[k].size) >= 0) by {
                            assert forall|k: int| 0 <= k < ls.len() implies cols(#[trigger] ls[k].size) >= 0 by {
                                assert(ls[k].size == layers@[k].size);
                            }
                        }
                        lemma_inputs_len_prefix(ls, i + 1);
                    }
                }
                return None;
            },
        };
        if acc > bound || c > bound - acc {
            proof {
                if (forall|k: int| 0 <= k < layers@.len() ==> cols(#[trigger] layers@[k].size) >= 0)
                    && inputs_len(ls) <= bound {
                    assert forall|k: int| 0 <= k < ls.len() implies cols(#[trigger] ls[k].size) >= 0 by {
                        assert(ls[k].size == layers@[k].size);
                    }
                    lemma_inputs_len_prefix(ls, i + 1);
                }
            }
            return None;
        }
        acc = acc + c;
        i = i + 1;
    }
    assert(ls.take(i as int) =~= ls);
    Some(acc)
}

/// `a * b * c` as a length, if it is one.
fn mul3_len(a: usize, b: i64, c: i64) -> (r: Option<usize>)
    requires
        -0x8000_0000 <= b <= 0x8000_0000,
        -0x8000_0000 <= c <= 0x8000_0000,
    ensures
        r == (if 0 <= a * b * c <= usize::MAX { Some((a * b * c) as usize) } else { None::<usize> }),
{
    if a == 0 || b == 0 || c == 0 {
        assert(a * b * c == 0) by (nonlinear_arith)
            requires
                a == 0 || b == 0 || c == 0,
        ;
        return Some(0);
    }
    if (b < 0) != (c < 0) {
        assert(a * b * c < 0) by (nonlinear_arith)
            requires
                a > 0,
                b != 0,
                c != 0,
                (b < 0) != (c < 0),
        ;
        return None;
    }
    let ab: i64 = if b < 0 { -b } else { b };
    let ac: i64 = if c < 0 { -c } else { c };
    assert(a * b * c == a * ab * ac) by (nonlinear_arith)
        requires
            (b < 0) == (c < 0),
            ab == (if b < 0 { -b } else { b as int }),
            ac == (if c < 0 { -c } else { c as int }),
    ;
    match mul_len(a, ab) {
        None => {
            assert(!(0 <= a * ab * ac <= usize::MAX)) by (nonlinear_arith)
                requires
                    a > 0,
                    ab >= 1,
                    ac >= 1,
                    a * ab > usize::MAX,
            ;
            None
        },
        Some(t) => {
            assert(a * ab * ac == t * ac) by (nonlinear_arith)
                requires
                    t == a * ab,
            ;
            mul_len(t, ac)
        },
    }
}

/// What a saved actor holds.
#[derive(Clone, Debug)]
pub struct SavedActor {
    /// Size of the action layer.
    pub hidden_size: Int3,
    /// Value bins of the critic head.
    pub value_size: i32,
    /// Dendrites per value cell.
    pub value_num_dendrites_per_cell: i32,
    /// Dendrites per policy cell.
    pub policy_num_dendrites_per_cell: i32,
    /// Action column states.
    pub hidden_cis: Vec<i32>,
    /// Bit patterns of the per-column values.
    pub hidden_values: Vec<u32>,
    /// Bit patterns of the per-column temporal-difference scales.
    pub td_scales: Vec<u32>,
    /// The visible layers.
    pub layers: Vec<SavedActorLayer>,
    /// Number of history steps in use.
    pub history_size: i32,
    /// Front of the history ring.
    pub history_start: i32,
    /// The history steps, newest first.
    pub samples: Vec<SavedSample>,
}

/// The contents of a [`SavedActor`].
pub struct ActorModel {
    pub hidden_size: Int3,
    pub value_size: i32,
    pub value_num_dendrites_per_cell: i32,
    pub policy_num_dendrites_per_cell: i32,
    pub hidden_cis: Seq<i32>,
    pub hidden_values: Seq<u32>,
    pub td_scales: Seq<u32>,
    pub layers: Seq<ActorLayerModel>,
    pub history_size: i32,
    pub history_start: i32,
    pub samples: Seq<SampleModel>,
}

impl View for SavedActor {
    type V = ActorModel;

    open spec fn view(&self) -> ActorModel {
        ActorModel {
            hidden_size: self.hidden_size,
            value_size: self.value_size,
            value_num_dendrites_per_cell: self.value_num_dendrites_per_cell,
            policy_num_dendrites_per_cell: self.policy_num_dendrites_per_cell,
            hidden_cis: self.hidden_cis@,
            hidden_values: self.hidden_values@,
            td_scales: self.td_scales@,
            layers: self.layers@.map_values(|l: SavedActorLayer| l@),
            history_size: self.history_size,
            history_start: self.history_start,
            samples: self.samples@.map_values(|l: SavedSample| l@),
        }
    }
}

/// Number of value dendrites of an actor.
pub open spec fn actor_value_dendrites(m: ActorModel) -> int {
    cols(m.hidden_size) * m.value_size * m.value_num_dendrites_per_cell
}

/// Number of policy dendrites of an actor.
pub open spec fn actor_policy_dendrites(m: ActorModel) -> int {
    cols(m.hidden_size) * m.hidden_size.z * m.policy_num_dendrites_per_cell
}

/// The bytes of the part of an actor before its visible layers.
pub open spec fn actor_head(
    size: Int3,
    vs: i32,
    vn: i32,
    pn: i32,
    cis: Seq<i32>,
    values: Seq<u32>,
    tds: Seq<u32>,
    count: i32,
) -> Seq<u8> {
    le_bytes_int3(size) + le_bytes_i32(vs) + le_bytes_i32(vn) + le_bytes_i32(pn) + le_bytes_i32_seq(cis)
        + le_bytes_u32_seq(values) + le_bytes_u32_seq(tds) + le_bytes_i32(count)
}

/// [`actor_head`] of an actor.
pub open spec fn actor_head_bytes(m: ActorModel) -> Seq<u8> {
    actor_head(
        m.hidden_size,
        m.value_size,
        m.value_num_dendrites_per_cell,
        m.policy_num_dendrites_per_cell,
        m.hidden_cis,
        m.hidden_values,
        m.td_scales,
        m.layers.len() as i32,
    )
}

/// The bytes of the part of an actor from its visible layers on.
pub open spec fn actor_tail_bytes(m: ActorModel) -> Seq<u8> {
    concat_map(m.layers, actor_layer_bytes_fn()) + le_bytes_i32(m.history_size) + le_bytes_i32(
        m.samples.len() as i32,
    ) + le_bytes_i32(m.history_start) + concat_map(m.samples, sample_bytes_fn())
}

/// The bytes of an actor: sizes, states, values, scales, the visible layers
/// (counted), the history size, the number of history steps, the ring's front,
/// and the history steps.
pub open spec fn actor_bytes(m: ActorModel) -> Seq<u8> {
    actor_head_bytes(m) + actor_tail_bytes(m)
}

/// The lengths and counts of `m` agree with its sizes.
pub open spec fn actor_wf(m: ActorModel) -> bool {
    &&& m.hidden_cis.len() == cols(m.hidden_size)
    &&& m.hidden_values.len() == cols(m.hidden_size)
    &&& m.td_scales.len() == cols(m.hidden_size)
    &&& m.layers.len() <= i32::MAX
    &&& m.layers.len() > 0 ==> 0 <= actor_value_dendrites(m) <= usize::MAX
    &&& m.layers.len() > 0 ==> 0 <= actor_policy_dendrites(m) <= usize::MAX
    &&& forall|i: int|
        0 <= i < m.layers.len() ==> actor_layer_wf(
            #[trigger] m.layers[i],
            actor_value_dendrites(m),
            actor_policy_dendrites(m),
        )
    &&& m.samples.len() <= i32::MAX
    &&& m.samples.len() > 0 ==> forall|i: int| 0 <= i < m.layers.len() ==> cols(#[trigger] m.layers[i].size) >= 0
    &&& forall|i: int|
        0 <= i < m.samples.len() ==> sample_wf(#[trigger] m.samples[i], inputs_len(m.layers), cols(m.hidden_size))
}

/// A well-formed actor stands in `d` at `p`.
pub open spec fn actor_at(d: Seq<u8>, p: int, m: ActorModel) -> bool {
    actor_wf(m) && at(d, p, actor_bytes(m))
}

proof fn lemma_actor_head_parts(
    d: Seq<u8>,
    p: int,
    size: Int3,
    vs: i32,
    vn: i32,
    pn: i32,
    cis: Seq<i32>,
    values: Seq<u32>,
    tds: Seq<u32>,
    count: i32,
)
    ensures
        actor_head(size, vs, vn, pn, cis, values, tds, count).len() == 28 + 4 * cis.len() + 4 * values.len() + 4
            * tds.len(),
        at(d, p, actor_head(size, vs, vn, pn, cis, values, tds, count)) <==> {
            let o1 = p + 24 + 4 * cis.len();
            let o2 = o1 + 4 * values.len();
            let o3 = o2 + 4 * tds.len();
            &&& at(d, p, le_bytes_int3(size))
            &&& at(d, p + 12, le_bytes_i32(vs))
            &&& at(d, p + 16, le_bytes_i32(vn))
            &&& at(d, p + 20, le_bytes_i32(pn))
            &&& at(d, p + 24, le_bytes_i32_seq(cis))
            &&& at(d, o1, le_bytes_u32_seq(values))
            &&& at(d, o2, le_bytes_u32_seq(tds))
            &&& at(d, o3, le_bytes_i32(count))
        },
{
    lemma_i32_seq_round_trip(cis);
    lemma_u32_seq_round_trip(values);
    lemma_u32_seq_round_trip(tds);
    let a1 = le_bytes_int3(size);
    let a2 = le_bytes_i32(vs);
    let a3 = le_bytes_i32(vn);
    let a4 = le_bytes_i32(pn);
    let a5 = le_bytes_i32_seq(cis);
    let a6 = le_bytes_u32_seq(values);
    let a7 = le_bytes_u32_seq(tds);
    let a8 = le_bytes_i32(count);
    lemma_at_split(d, p, a1 + a2 + a3 + a4 + a5 + a6 + a7, a8);
    lemma_at_split(d, p, a1 + a2 + a3 + a4 + a5 + a6, a7);
    lemma_at_split(d, p, a1 + a2 + a3 + a4 + a5, a6);
    lemma_at_split(d, p, a1 + a2 + a3 + a4, a5);
    lemma_at_split(d, p, a1 + a2 + a3, a4);
    lemma_at_split(d, p, a1 + a2, a3);
    lemma_at_split(d, p, a1, a2);
}

proof fn lemma_actor_tail_parts(d: Seq<u8>, q: int, m: ActorModel)
    ensures
        at(d, q, actor_tail_bytes(m)) <==> {
            let ls = concat_map(m.layers, actor_layer_bytes_fn());
            let o4 = q + ls.len();
            &&& at(d, q, ls)
            &&& at(d, o4, le_bytes_i32(m.history_size))
            &&& at(d, o4 + 4, le_bytes_i32(m.samples.len() as i32))
            &&& at(d, o4 + 8, le_bytes_i32(m.history_start))
            &&& at(d, o4 + 12, concat_map(m.samples, sample_bytes_fn()))
        },
{
    let a9 = concat_map(m.layers, actor_layer_bytes_fn());
    let a10 = le_bytes_i32(m.history_size);
    let a11 = le_bytes_i32(m.samples.len() as i32);
    let a12 = le_bytes_i32(m.history_start);
    let a13 = concat_map(m.samples, sample_bytes_fn());
    lemma_at_split(d, q, a9 + a10 + a11 + a12, a13);
    lemma_at_split(d, q, a9 + a10 + a11, a12);
    lemma_at_split(d, q, a9 + a10, a11);
    lemma_at_split(d, q, a9, a10);
}

proof fn lemma_actor_split(d: Seq<u8>, p: int, m: ActorModel)
    ensures
        actor_head_bytes(m).len() == 28 + 4 * m.hidden_cis.len() + 4 * m.hidden_values.len() + 4 * m.td_scales.len(),
        at(d, p, actor_bytes(m)) <==> (at(d, p, actor_head_bytes(m)) && at(
            d,
            p + actor_head_bytes(m).len(),
            actor_tail_bytes(m),
        )),
{
    lemma_actor_head_parts(
        d,
        p,
        m.hidden_size,
        m.value_size,
        m.value_num_dendrites_per_cell,
        m.policy_num_dendrites_per_cell,
        m.hidden_cis,
        m.hidden_values,
        m.td_scales,
        m.layers.len() as i32,
    );
    lemma_at_split(d, p, actor_head_bytes(m), actor_tail_bytes(m));
}

/// Write an actor.
#[verifier::rlimit(40)]
pub fn encode_actor(e: &SavedActor, w: &mut VecWriter)
    requires
        e.layers@.len() <= i32::MAX,
        e.samples@.len() <= i32::MAX,
    ensures
        final(w).data@ == old(w).data@ + actor_bytes(e@),
{
    w.write_int3(e.hidden_size);
    w.write_i32(e.value_size);
    w.write_i32(e.value_num_dendrites_per_cell);
    w.write_i32(e.policy_num_dendrites_per_cell);
    w.write_i32_slice(&e.hidden_cis);
    w.write_u32_slice(&e.hidden_values);
    w.write_u32_slice(&e.td_scales);
    w.write_i32(e.layers.len() as i32);
    assert(w.data@ =~= old(w).data@ + actor_head_bytes(e@));
    let ghost base = w.data@;
    let ghost ls = e@.layers;
    let mut i: usize = 0;
    while i < e.layers.len()
        invariant
            i <= e.layers@.len(),
            ls == e@.layers,
            ls.len() == e.layers@.len(),
            w.data@ == base + concat_map(ls.take(i as int), actor_layer_bytes_fn()),
        decreases e.layers@.len() - i,
    {
        encode_actor_layer(&e.layers[i], w);
        proof {
            lemma_concat_map_step(ls, actor_layer_bytes_fn(), i as int);
        }
        i = i + 1;
        assert(w.data@ =~= base + concat_map(ls.take(i as int), actor_layer_bytes_fn()));
    }
    assert(ls.take(i as int) =~= ls);
    w.write_i32(e.history_size);
    w.write_i32(e.samples.len() as i32);
    w.write_i32(e.history_start);
    let ghost base2 = w.data@;
    let ghost ss = e@.samples;
    let mut j: usize = 0;
    while j < e.samples.len()
        invariant
            j <= e.samples@.len(),
            ss == e@.samples,
            ss.len() == e.samples@.len(),
            w.data@ == base2 + concat_map(ss.take(j as int), sample_bytes_fn()),
        decreases e.samples@.len() - j,
    {
        encode_sample(&e.samples[j], w);
        proof {
            lemma_concat_map_step(ss, sample_bytes_fn(), j as int);
        }
        j = j + 1;
        assert(w.data@ =~= base2 + concat_map(ss.take(j as int), sample_bytes_fn()));
    }
    assert(ss.take(j as int) =~= ss);
    assert(w.data@ =~= old(w).data@ + actor_head_bytes(e@) + actor_tail_bytes(e@));
}

/// Read an actor.
pub fn decode_actor(r: &mut SliceReader) -> (res: Result<SavedActor, ReadError>)
    ensures
        res is Err ==> (res == Err::<SavedActor, ReadError>(ReadError::Truncated) || res == Err::<SavedActor, ReadError>(ReadError::BadSize)),
        final(r).data@ == old(r).data@,
        res matches Ok(v) ==> actor_at(old(r).data@, old(r).pos as int, v@) && final(r).pos == old(
            r,
        ).pos + actor_bytes(v@).len(),
        forall|m: ActorModel| #[trigger] actor_at(old(r).data@, old(r).pos as int, m) ==> (res is Ok
            && res->Ok_0@ == m),
{
    let ghost d = r.data@;
    let ghost p = r.pos as int;
    let dl = r.data.len();
    proof {
        assert forall|m: ActorModel| #[trigger] actor_at(d, p, m) implies at(d, p, actor_head_bytes(m)) by {
            lemma_actor_split(d, p, m);
        }
    }
    match decode_actor_head(r) {
        Ok((size, vs, vn, pn, cis, values, tds, count, ncols)) => {
            proof {
                lemma_actor_head_parts(d, p, size, vs, vn, pn, cis@, values@, tds@, count);
                assert forall|m: ActorModel| #[trigger] actor_at(d, p, m) implies at(
                    d,
                    p + 28 + 12 * ncols,
                    actor_tail_bytes(m),
                ) by {
                    lemma_actor_split(d, p, m);
                }
            }
            decode_actor_rest(r, Ghost(d), Ghost(p), size, vs, vn, pn, cis, values, tds, count, ncols, dl)
        },
        Err(e) => Err(e),
    }
}

fn decode_actor_head(r: &mut SliceReader) -> (res: Result<(Int3, i32, i32, i32, Vec<i32>, Vec<u32>, Vec<u32>, i32, usize), ReadError>)
    ensures
        res is Err ==> (res == Err::<(Int3, i32, i32, i32, Vec<i32>, Vec<u32>, Vec<u32>, i32, usize), ReadError>(ReadError::Truncated) || res == Err::<(Int3, i32, i32, i32, Vec<i32>, Vec<u32>, Vec<u32>, i32, usize), ReadError>(ReadError::BadSize)),
        final(r).data@ == old(r).data@,
        res matches Ok((size, vs, vn, pn, cis, values, tds, count, ncols)) ==> {
            &&& ncols == cols(size)
            &&& cis@.len() == ncols
            &&& values@.len() == ncols
            &&& tds@.len() == ncols
            &&& 0 <= count
            &&& at(old(r).data@, old(r).pos as int, actor_head(size, vs, vn, pn, cis@, values@, tds@, count))
            &&& final(r).pos == old(r).pos + 28 + 12 * ncols
            &&& forall|m: ActorModel| #[trigger] actor_at(old(r).data@, old(r).pos as int, m) ==> {
                &&& m.hidden_size == size
                &&& m.value_size == vs
                &&& m.value_num_dendrites_per_cell == vn
                &&& m.policy_num_dendrites_per_cell == pn
                &&& m.hidden_cis == cis@
                &&& m.hidden_values == values@
                &&& m.td_scales == tds@
                &&& m.layers.len() == count
            }
        },
        res is Err ==> forall|m: ActorModel| !#[trigger] actor_at(old(r).data@, old(r).pos as int, m),
{
    let ghost d = r.data@;
    let ghost p = r.pos as int;
    let dl = r.data.len();
    proof {
        assert forall|m: ActorModel| #[trigger] actor_at(d, p, m) implies {
            let o1 = p + 24 + 4 * m.hidden_cis.len();
            let o2 = o1 + 4 * m.hidden_values.len();
            let o3 = o2 + 4 * m.td_scales.len();
            &&& at(d, p, le_bytes_int3(m.hidden_size))
            &&& at(d, p + 12, le_bytes_i32(m.value_size))
            &&& at(d, p + 16, le_bytes_i32(m.value_num_dendrites_per_cell))
            &&& at(d, p + 20, le_bytes_i32(m.policy_num_dendrites_per_cell))
            &&& at(d, p + 24, le_bytes_i32_seq(m.hidden_cis))
            &&& at(d, o1, le_bytes_u32_seq(m.hidden_values))
            &&& at(d, o2, le_bytes_u32_seq(m.td_scales))
            &&& at(d, o3, le_bytes_i32(m.layers.len() as i32))
        } by {
            lemma_actor_split(d, p, m);
            lemma_actor_head_parts(
                d,
                p,
                m.hidden_size,
                m.value_size,
                m.value_num_dendrites_per_cell,
                m.policy_num_dendrites_per_cell,
                m.hidden_cis,
                m.hidden_values,
                m.td_scales,
                m.layers.len() as i32,
            );
        }
    }
    let size = get_int3(r)?;
    let vs = get_i32(r)?;
    let vn = get_i32(r)?;
    let pn = get_i32(r)?;
    let ncols = match cols_len(size) {
        Some(n) => n,
        None => {
            proof {
                assert forall|m: ActorModel| !#[trigger] actor_at(d, p, m) by {
                    if actor_at(d, p, m) {
                        assert(m.hidden_size == size);
                        lemma_i32_seq_round_trip(m.hidden_cis);
                        assert(le_bytes_i32_seq(m.hidden_cis).len() <= dl);
                    }
                }
            }
            return Err(ReadError::BadSize);
        },
    };
    let cis = get_i32s(r, ncols)?;
    let values = get_u32s(r, ncols)?;
    let tds = get_u32s(r, ncols)?;
    let count = get_i32(r)?;
    if count < 0 {
        return Err(ReadError::BadSize);
    }
    proof {
        lemma_i32_seq_round_trip(cis@);
        lemma_u32_seq_round_trip(values@);
        lemma_u32_seq_round_trip(tds@);
        lemma_actor_head_parts(d, p, size, vs, vn, pn, cis@, values@, tds@, count);
    }
    Ok((size, vs, vn, pn, cis, values, tds, count, ncols))
}

#[verifier::rlimit(100)]
fn decode_actor_rest(
    r: &mut SliceReader,
    Ghost(d): Ghost<Seq<u8>>,
    Ghost(p): Ghost<int>,
    size: Int3,
    vs: i32,
    vn: i32,
    pn: i32,
    cis: Vec<i32>,
    values: Vec<u32>,
    tds: Vec<u32>,
    count: i32,
    ncols: usize,
    dl: usize,
) -> (res: Result<SavedActor, ReadError>)
    requires
        old(r).data@ == d,
        dl == d.len(),
        0 <= count,
        ncols == cols(size),
        cis@.len() == ncols,
        values@.len() == ncols,
        tds@.len() == ncols,
        old(r).pos == p + 28 + 12 * ncols,
        at(d, p, actor_head(size, vs, vn, pn, cis@, values@, tds@, count)),
        forall|m: ActorModel| #[trigger] actor_at(d, p, m) ==> {
            &&& m.hidden_size == size
            &&& m.value_size == vs
            &&& m.value_num_dendrites_per_cell == vn
            &&& m.policy_num_dendrites_per_cell == pn
            &&& m.hidden_cis == cis@
            &&& m.hidden_values == values@
            &&& m.td_scales == tds@
            &&& m.layers.len() == count
            &&& at(d, p + 28 + 12 * ncols, actor_tail_bytes(m))
        },
    ensures
        res is Err ==> (res == Err::<SavedActor, ReadError>(ReadError::Truncated) || res == Err::<SavedActor, ReadError>(ReadError::BadSize)),
        final(r).data@ == d,
        res matches Ok(v) ==> actor_at(d, p, v@) && final(r).pos == p + actor_bytes(v@).len(),
        forall|m: ActorModel| #[trigger] actor_at(d, p, m) ==> (res is Ok && res->Ok_0@ == m),
{
    let ghost p1 = r.pos as int;
    proof {
        assert forall|m: ActorModel| #[trigger] actor_at(d, p, m) implies at(d, p1, concat_map(m.layers, actor_layer_bytes_fn())) by {
            lemma_actor_tail_parts(d, p1, m);
        }
    }
    let mut vd: usize = 0;
    let mut pd: usize = 0;
    if count > 0 {
        match (mul3_len(ncols, vs as i64, vn as i64), mul3_len(ncols, size.z as i64, pn as i64)) {
            (Some(a), Some(b)) => {
                vd = a;
                pd = b;
            },
            _ => {
                return Err(ReadError::BadSize);
            },
        }
    }
    proof {
        assert forall|m: ActorModel| #[trigger] actor_at(d, p, m) implies actor_layers_at(d, p1, m.layers, vd as int, pd as int) by {
            if count > 0 {
                assert(vd == actor_value_dendrites(m));
                assert(pd == actor_policy_dendrites(m));
            }
        }
    }
    let layers = decode_actor_layers(r, count as usize, vd, pd)?;
    let ghost lm = layers@.map_values(|l: SavedActorLayer| l@);
    let ghost p2 = r.pos as int;
    proof {
        assert forall|m: ActorModel| #[trigger] actor_at(d, p, m) implies m.layers == lm && at(d, p2, le_bytes_i32(m.history_size))
            && at(d, p2 + 4, le_bytes_i32(m.samples.len() as i32)) && at(d, p2 + 8, le_bytes_i32(m.history_start))
            && at(d, p2 + 12, concat_map(m.samples, sample_bytes_fn())) by {
            lemma_actor_tail_parts(d, p1, m);
        }
    }
    let history_size = get_i32(r)?;
    let nsamples = get_i32(r)?;
    let start = get_i32(r)?;
    if nsamples < 0 {
        return Err(ReadError::BadSize);
    }
    let mut ninputs: usize = 0;
    if nsamples > 0 {
        match sample_inputs_len(&layers, dl) {
            Some(n) => {
                ninputs = n;
            },
            None => {
                proof {
                    assert forall|m: ActorModel| !#[trigger] actor_at(d, p, m) by {
                        if actor_at(d, p, m) {
                            assert(m.samples.len() > 0);
                            assert(sample_wf(m.samples[0], inputs_len(m.layers), cols(m.hidden_size)));
                            lemma_concat_map_at(d, p2 + 12, m.samples, sample_bytes_fn(), 0);
                            lemma_sample_parts(d, p2 + 12 + concat_map(m.samples.take(0), sample_bytes_fn()).len(), m.samples[0]);
                            lemma_i32_seq_round_trip(m.samples[0].inputs);
                            assert forall|i: int| 0 <= i < layers@.len() implies cols(#[trigger] layers@[i].size) >= 0 by {
                                assert(lm[i].size == layers@[i].size);
                                assert(cols(m.layers[i].size) >= 0);
                            }
                        }
                    }
                }
                return Err(ReadError::BadSize);
            },
        }
    }
    let ghost p3 = r.pos as int;
    proof {
        assert forall|m: ActorModel| #[trigger] actor_at(d, p, m) implies samples_at(d, p3, m.samples, ninputs as int, ncols as int) by {
            if nsamples > 0 {
                assert(ninputs == inputs_len(m.layers));
            }
        }
    }
    let samples = decode_samples(r, nsamples as usize, ninputs, ncols)?;
    let v = SavedActor {
        hidden_size: size,
        value_size: vs,
        value_num_dendrites_per_cell: vn,
        policy_num_dendrites_per_cell: pn,
        hidden_cis: cis,
        hidden_values: values,
        td_scales: tds,
        layers,
        history_size,
        history_start: start,
        samples,
    };
    proof {
        assert forall|m: ActorModel| #[trigger] actor_at(d, p, m) implies v@ == m by {
            assert(samples_at(d, p3, m.samples, ninputs as int, ncols as int));
        }
        assert(v@.layers.len() == count);
        assert((v@.layers.len() as i32) == count);
        assert((v@.samples.len() as i32) == nsamples);
        assert(actor_head_bytes(v@) == actor_head(size, vs, vn, pn, cis@, values@, tds@, count));
        assert(at(d, p1, actor_tail_bytes(v@))) by {
            lemma_actor_tail_parts(d, p1, v@);
        }
        assert(at(d, p, actor_bytes(v@))) by {
            lemma_actor_split(d, p, v@);
        }
        lemma_actor_split(d, p, v@);
        assert(v@.layers == lm);
        assert(actor_tail_bytes(v@).len() == concat_map(lm, actor_layer_bytes_fn()).len() + 12 + concat_map(
            v@.samples,
            sample_bytes_fn(),
        ).len());
        assert(actor_bytes(v@).len() == actor_head_bytes(v@).len() + actor_tail_bytes(v@).len());
        if count > 0 {
            assert(vd == actor_value_dendrites(v@));
            assert(pd == actor_policy_dendrites(v@));
        }
        if nsamples > 0 {
            assert(ninputs == inputs_len(v@.layers));
            assert forall|i: int| 0 <= i < v@.layers.len() implies cols(#[trigger] v@.layers[i].size) >= 0 by {
                assert(v@.layers[i].size == layers@[i].size);
            }
        }
        assert(actor_wf(v@));
    }
    Ok(v)
}

// --- Hierarchy ---

/// [`le_bytes_int3`] as a function value.
pub open spec fn int3_bytes_fn() -> spec_fn(Int3) -> Seq<u8> {
    |v: Int3| le_bytes_int3(v)
}

fn decode_int3s(r: &mut SliceReader, count: usize) -> (res: Result<Vec<Int3>, ReadError>)
    ensures
        res is Err ==> res == Err::<Vec<Int3>, ReadError>(ReadError::Truncated),
        final(r).data@ == old(r).data@,
        res matches Ok(v) ==> v@.len() == count && at(old(r).data@, old(r).pos as int, concat_map(v@, int3_bytes_fn()))
            && final(r).pos == old(r).pos + concat_map(v@, int3_bytes_fn()).len(),
        forall|ms: Seq<Int3>|
            ms.len() == count && #[trigger] at(old(r).data@, old(r).pos as int, concat_map(ms, int3_bytes_fn()))
                ==> (res is Ok && res->Ok_0@ == ms),
{
    let ghost d = r.data@;
    let ghost p = r.pos as int;
    let ghost f = int3_bytes_fn();
    let mut items: Vec<Int3> = Vec::new();
    if r.pos > r.data.len() {
        return Err(ReadError::Truncated);
    }
    proof {
        assert(d.subrange(p, p) =~= Seq::<u8>::empty());
    }
    let mut i: usize = 0;
    while i < count
        invariant
            d == old(r).data@,
            p == old(r).pos,
            r.data@ == d,
            f == int3_bytes_fn(),
            i <= count,
            items@.len() == i,
            at(d, p, concat_map(items@, f)),
            r.pos == p + concat_map(items@, f).len(),
            forall|ms: Seq<Int3>|
                ms.len() == count && #[trigger] at(d, p, concat_map(ms, f)) ==> ms.take(i as int) == items@,
        decreases count - i,
    {
        let ghost done = items@;
        let ghost q = r.pos as int;
        proof {
            assert forall|ms: Seq<Int3>|
                ms.len() == count && #[trigger] at(d, p, concat_map(ms, f)) implies at(d, q, le_bytes_int3(ms[i as int])) by {
                lemma_concat_map_at(d, p, ms, f, i as int);
            }
        }
        match get_int3(r) {
            Ok(l) => {
                items.push(l);
                proof {
                    assert(items@.drop_last() =~= done);
                    lemma_at_split(d, p, concat_map(done, f), f(l));
                    assert forall|ms: Seq<Int3>|
                        ms.len() == count && #[trigger] at(d, p, concat_map(ms, f)) implies ms.take(i + 1) == items@ by {
                        assert(ms.take(i + 1) =~= ms.take(i as int).push(ms[i as int]));
                    }
                }
                i = i + 1;
            },
            Err(e) => {
                return Err(e);
            },
        }
    }
    proof {
        assert forall|ms: Seq<Int3>|
            ms.len() == count && #[trigger] at(d, p, concat_map(ms, f)) implies items@ == ms by {
            assert(ms.take(count as int) =~= ms);
        }
    }
    Ok(items)
}

/// [`decoder_bytes`] as a function value.
pub open spec fn decoder_bytes_fn() -> spec_fn(DecoderModel) -> Seq<u8> {
    |m: DecoderModel| decoder_bytes(m)
}

/// [`actor_bytes`] as a function value.
pub open spec fn actor_bytes_fn() -> spec_fn(ActorModel) -> Seq<u8> {
    |m: ActorModel| actor_bytes(m)
}

/// `ms` are well-formed and stand, one after another, in `d` at `p`.
pub open spec fn decoders_at(d: Seq<u8>, p: int, ms: Seq<DecoderModel>) -> bool {
    &&& forall|i: int| 0 <= i < ms.len() ==> decoder_wf(#[trigger] ms[i])
    &&& at(d, p, concat_map(ms, decoder_bytes_fn()))
}

fn decode_decoders(r: &mut SliceReader, count: usize) -> (res: Result<Vec<SavedDecoder>, ReadError>)
    ensures
        res is Err ==> (res == Err::<Vec<SavedDecoder>, ReadError>(ReadError::Truncated) || res == Err::<Vec<SavedDecoder>, ReadError>(ReadError::BadSize)),
        final(r).data@ == old(r).data@,
        res matches Ok(v) ==> v@.len() == count && decoders_at(
            old(r).data@,
            old(r).pos as int,
            v@.map_values(|l: SavedDecoder| l@)
        ) && final(r).pos == old(r).pos + concat_map(
            v@.map_values(|l: SavedDecoder| l@),
            decoder_bytes_fn(),
        ).len(),
        forall|ms: Seq<DecoderModel>|
            ms.len() == count && #[trigger] decoders_at(old(r).data@, old(r).pos as int, ms)
                ==> (res is Ok && res->Ok_0@.map_values(|l: SavedDecoder| l@) == ms),
{
    let ghost d = r.data@;
    let ghost p = r.pos as int;
    let ghost f = decoder_bytes_fn();
    let mut items: Vec<SavedDecoder> = Vec::new();
    if r.pos > r.data.len() {
        return Err(ReadError::Truncated);
    }
    proof {
        assert(items@.map_values(|l: SavedDecoder| l@) =~= Seq::<DecoderModel>::empty());
        assert(d.subrange(p, p) =~= Seq::<u8>::empty());
    }
    let mut i: usize = 0;
    while i < count
        invariant
            d == old(r).data@,
            p == old(r).pos,
            r.data@ == d,
            f == decoder_bytes_fn(),
            i <= count,
            items@.len() == i,
            at(d, p, concat_map(items@.map_values(|l: SavedDecoder| l@), f)),
            r.pos == p + concat_map(items@.map_values(|l: SavedDecoder| l@), f).len(),
            forall|k: int| 0 <= k < i ==> decoder_wf(#[trigger] items@[k]@),
            forall|ms: Seq<DecoderModel>|
                ms.len() == count && #[trigger] decoders_at(d, p, ms) ==> ms.take(i as int)
                    == items@.map_values(|l: SavedDecoder| l@),
        decreases count - i,
    {
        let ghost done = items@.map_values(|l: SavedDecoder| l@);
        let ghost before = items@;
        let ghost q = r.pos as int;
        proof {
            assert forall|ms: Seq<DecoderModel>|
                ms.len() == count && #[trigger] decoders_at(d, p, ms) implies decoder_at(d, q, ms[i as int]) by {
                lemma_concat_map_at(d, p, ms, f, i as int);
            }
        }
        match decode_decoder(r) {
            Ok(l) => {
                items.push(l);
                proof {
                    let now = items@.map_values(|l: SavedDecoder| l@);
                    assert(now =~= done.push(l@));
                    assert(now.drop_last() =~= done);
                    lemma_at_split(d, p, concat_map(done, f), f(l@));
                    assert forall|ms: Seq<DecoderModel>|
                        ms.len() == count && #[trigger] decoders_at(d, p, ms) implies ms.take(
                        i + 1,
                    ) == now by {
                        assert(ms.take(i + 1) =~= ms.take(i as int).push(ms[i as int]));
                    }
                    assert forall|k: int| 0 <= k < i + 1 implies decoder_wf(#[trigger] items@[k]@) by {
                        if k < i {
                            assert(items@[k] == before[k]);
                        }
                    }
                }
                i = i + 1;
            },
            Err(e) => {
                return Err(e);
            },
        }
    }
    proof {
        let now = items@.map_values(|l: SavedDecoder| l@);
        assert forall|k: int| 0 <= k < now.len() implies decoder_wf(#[trigger] now[k]) by {
            assert(now[k] == items@[k]@);
        }
        assert forall|ms: Seq<DecoderModel>|
            ms.len() == count && #[trigger] decoders_at(d, p, ms) implies now == ms by {
            assert(ms.take(count as int) =~= ms);
        }
    }
    Ok(items)
}

/// `ms` are well-formed and stand, one after another, in `d` at `p`.
pub open spec fn actors_at(d: Seq<u8>, p: int, ms: Seq<ActorModel>) -> bool {
    &&& forall|i: int| 0 <= i < ms.len() ==> actor_wf(#[trigger] ms[i])
    &&& at(d, p, concat_map(ms, actor_bytes_fn()))
}

fn decode_actors(r: &mut SliceReader, count: usize) -> (res: Result<Vec<SavedActor>, ReadError>)
    ensures
        res is Err ==> (res == Err::<Vec<SavedActor>, ReadError>(ReadError::Truncated) || res == Err::<Vec<SavedActor>, ReadError>(ReadError::BadSize)),
        final(r).data@ == old(r).data@,
        res matches Ok(v) ==> v@.len() == count && actors_at(
            old(r).data@,
            old(r).pos as int,
            v@.map_values(|l: SavedActor| l@)
        ) && final(r).pos == old(r).pos + concat_map(
            v@.map_values(|l: SavedActor| l@),
            actor_bytes_fn(),
        ).len(),
        forall|ms: Seq<ActorModel>|
            ms.len() == count && #[trigger] actors_at(old(r).data@, old(r).pos as int, ms)
                ==> (res is Ok && res->Ok_0@.map_values(|l: SavedActor| l@) == ms),
{
    let ghost d = r.data@;
    let ghost p = r.pos as int;
    let ghost f = actor_bytes_fn();
    let mut items: Vec<SavedActor> = Vec::new();
    if r.pos > r.data.len() {
        return Err(ReadError::Truncated);
    }
    proof {
        assert(items@.map_values(|l: SavedActor| l@) =~= Seq::<ActorModel>::empty());
        assert(d.subrange(p, p) =~= Seq::<u8>::empty());
    }
    let mut i: usize = 0;
    while i < count
        invariant
            d == old(r).data@,
            p == old(r).pos,
            r.data@ == d,
            f == actor_bytes_fn(),
            i <= count,
            items@.len() == i,
            at(d, p, concat_map(items@.map_values(|l: SavedActor| l@), f)),
            r.pos == p + concat_map(items@.map_values(|l: SavedActor| l@), f).len(),
            forall|k: int| 0 <= k < i ==> actor_wf(#[trigger] items@[k]@),
            forall|ms: Seq<ActorModel>|
                ms.len() == count && #[trigger] actors_at(d, p, ms) ==> ms.take(i as int)
                    == items@.map_values(|l: SavedActor| l@),
        decreases count - i,
    {
        let ghost done = items@.map_values(|l: SavedActor| l@);
        let ghost before = items@;
        let ghost q = r.pos as int;
        proof {
            assert forall|ms: Seq<ActorModel>|
                ms.len() == count && #[trigger] actors_at(d, p, ms) implies actor_at(d, q, ms[i as int]) by {
                lemma_concat_map_at(d, p, ms, f, i as int);
            }
        }
        match decode_actor(r) {
            Ok(l) => {
                items.push(l);
                proof {
                    let now = items@.map_values(|l: SavedActor| l@);
                    assert(now =~= done.push(l@));
                    assert(now.drop_last() =~= done);
                    lemma_at_split(d, p, concat_map(done, f), f(l@));
                    assert forall|ms: Seq<ActorModel>|
                        ms.len() == count && #[trigger] actors_at(d, p, ms) implies ms.take(
                        i + 1,
                    ) == now by {
                        assert(ms.take(i + 1) =~= ms.take(i as int).push(ms[i as int]));
                    }
                    assert forall|k: int| 0 <= k < i + 1 implies actor_wf(#[trigger] items@[k]@) by {
                        if k < i {
                            assert(items@[k] == before[k]);
                        }
                    }
                }
                i = i + 1;
            },
            Err(e) => {
                return Err(e);
            },
        }
    }
    proof {
        let now = items@.map_values(|l: SavedActor| l@);
        assert forall|k: int| 0 <= k < now.len() implies actor_wf(#[trigger] now[k]) by {
            assert(now[k] == items@[k]@);
        }
        assert forall|ms: Seq<ActorModel>|
            ms.len() == count && #[trigger] actors_at(d, p, ms) implies now == ms by {
            assert(ms.take(count as int) =~= ms);
        }
    }
    Ok(items)
}

/// What a saved hierarchy holds for one layer: its encoder and its decoders.
#[derive(Clone, Debug)]
pub struct SavedLayer {
    /// The layer's encoder.
    pub encoder: SavedEncoder,
    /// The layer's decoders.
    pub decoders: Vec<SavedDecoder>,
}

/// The contents of a [`SavedLayer`].
pub struct LayerModel {
    pub encoder: EncoderModel,
    pub decoders: Seq<DecoderModel>,
}

impl View for SavedLayer {
    type V = LayerModel;

    open spec fn view(&self) -> LayerModel {
        LayerModel {
            encoder: self.encoder@,
            decoders: self.decoders@.map_values(|l: SavedDecoder| l@),
        }
    }
}

/// The bytes of a layer: its encoder, then its decoders.
pub open spec fn layer_bytes(m: LayerModel) -> Seq<u8> {
    encoder_bytes(m.encoder) + concat_map(m.decoders, decoder_bytes_fn())
}

/// [`layer_bytes`] as a function value.
pub open spec fn layer_bytes_fn() -> spec_fn(LayerModel) -> Seq<u8> {
    |m: LayerModel| layer_bytes(m)
}

/// `m` is a well-formed layer with `ndec` decoders.
pub open spec fn layer_wf(m: LayerModel, ndec: int) -> bool {
    &&& encoder_wf(m.encoder)
    &&& m.decoders.len() == ndec
    &&& forall|i: int| 0 <= i < m.decoders.len() ==> decoder_wf(#[trigger] m.decoders[i])
}

/// Decoders of layer `l` of a hierarchy with `np` prediction ports.
pub open spec fn layer_decoders(l: int, np: int) -> int {
    if l == 0 {
        np
    } else {
        1
    }
}

/// A hierarchy laid out as [`plan_hierarchy`] lays it out has, in every
/// layer, as many decoders as the reader expects there: the bottom layer one
/// per prediction port, every higher layer exactly one.
pub proof fn lemma_planned_layers_match_reader(t: Topology, io: Seq<IoDesc>, ld: Seq<LayerDesc>, l: int)
    requires
        topology_is(t, io, ld),
        0 <= l < ld.len(),
    ensures
        t.layers@[l].decoders@.len() == layer_decoders(
            l,
            count_type(io, IoType::Prediction, io.len() as int) as int,
        ),
        l > 0 ==> t.layers@[l].decoders@.len() == 1,
        l == 0 ==> t.layers@[l].decoders@.len() == count_type(io, IoType::Prediction, io.len() as int),
{
    assert(layer_plan_is(t.layers@[l], io, ld, l));
}

/// A well-formed layer stands in `d` at `p`.
pub open spec fn layer_at(d: Seq<u8>, p: int, m: LayerModel, ndec: int) -> bool {
    layer_wf(m, ndec) && at(d, p, layer_bytes(m))
}

/// Write a layer.
pub fn encode_layer(l: &SavedLayer, w: &mut VecWriter)
    requires
        l.encoder.layers@.len() <= i32::MAX,
        forall|i: int| 0 <= i < l.decoders@.len() ==> (#[trigger] l.decoders@[i]).layers@.len() <= i32::MAX,
    ensures
        final(w).data@ == old(w).data@ + layer_bytes(l@),
{
    encode_encoder(&l.encoder, w);
    let ghost base = w.data@;
    let ghost ls = l@.decoders;
    let mut i: usize = 0;
    while i < l.decoders.len()
        invariant
            i <= l.decoders@.len(),
            ls == l@.decoders,
            ls.len() == l.decoders@.len(),
            forall|i: int| 0 <= i < l.decoders@.len() ==> (#[trigger] l.decoders@[i]).layers@.len() <= i32::MAX,
            w.data@ == base + concat_map(ls.take(i as int), decoder_bytes_fn()),
        decreases l.decoders@.len() - i,
    {
        encode_decoder(&l.decoders[i], w);
        proof {
            lemma_concat_map_step(ls, decoder_bytes_fn(), i as int);
        }
        i = i + 1;
        assert(w.data@ =~= base + concat_map(ls.take(i as int), decoder_bytes_fn()));
    }
    assert(ls.take(i as int) =~= ls);
    assert(w.data@ =~= old(w).data@ + layer_bytes(l@));
}

/// Read a layer with `ndec` decoders.
pub fn decode_layer(r: &mut SliceReader, ndec: usize) -> (res: Result<SavedLayer, ReadError>)
    ensures
        res is Err ==> (res == Err::<SavedLayer, ReadError>(ReadError::Truncated) || res == Err::<SavedLayer, ReadError>(ReadError::BadSize)),
        final(r).data@ == old(r).data@,
        res matches Ok(v) ==> layer_at(old(r).data@, old(r).pos as int, v@, ndec as int) && final(r).pos == old(
            r,
        ).pos + layer_bytes(v@).len(),
        forall|m: LayerModel| #[trigger] layer_at(old(r).data@, old(r).pos as int, m, ndec as int) ==> (res is Ok
            && res->Ok_0@ == m),
{
    let ghost d = r.data@;
    let ghost p = r.pos as int;
    proof {
        assert forall|m: LayerModel| #[trigger] layer_at(d, p, m, ndec as int) implies encoder_at(d, p, m.encoder) by {
            lemma_at_split(d, p, encoder_bytes(m.encoder), concat_map(m.decoders, decoder_bytes_fn()));
        }
    }
    let encoder = decode_encoder(r)?;
    let ghost q = r.pos as int;
    proof {
        assert forall|m: LayerModel| #[trigger] layer_at(d, p, m, ndec as int) implies m.encoder == encoder@ && decoders_at(
            d,
            q,
            m.decoders,
        ) by {
            lemma_at_split(d, p, encoder_bytes(m.encoder), concat_map(m.decoders, decoder_bytes_fn()));
        }
    }
    let decoders = decode_decoders(r, ndec)?;
    let v = SavedLayer { encoder, decoders };
    proof {
        lemma_at_split(d, p, encoder_bytes(v@.encoder), concat_map(v@.decoders, decoder_bytes_fn()));
        assert forall|i: int| 0 <= i < v@.decoders.len() implies decoder_wf(#[trigger] v@.decoders[i]) by {
            assert(decoders_at(d, q, v@.decoders));
        }
    }
    Ok(v)
}

/// `ms` are well-formed and stand, one after another, in `d` at `p`.
pub open spec fn layers_at(d: Seq<u8>, p: int, ms: Seq<LayerModel>, np: int) -> bool {
    &&& forall|i: int| 0 <= i < ms.len() ==> layer_wf(#[trigger] ms[i], layer_decoders(i, np as int))
    &&& at(d, p, concat_map(ms, layer_bytes_fn()))
}

fn decode_layers(r: &mut SliceReader, count: usize, np: usize) -> (res: Result<Vec<SavedLayer>, ReadError>)
    ensures
        res is Err ==> (res == Err::<Vec<SavedLayer>, ReadError>(ReadError::Truncated) || res == Err::<Vec<SavedLayer>, ReadError>(ReadError::BadSize)),
        final(r).data@ == old(r).data@,
        res matches Ok(v) ==> v@.len() == count && layers_at(
            old(r).data@,
            old(r).pos as int,
            v@.map_values(|l: SavedLayer| l@), np as int
        ) && final(r).pos == old(r).pos + concat_map(
            v@.map_values(|l: SavedLayer| l@),
            layer_bytes_fn(),
        ).len(),
        forall|ms: Seq<LayerModel>|
            ms.len() == count && #[trigger] layers_at(old(r).data@, old(r).pos as int, ms, np as int)
                ==> (res is Ok && res->Ok_0@.map_values(|l: SavedLayer| l@) == ms),
{
    let ghost d = r.data@;
    let ghost p = r.pos as int;
    let ghost f = layer_bytes_fn();
    let mut items: Vec<SavedLayer> = Vec::new();
    if r.pos > r.data.len() {
        return Err(ReadError::Truncated);
    }
    proof {
        assert(items@.map_values(|l: SavedLayer| l@) =~= Seq::<LayerModel>::empty());
        assert(d.subrange(p, p) =~= Seq::<u8>::empty());
    }
    let mut i: usize = 0;
    while i < count
        invariant
            d == old(r).data@,
            p == old(r).pos,
            r.data@ == d,
            f == layer_bytes_fn(),
            i <= count,
            items@.len() == i,
            at(d, p, concat_map(items@.map_values(|l: SavedLayer| l@), f)),
            r.pos == p + concat_map(items@.map_values(|l: SavedLayer| l@), f).len(),
            forall|k: int| 0 <= k < i ==> layer_wf(#[trigger] items@[k]@, layer_decoders(k, np as int)),
            forall|ms: Seq<LayerModel>|
                ms.len() == count && #[trigger] layers_at(d, p, ms, np as int) ==> ms.take(i as int)
                    == items@.map_values(|l: SavedLayer| l@),
        decreases count - i,
    {
        let ghost done = items@.map_values(|l: SavedLayer| l@);
        let ghost before = items@;
        let ghost q = r.pos as int;
        proof {
            assert forall|ms: Seq<LayerModel>|
                ms.len() == count && #[trigger] layers_at(d, p, ms, np as int) implies layer_at(d, q, ms[i as int], layer_decoders(i as int, np as int)) by {
                lemma_concat_map_at(d, p, ms, f, i as int);
            }
        }
        match decode_layer(r, if i == 0 { np } else { 1 }) {
            Ok(l) => {
                items.push(l);
                proof {
                    let now = items@.map_values(|l: SavedLayer| l@);
                    assert(now =~= done.push(l@));
                    assert(now.drop_last() =~= done);
                    lemma_at_split(d, p, concat_map(done, f), f(l@));
                    assert forall|ms: Seq<LayerModel>|
                        ms.len() == count && #[trigger] layers_at(d, p, ms, np as int) implies ms.take(
                        i + 1,
                    ) == now by {
                        assert(ms.take(i + 1) =~= ms.take(i as int).push(ms[i as int]));
                    }
                    assert forall|k: int| 0 <= k < i + 1 implies layer_wf(#[trigger] items@[k]@, layer_decoders(k, np as int)) by {
                        if k < i {
                            assert(items@[k] == before[k]);
                        }
                    }
                }
                i = i + 1;
            },
            Err(e) => {
                return Err(e);
            },
        }
    }
    proof {
        let now = items@.map_values(|l: SavedLayer| l@);
        assert forall|k: int| 0 <= k < now.len() implies layer_wf(#[trigger] now[k], layer_decoders(k, np as int)) by {
            assert(now[k] == items@[k]@);
        }
        assert forall|ms: Seq<LayerModel>|
            ms.len() == count && #[trigger] layers_at(d, p, ms, np as int) implies now == ms by {
            assert(ms.take(count as int) =~= ms);
        }
    }
    Ok(items)
}

/// What a saved hierarchy holds besides its modules: its ports, index maps,
/// layer clock and goal flags.
#[derive(Clone, Debug)]
pub struct SavedMaps {
    /// Size of each IO port.
    pub io_sizes: Vec<Int3>,
    /// Type code of each IO port.
    pub io_types: Vec<u8>,
    /// Port of each decoder, then of each actor (two entries per port).
    pub i_indices: Vec<i32>,
    /// Decoder or actor of each port, or `-1`.
    pub d_indices: Vec<i32>,
    /// Tick counter of each layer.
    pub ticks: Vec<i32>,
    /// Period of each layer.
    pub ticks_per_update: Vec<i32>,
    /// Whether each layer takes a goal from above (`1`) or not (`0`).
    pub top_feedback: Vec<u8>,
}

/// The contents of a [`SavedMaps`].
pub struct MapsModel {
    pub io_sizes: Seq<Int3>,
    pub io_types: Seq<u8>,
    pub i_indices: Seq<i32>,
    pub d_indices: Seq<i32>,
    pub ticks: Seq<i32>,
    pub ticks_per_update: Seq<i32>,
    pub top_feedback: Seq<u8>,
}

impl View for SavedMaps {
    type V = MapsModel;

    open spec fn view(&self) -> MapsModel {
        MapsModel {
            io_sizes: self.io_sizes@,
            io_types: self.io_types@,
            i_indices: self.i_indices@,
            d_indices: self.d_indices@,
            ticks: self.ticks@,
            ticks_per_update: self.ticks_per_update@,
            top_feedback: self.top_feedback@,
        }
    }
}

/// The bytes of the maps: port sizes, port types, both index maps, tick
/// counters, periods, goal flags.
pub open spec fn maps_bytes(m: MapsModel) -> Seq<u8> {
    concat_map(m.io_sizes, int3_bytes_fn()) + m.io_types + le_bytes_i32_seq(m.i_indices) + le_bytes_i32_seq(
        m.d_indices,
    ) + le_bytes_i32_seq(m.ticks) + le_bytes_i32_seq(m.ticks_per_update) + m.top_feedback
}

/// The maps of a hierarchy of `nl` layers and `nio` ports.
pub open spec fn maps_wf(m: MapsModel, nl: int, nio: int) -> bool {
    &&& m.io_sizes.len() == nio
    &&& m.io_types.len() == nio
    &&& m.i_indices.len() == 2 * nio
    &&& m.d_indices.len() == nio
    &&& m.ticks.len() == nl
    &&& m.ticks_per_update.len() == nl
    &&& m.top_feedback.len() == nl
}

/// Well-formed maps stand in `d` at `p`.
pub open spec fn maps_at(d: Seq<u8>, p: int, m: MapsModel, nl: int, nio: int) -> bool {
    maps_wf(m, nl, nio) && at(d, p, maps_bytes(m))
}

proof fn lemma_maps_parts(d: Seq<u8>, p: int, m: MapsModel)
    ensures
        at(d, p, maps_bytes(m)) <==> {
            let o1 = p + concat_map(m.io_sizes, int3_bytes_fn()).len();
            let o2 = o1 + m.io_types.len();
            let o3 = o2 + 4 * m.i_indices.len();
            let o4 = o3 + 4 * m.d_indices.len();
            let o5 = o4 + 4 * m.ticks.len();
            let o6 = o5 + 4 * m.ticks_per_update.len();
            &&& at(d, p, concat_map(m.io_sizes, int3_bytes_fn()))
            &&& at(d, o1, m.io_types)
            &&& at(d, o2, le_bytes_i32_seq(m.i_indices))
            &&& at(d, o3, le_bytes_i32_seq(m.d_indices))
            &&& at(d, o4, le_bytes_i32_seq(m.ticks))
            &&& at(d, o5, le_bytes_i32_seq(m.ticks_per_update))
            &&& at(d, o6, m.top_feedback)
        },
{
    lemma_i32_seq_round_trip(m.i_indices);
    lemma_i32_seq_round_trip(m.d_indices);
    lemma_i32_seq_round_trip(m.ticks);
    lemma_i32_seq_round_trip(m.ticks_per_update);
    let a1 = concat_map(m.io_sizes, int3_bytes_fn());
    let a2 = m.io_types;
    let a3 = le_bytes_i32_seq(m.i_indices);
    let a4 = le_bytes_i32_seq(m.d_indices);
    let a5 = le_bytes_i32_seq(m.ticks);
    let a6 = le_bytes_i32_seq(m.ticks_per_update);
    let a7 = m.top_feedback;
    lemma_at_split(d, p, a1 + a2 + a3 + a4 + a5 + a6, a7);
    lemma_at_split(d, p, a1 + a2 + a3 + a4 + a5, a6);
    lemma_at_split(d, p, a1 + a2 + a3 + a4, a5);
    lemma_at_split(d, p, a1 + a2 + a3, a4);
    lemma_at_split(d, p, a1 + a2, a3);
    lemma_at_split(d, p, a1, a2);
}

/// Write the maps.
pub fn encode_maps(m: &SavedMaps, w: &mut VecWriter)
    ensures
        final(w).data@ == old(w).data@ + maps_bytes(m@),
{
    let ghost base = w.data@;
    let ghost ls = m.io_sizes@;
    let mut i: usize = 0;
    while i < m.io_sizes.len()
        invariant
            i <= m.io_sizes@.len(),
            ls == m.io_sizes@,
            w.data@ == base + concat_map(ls.take(i as int), int3_bytes_fn()),
        decreases m.io_sizes@.len() - i,
    {
        w.write_int3(m.io_sizes[i]);
        proof {
            lemma_concat_map_step(ls, int3_bytes_fn(), i as int);
        }
        i = i + 1;
        assert(w.data@ =~= base + concat_map(ls.take(i as int), int3_bytes_fn()));
    }
    assert(ls.take(i as int) =~= ls);
    w.write_u8_slice(&m.io_types);
    w.write_i32_slice(&m.i_indices);
    w.write_i32_slice(&m.d_indices);
    w.write_i32_slice(&m.ticks);
    w.write_i32_slice(&m.ticks_per_update);
    w.write_u8_slice(&m.top_feedback);
    assert(w.data@ =~= old(w).data@ + maps_bytes(m@));
}

/// Read the maps of a hierarchy of `nl` layers and `nio` ports.
#[verifier::rlimit(60)]
pub fn decode_maps(r: &mut SliceReader, nl: usize, nio: usize) -> (res: Result<SavedMaps, ReadError>)
    ensures
        res is Err ==> (res == Err::<SavedMaps, ReadError>(ReadError::Truncated) || res == Err::<SavedMaps, ReadError>(ReadError::BadSize)),
        final(r).data@ == old(r).data@,
        res matches Ok(v) ==> maps_at(old(r).data@, old(r).pos as int, v@, nl as int, nio as int) && final(r).pos
            == old(r).pos + maps_bytes(v@).len(),
        forall|m: MapsModel| #[trigger] maps_at(old(r).data@, old(r).pos as int, m, nl as int, nio as int) ==> (res is Ok
            && res->Ok_0@ == m),
{
    let ghost d = r.data@;
    let ghost p = r.pos as int;
    let dl = r.data.len();
    proof {
        assert forall|m: MapsModel| #[trigger] maps_at(d, p, m, nl as int, nio as int) implies at(
            d,
            p,
            concat_map(m.io_sizes, int3_bytes_fn()),
        ) by {
            lemma_maps_parts(d, p, m);
        }
    }
    let io_sizes = decode_int3s(r, nio)?;
    let ghost q1 = r.pos as int;
    proof {
        assert forall|m: MapsModel| #[trigger] maps_at(d, p, m, nl as int, nio as int) implies m.io_sizes == io_sizes@
            && at(d, q1, m.io_types) by {
            lemma_maps_parts(d, p, m);
        }
    }
    let io_types = get_u8s(r, nio)?;
    proof {
        assert forall|m: MapsModel| #[trigger] maps_at(d, p, m, nl as int, nio as int) implies m.io_types == io_types@
            && at(d, q1 + nio, le_bytes_i32_seq(m.i_indices)) by {
            lemma_maps_parts(d, p, m);
        }
    }
    let ni = match mul_len(nio, 2) {
        Some(n) => n,
        None => {
            proof {
                assert forall|m: MapsModel| !#[trigger] maps_at(d, p, m, nl as int, nio as int) by {
                    if maps_at(d, p, m, nl as int, nio as int) {
                        lemma_i32_seq_round_trip(m.i_indices);
                    }
                }
            }
            return Err(ReadError::BadSize);
        },
    };
    let i_indices = get_i32s(r, ni)?;
    proof {
        assert forall|m: MapsModel| #[trigger] maps_at(d, p, m, nl as int, nio as int) implies m.i_indices == i_indices@
            && at(d, q1 + nio + 4 * ni, le_bytes_i32_seq(m.d_indices)) by {
            lemma_maps_parts(d, p, m);
        }
    }
    let d_indices = get_i32s(r, nio)?;
    proof {
        assert forall|m: MapsModel| #[trigger] maps_at(d, p, m, nl as int, nio as int) implies m.d_indices == d_indices@
            && at(d, q1 + nio + 4 * ni + 4 * nio, le_bytes_i32_seq(m.ticks)) by {
            lemma_maps_parts(d, p, m);
        }
    }
    let ticks = get_i32s(r, nl)?;
    proof {
        assert forall|m: MapsModel| #[trigger] maps_at(d, p, m, nl as int, nio as int) implies m.ticks == ticks@
            && at(d, q1 + nio + 4 * ni + 4 * nio + 4 * nl, le_bytes_i32_seq(m.ticks_per_update)) by {
            lemma_maps_parts(d, p, m);
        }
    }
    let tpu = get_i32s(r, nl)?;
    proof {
        assert forall|m: MapsModel| #[trigger] maps_at(d, p, m, nl as int, nio as int) implies m.ticks_per_update
            == tpu@ && at(d, q1 + nio + 4 * ni + 4 * nio + 8 * nl, m.top_feedback) by {
            lemma_maps_parts(d, p, m);
        }
    }
    let flags = get_u8s(r, nl)?;
    let v = SavedMaps {
        io_sizes,
        io_types,
        i_indices,
        d_indices,
        ticks,
        ticks_per_update: tpu,
        top_feedback: flags,
    };
    proof {
        lemma_i32_seq_round_trip(v@.i_indices);
        lemma_i32_seq_round_trip(v@.d_indices);
        lemma_i32_seq_round_trip(v@.ticks);
        lemma_i32_seq_round_trip(v@.ticks_per_update);
        lemma_maps_parts(d, p, v@);
    }
    Ok(v)
}

/// Number of parameter words saved per layer.
pub const LAYER_PARAM_WORDS: usize = 9;

/// Number of parameter words saved per IO port.
pub const IO_PARAM_WORDS: usize = 13;

/// What a saved hierarchy holds.
#[derive(Clone, Debug)]
pub struct SavedHierarchy {
    /// Number of prediction ports (the bottom layer's decoders).
    pub num_predictions: i32,
    /// Ports, index maps, layer clock and goal flags.
    pub maps: SavedMaps,
    /// The layers, bottom first.
    pub layers: Vec<SavedLayer>,
    /// The actors, one per action port.
    pub actors: Vec<SavedActor>,
    /// [`LAYER_PARAM_WORDS`] parameter words per layer.
    pub layer_params: Vec<u32>,
    /// [`IO_PARAM_WORDS`] parameter words per port.
    pub io_params: Vec<u32>,
    /// Whether the decoders also learn from the current step (`0` for no).
    pub anticipation: u8,
}

/// The contents of a [`SavedHierarchy`].
pub struct HierarchyModel {
    pub num_predictions: i32,
    pub maps: MapsModel,
    pub layers: Seq<LayerModel>,
    pub actors: Seq<ActorModel>,
    pub layer_params: Seq<u32>,
    pub io_params: Seq<u32>,
    pub anticipation: u8,
}

impl View for SavedHierarchy {
    type V = HierarchyModel;

    open spec fn view(&self) -> HierarchyModel {
        HierarchyModel {
            num_predictions: self.num_predictions,
            maps: self.maps@,
            layers: self.layers@.map_values(|l: SavedLayer| l@),
            actors: self.actors@.map_values(|l: SavedActor| l@),
            layer_params: self.layer_params@,
            io_params: self.io_params@,
            anticipation: self.anticipation,
        }
    }
}

/// The first 24 bytes of a saved hierarchy: magic number, version, and the
/// numbers of layers, ports, prediction ports and action ports.
pub open spec fn hierarchy_head(nl: i32, nio: i32, np: i32, na: i32) -> Seq<u8> {
    le_bytes_u32(SERIAL_MAGIC) + le_bytes_u32(SERIAL_VERSION) + le_bytes_i32(nl) + le_bytes_i32(nio) + le_bytes_i32(
        np,
    ) + le_bytes_i32(na)
}

/// The rest of a saved hierarchy: the maps, the layers, the actors, the
/// parameter words and the anticipation flag.
pub open spec fn hierarchy_tail(m: HierarchyModel) -> Seq<u8> {
    maps_bytes(m.maps) + concat_map(m.layers, layer_bytes_fn()) + concat_map(m.actors, actor_bytes_fn())
        + le_bytes_u32_seq(m.layer_params) + le_bytes_u32_seq(m.io_params) + seq![m.anticipation]
}

/// The bytes of a saved hierarchy.
pub open spec fn hierarchy_bytes(m: HierarchyModel) -> Seq<u8> {
    hierarchy_head(
        m.layers.len() as i32,
        m.maps.io_sizes.len() as i32,
        m.num_predictions,
        m.actors.len() as i32,
    ) + hierarchy_tail(m)
}

/// The counts and lengths of `m` agree.
pub open spec fn hierarchy_wf(m: HierarchyModel) -> bool {
    let nl = m.layers.len() as int;
    let nio = m.maps.io_sizes.len() as int;
    &&& nl <= i32::MAX
    &&& nio <= i32::MAX
    &&& m.actors.len() <= i32::MAX
    &&& 0 <= m.num_predictions
    &&& maps_wf(m.maps, nl, nio)
    &&& forall|l: int| 0 <= l < nl ==> layer_wf(#[trigger] m.layers[l], layer_decoders(l, m.num_predictions as int))
    &&& forall|a: int| 0 <= a < m.actors.len() ==> actor_wf(#[trigger] m.actors[a])
    &&& m.layer_params.len() == LAYER_PARAM_WORDS * nl
    &&& m.io_params.len() == IO_PARAM_WORDS * nio
}

/// A well-formed hierarchy stands in `d` at `p`.
pub open spec fn hierarchy_at(d: Seq<u8>, p: int, m: HierarchyModel) -> bool {
    hierarchy_wf(m) && at(d, p, hierarchy_bytes(m))
}

proof fn lemma_hierarchy_head_parts(d: Seq<u8>, p: int, nl: i32, nio: i32, np: i32, na: i32)
    ensures
        hierarchy_head(nl, nio, np, na).len() == 24,
        at(d, p, hierarchy_head(nl, nio, np, na)) <==> {
            &&& at(d, p, le_bytes_u32(SERIAL_MAGIC))
            &&& at(d, p + 4, le_bytes_u32(SERIAL_VERSION))
            &&& at(d, p + 8, le_bytes_i32(nl))
            &&& at(d, p + 12, le_bytes_i32(nio))
            &&& at(d, p + 16, le_bytes_i32(np))
            &&& at(d, p + 20, le_bytes_i32(na))
        },
{
    let a1 = le_bytes_u32(SERIAL_MAGIC);
    let a2 = le_bytes_u32(SERIAL_VERSION);
    let a3 = le_bytes_i32(nl);
    let a4 = le_bytes_i32(nio);
    let a5 = le_bytes_i32(np);
    let a6 = le_bytes_i32(na);
    lemma_at_split(d, p, a1 + a2 + a3 + a4 + a5, a6);
    lemma_at_split(d, p, a1 + a2 + a3 + a4, a5);
    lemma_at_split(d, p, a1 + a2 + a3, a4);
    lemma_at_split(d, p, a1 + a2, a3);
    lemma_at_split(d, p, a1, a2);
}

proof fn lemma_hierarchy_tail_parts(d: Seq<u8>, q: int, m: HierarchyModel)
    ensures
        at(d, q, hierarchy_tail(m)) <==> {
            let o1 = q + maps_bytes(m.maps).len();
            let o2 = o1 + concat_map(m.layers, layer_bytes_fn()).len();
            let o3 = o2 + concat_map(m.actors, actor_bytes_fn()).len();
            let o4 = o3 + 4 * m.layer_params.len();
            let o5 = o4 + 4 * m.io_params.len();
            &&& at(d, q, maps_bytes(m.maps))
            &&& at(d, o1, concat_map(m.layers, layer_bytes_fn()))
            &&& at(d, o2, concat_map(m.actors, actor_bytes_fn()))
            &&& at(d, o3, le_bytes_u32_seq(m.layer_params))
            &&& at(d, o4, le_bytes_u32_seq(m.io_params))
            &&& at(d, o5, seq![m.anticipation])
        },
{
    lemma_u32_seq_round_trip(m.layer_params);
    lemma_u32_seq_round_trip(m.io_params);
    let a1 = maps_bytes(m.maps);
    let a2 = concat_map(m.layers, layer_bytes_fn());
    let a3 = concat_map(m.actors, actor_bytes_fn());
    let a4 = le_bytes_u32_seq(m.layer_params);
    let a5 = le_bytes_u32_seq(m.io_params);
    let a6 = seq![m.anticipation];
    lemma_at_split(d, q, a1 + a2 + a3 + a4 + a5, a6);
    lemma_at_split(d, q, a1 + a2 + a3 + a4, a5);
    lemma_at_split(d, q, a1 + a2 + a3, a4);
    lemma_at_split(d, q, a1 + a2, a3);
    lemma_at_split(d, q, a1, a2);
}

fn encode_layers(ls_exec: &Vec<SavedLayer>, w: &mut VecWriter)
    requires
        forall|l: int| 0 <= l < ls_exec@.len() ==> (#[trigger] ls_exec@[l]).encoder.layers@.len() <= i32::MAX,
        forall|l: int, i: int|
            0 <= l < ls_exec@.len() && 0 <= i < ls_exec@[l].decoders@.len() ==> (
            #[trigger] ls_exec@[l].decoders@[i]).layers@.len() <= i32::MAX,
    ensures
        final(w).data@ == old(w).data@ + concat_map(ls_exec@.map_values(|l: SavedLayer| l@), layer_bytes_fn()),
{
    let ghost base = w.data@;
    let ghost ls = ls_exec@.map_values(|l: SavedLayer| l@);
    let mut i: usize = 0;
    while i < ls_exec.len()
        invariant
            i <= ls_exec@.len(),
            ls == ls_exec@.map_values(|l: SavedLayer| l@),
            ls.len() == ls_exec@.len(),
            forall|l: int| 0 <= l < ls_exec@.len() ==> (#[trigger] ls_exec@[l]).encoder.layers@.len() <= i32::MAX,
            forall|l: int, i: int|
                0 <= l < ls_exec@.len() && 0 <= i < ls_exec@[l].decoders@.len() ==> (
                #[trigger] ls_exec@[l].decoders@[i]).layers@.len() <= i32::MAX,
            w.data@ == base + concat_map(ls.take(i as int), layer_bytes_fn()),
        decreases ls_exec@.len() - i,
    {
        assert forall|k: int| 0 <= k < ls_exec@[i as int].decoders@.len() implies (
        #[trigger] ls_exec@[i as int].decoders@[k]).layers@.len() <= i32::MAX by {}
        encode_layer(&ls_exec[i], w);
        proof {
            lemma_concat_map_step(ls, layer_bytes_fn(), i as int);
        }
        i = i + 1;
        assert(w.data@ =~= base + concat_map(ls.take(i as int), layer_bytes_fn()));
    }
    assert(ls.take(i as int) =~= ls);
}

fn encode_actors(acts_exec: &Vec<SavedActor>, w: &mut VecWriter)
    requires
        forall|a: int|
            0 <= a < acts_exec@.len() ==> (#[trigger] acts_exec@[a]).layers@.len() <= i32::MAX
                && acts_exec@[a].samples@.len() <= i32::MAX,
    ensures
        final(w).data@ == old(w).data@ + concat_map(acts_exec@.map_values(|l: SavedActor| l@), actor_bytes_fn()),
{
    let ghost base = w.data@;
    let ghost acts = acts_exec@.map_values(|l: SavedActor| l@);
    let mut j: usize = 0;
    while j < acts_exec.len()
        invariant
            j <= acts_exec@.len(),
            acts == acts_exec@.map_values(|l: SavedActor| l@),
            acts.len() == acts_exec@.len(),
            forall|a: int|
                0 <= a < acts_exec@.len() ==> (#[trigger] acts_exec@[a]).layers@.len() <= i32::MAX
                    && acts_exec@[a].samples@.len() <= i32::MAX,
            w.data@ == base + concat_map(acts.take(j as int), actor_bytes_fn()),
        decreases acts_exec@.len() - j,
    {
        encode_actor(&acts_exec[j], w);
        proof {
            lemma_concat_map_step(acts, actor_bytes_fn(), j as int);
        }
        j = j + 1;
        assert(w.data@ =~= base + concat_map(acts.take(j as int), actor_bytes_fn()));
    }
    assert(acts.take(j as int) =~= acts);
}

/// Write a hierarchy.
#[verifier::rlimit(100)]
pub fn encode_hierarchy(h: &SavedHierarchy, w: &mut VecWriter)
    requires
        h.layers@.len() <= i32::MAX,
        h.maps.io_sizes@.len() <= i32::MAX,
        h.actors@.len() <= i32::MAX,
        forall|l: int| 0 <= l < h.layers@.len() ==> (#[trigger] h.layers@[l]).encoder.layers@.len() <= i32::MAX,
        forall|l: int, i: int|
            0 <= l < h.layers@.len() && 0 <= i < h.layers@[l].decoders@.len() ==> (
            #[trigger] h.layers@[l].decoders@[i]).layers@.len() <= i32::MAX,
        forall|a: int|
            0 <= a < h.actors@.len() ==> (#[trigger] h.actors@[a]).layers@.len() <= i32::MAX
                && h.actors@[a].samples@.len() <= i32::MAX,
    ensures
        final(w).data@ == old(w).data@ + hierarchy_bytes(h@),
{
    w.write_u32(SERIAL_MAGIC);
    w.write_u32(SERIAL_VERSION);
    w.write_i32(h.layers.len() as i32);
    w.write_i32(h.maps.io_sizes.len() as i32);
    w.write_i32(h.num_predictions);
    w.write_i32(h.actors.len() as i32);
    assert(w.data@ =~= old(w).data@ + hierarchy_head(
        h@.layers.len() as i32,
        h@.maps.io_sizes.len() as i32,
        h@.num_predictions,
        h@.actors.len() as i32,
    ));
    let ghost head = w.data@;
    let ghost hm = h@;
    encode_maps(&h.maps, w);
    let ghost a1 = w.data@;
    encode_layers(&h.layers, w);
    let ghost a2 = w.data@;
    encode_actors(&h.actors, w);
    let ghost a3 = w.data@;
    w.write_u32_slice(&h.layer_params);
    let ghost a4 = w.data@;
    w.write_u32_slice(&h.io_params);
    let ghost a5 = w.data@;
    w.write_u8(h.anticipation);
    proof {
        let t1 = maps_bytes(hm.maps);
        let t2 = concat_map(hm.layers, layer_bytes_fn());
        let t3 = concat_map(hm.actors, actor_bytes_fn());
        let t4 = le_bytes_u32_seq(hm.layer_params);
        let t5 = le_bytes_u32_seq(hm.io_params);
        let t6 = seq![hm.anticipation];
        assert(a1 == head + t1);
        assert(a2 == a1 + t2);
        assert(a3 == a2 + t3);
        assert(a4 == a3 + t4);
        assert(a5 == a4 + t5);
        assert(w.data@ =~= a5 + t6);
        assert(hierarchy_tail(hm) == t1 + t2 + t3 + t4 + t5 + t6);
        assert(w.data@ =~= head + (t1 + t2 + t3 + t4 + t5 + t6));
    }
}

/// Read a hierarchy. The magic number is checked before anything else is
/// read, then the version; a hierarchy whose bytes stand at the reader's
/// position is read back exactly.
#[verifier::rlimit(100)]
pub fn decode_hierarchy(r: &mut SliceReader) -> (res: Result<SavedHierarchy, ReadError>)
    ensures
        final(r).data@ == old(r).data@,
        res matches Ok(v) ==> hierarchy_at(old(r).data@, old(r).pos as int, v@) && final(r).pos == old(r).pos
            + hierarchy_bytes(v@).len(),
        forall|m: HierarchyModel| #[trigger] hierarchy_at(old(r).data@, old(r).pos as int, m) ==> (res is Ok
            && res->Ok_0@ == m),
        old(r).pos + 4 > old(r).data@.len() ==> res == Err::<SavedHierarchy, ReadError>(ReadError::Truncated),
        forall|x: u32|
            #[trigger] at(old(r).data@, old(r).pos as int, le_bytes_u32(x)) && x != SERIAL_MAGIC ==> res == Err::<
                SavedHierarchy,
                ReadError,
            >(ReadError::BadMagic(x)),
        at(old(r).data@, old(r).pos as int, le_bytes_u32(SERIAL_MAGIC)) && old(r).pos + 8 > old(r).data@.len()
            ==> res == Err::<SavedHierarchy, ReadError>(ReadError::Truncated),
        forall|x: u32|
            at(old(r).data@, old(r).pos as int, le_bytes_u32(SERIAL_MAGIC)) && #[trigger] at(
                old(r).data@,
                old(r).pos + 4,
                le_bytes_u32(x),
            ) && x != SERIAL_VERSION ==> res == Err::<SavedHierarchy, ReadError>(ReadError::UnsupportedVersion(x)),
{
    let ghost d = r.data@;
    let ghost p = r.pos as int;
    let dl = r.data.len();
    proof {
        assert forall|m: HierarchyModel| #[trigger] hierarchy_at(d, p, m) implies at(
            d,
            p,
            hierarchy_head(m.layers.len() as i32, m.maps.io_sizes.len() as i32, m.num_predictions, m.actors.len() as i32),
        ) && at(d, p + 24, hierarchy_tail(m)) by {
            lemma_hierarchy_head_parts(d, p, m.layers.len() as i32, m.maps.io_sizes.len() as i32, m.num_predictions, m.actors.len() as i32);
            lemma_at_split(
                d,
                p,
                hierarchy_head(m.layers.len() as i32, m.maps.io_sizes.len() as i32, m.num_predictions, m.actors.len() as i32),
                hierarchy_tail(m),
            );
        }
        assert forall|m: HierarchyModel| #[trigger] hierarchy_at(d, p, m) implies at(d, p, le_bytes_u32(SERIAL_MAGIC))
            && at(d, p + 4, le_bytes_u32(SERIAL_VERSION)) && at(d, p + 8, le_bytes_i32(m.layers.len() as i32))
            && at(d, p + 12, le_bytes_i32(m.maps.io_sizes.len() as i32)) && at(d, p + 16, le_bytes_i32(m.num_predictions))
            && at(d, p + 20, le_bytes_i32(m.actors.len() as i32)) by {
            lemma_hierarchy_head_parts(d, p, m.layers.len() as i32, m.maps.io_sizes.len() as i32, m.num_predictions, m.actors.len() as i32);
        }
    }
    let magic = get_u32(r)?;
    match check_magic(magic) {
        Ok(()) => {},
        Err(_) => {
            return Err(ReadError::BadMagic(magic));
        },
    }
    let version = get_u32(r)?;
    match check_header(magic, version) {
        Ok(()) => {},
        Err(_) => {
            return Err(ReadError::UnsupportedVersion(version));
        },
    }
    let nl = get_i32(r)?;
    let nio = get_i32(r)?;
    let np = get_i32(r)?;
    let na = get_i32(r)?;
    if nl < 0 || nio < 0 || np < 0 || na < 0 {
        return Err(ReadError::BadSize);
    }
    proof {
        lemma_hierarchy_head_parts(d, p, nl, nio, np, na);
    }
    decode_hierarchy_rest(r, Ghost(d), Ghost(p), nl, nio, np, na, dl)
}

#[verifier::rlimit(100)]
fn decode_hierarchy_rest(
    r: &mut SliceReader,
    Ghost(d): Ghost<Seq<u8>>,
    Ghost(p): Ghost<int>,
    nl: i32,
    nio: i32,
    np: i32,
    na: i32,
    dl: usize,
) -> (res: Result<SavedHierarchy, ReadError>)
    requires
        old(r).data@ == d,
        dl == d.len(),
        0 <= nl,
        0 <= nio,
        0 <= np,
        0 <= na,
        old(r).pos == p + 24,
        at(d, p, hierarchy_head(nl, nio, np, na)),
        forall|m: HierarchyModel| #[trigger] hierarchy_at(d, p, m) ==> {
            &&& m.layers.len() == nl
            &&& m.maps.io_sizes.len() == nio
            &&& m.num_predictions == np
            &&& m.actors.len() == na
            &&& at(d, p + 24, hierarchy_tail(m))
        },
    ensures
        res is Err ==> (res == Err::<SavedHierarchy, ReadError>(ReadError::Truncated) || res == Err::<SavedHierarchy, ReadError>(ReadError::BadSize)),
        final(r).data@ == d,
        res matches Ok(v) ==> hierarchy_at(d, p, v@) && final(r).pos == p + hierarchy_bytes(v@).len(),
        forall|m: HierarchyModel| #[trigger] hierarchy_at(d, p, m) ==> (res is Ok && res->Ok_0@ == m),
{
    let ghost q = p + 24;
    proof {
        assert forall|m: HierarchyModel| #[trigger] hierarchy_at(d, p, m) implies maps_at(d, q, m.maps, nl as int, nio as int) by {
            lemma_hierarchy_tail_parts(d, q, m);
        }
    }
    let maps = decode_maps(r, nl as usize, nio as usize)?;
    let ghost q1 = r.pos as int;
    proof {
        assert forall|m: HierarchyModel| #[trigger] hierarchy_at(d, p, m) implies m.maps == maps@ && layers_at(
            d,
            q1,
            m.layers,
            np as int,
        ) by {
            lemma_hierarchy_tail_parts(d, q, m);
        }
    }
    let layers = decode_layers(r, nl as usize, np as usize)?;
    let ghost q2 = r.pos as int;
    let ghost lm = layers@.map_values(|l: SavedLayer| l@);
    proof {
        assert forall|m: HierarchyModel| #[trigger] hierarchy_at(d, p, m) implies m.layers == lm && actors_at(
            d,
            q2,
            m.actors,
        ) by {
            lemma_hierarchy_tail_parts(d, q, m);
        }
    }
    let actors = decode_actors(r, na as usize)?;
    let ghost q3 = r.pos as int;
    let ghost am = actors@.map_values(|l: SavedActor| l@);
    proof {
        assert forall|m: HierarchyModel| #[trigger] hierarchy_at(d, p, m) implies m.actors == am && at(
            d,
            q3,
            le_bytes_u32_seq(m.layer_params),
        ) by {
            lemma_hierarchy_tail_parts(d, q, m);
        }
    }
    let nlp = match mul_len(LAYER_PARAM_WORDS, nl as i64) {
        Some(n) => n,
        None => {
            proof {
                assert forall|m: HierarchyModel| !#[trigger] hierarchy_at(d, p, m) by {
                    if hierarchy_at(d, p, m) {
                        lemma_u32_seq_round_trip(m.layer_params);
                    }
                }
            }
            return Err(ReadError::BadSize);
        },
    };
    let layer_params = get_u32s(r, nlp)?;
    proof {
        assert forall|m: HierarchyModel| #[trigger] hierarchy_at(d, p, m) implies m.layer_params == layer_params@
            && at(d, q3 + 4 * nlp, le_bytes_u32_seq(m.io_params)) by {
            lemma_hierarchy_tail_parts(d, q, m);
        }
    }
    let niop = match mul_len(IO_PARAM_WORDS, nio as i64) {
        Some(n) => n,
        None => {
            proof {
                assert forall|m: HierarchyModel| !#[trigger] hierarchy_at(d, p, m) by {
                    if hierarchy_at(d, p, m) {
                        lemma_u32_seq_round_trip(m.io_params);
                    }
                }
            }
            return Err(ReadError::BadSize);
        },
    };
    let io_params = get_u32s(r, niop)?;
    proof {
        assert forall|m: HierarchyModel| #[trigger] hierarchy_at(d, p, m) implies m.io_params == io_params@
            && at(d, q3 + 4 * nlp + 4 * niop, seq![m.anticipation]) by {
            lemma_hierarchy_tail_parts(d, q, m);
        }
    }
    let anticipation = get_u8(r)?;
    let v = SavedHierarchy { num_predictions: np, maps, layers, actors, layer_params, io_params, anticipation };
    proof {
        assert forall|m: HierarchyModel| #[trigger] hierarchy_at(d, p, m) implies v@ == m by {}
        assert(v@.layers.len() == nl);
        assert(v@.actors.len() == na);
        lemma_u32_seq_round_trip(layer_params@);
        lemma_u32_seq_round_trip(io_params@);
        assert(at(d, q, hierarchy_tail(v@))) by {
            lemma_hierarchy_tail_parts(d, q, v@);
        }
        lemma_hierarchy_head_parts(d, p, nl, nio, np, na);
        assert(at(d, p, hierarchy_bytes(v@))) by {
            lemma_at_split(d, p, hierarchy_head(nl, nio, np, na), hierarchy_tail(v@));
        }
        assert forall|l: int| 0 <= l < nl implies layer_wf(#[trigger] v@.layers[l], layer_decoders(l, np as int)) by {
            assert(layers_at(d, q1, v@.layers, np as int));
        }
        assert forall|a: int| 0 <= a < na implies actor_wf(#[trigger] v@.actors[a]) by {
            assert(actors_at(d, q2, v@.actors));
        }
        assert(hierarchy_wf(v@));
    }
    Ok(v)
}

} // verus!
