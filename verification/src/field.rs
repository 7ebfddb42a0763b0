//! Receptive-field geometry shared by the encoder, decoder and actor, and the
//! integer kernels that read and update the weights of one hidden column's field.
//!
//! Hidden column `col` sees, in a visible layer of size `(x, y, z)`, the square
//! of visible columns within `radius` of its projected `center`, clipped to the
//! layer. Its weights for one visible layer form a contiguous block; the weight
//! of the `k`-th of its `per` slots for visible column `(ix, iy)` holding input
//! cell `ci` is at
//! `k + per * (oy + diam * (ox + diam * (ci + z * col)))`,
//! where `(ox, oy)` is the offset of `(ix, iy)` from the field's lower corner
//! and `diam = 2 * radius + 1`.
use vstd::prelude::*;
use crate::helpers::{address2, Int2, Int3};

verus! {

/// The corners of the receptive field of one hidden column in one visible layer.
#[derive(Clone, Copy, Debug)]
pub struct FieldBounds {
    /// Lower corner of the full (unclipped) field: `center - radius`.
    pub field_lower: Int2,
    /// Lower corner of the part of the field inside the layer (inclusive).
    pub iter_lower: Int2,
    /// Upper corner of the part of the field inside the layer (inclusive).
    pub iter_upper: Int2,
}

/// Lower `x` corner of the part of the field around `center` inside the layer.
pub open spec fn lo_x(center: Int2, radius: int) -> int {
    if center.x - radius > 0 { center.x - radius } else { 0 }
}

/// Lower `y` corner of the part of the field around `center` inside the layer.
pub open spec fn lo_y(center: Int2, radius: int) -> int {
    if center.y - radius > 0 { center.y - radius } else { 0 }
}

/// Upper `x` corner (inclusive) of the part of the field inside a layer of `size`.
pub open spec fn hi_x(center: Int2, radius: int, size: Int3) -> int {
    if center.x + radius < size.x - 1 { center.x + radius } else { size.x - 1 }
}

/// Upper `y` corner (inclusive) of the part of the field inside a layer of `size`.
pub open spec fn hi_y(center: Int2, radius: int, size: Int3) -> int {
    if center.y + radius < size.y - 1 { center.y + radius } else { size.y - 1 }
}

/// `b` holds the corners of the field of the given `radius` around `center`
/// in a visible layer of `size`.
pub open spec fn is_field_bounds(b: FieldBounds, center: Int2, radius: int, size: Int3) -> bool {
    &&& b.field_lower.x == center.x - radius
    &&& b.field_lower.y == center.y - radius
    &&& b.iter_lower.x == lo_x(center, radius)
    &&& b.iter_lower.y == lo_y(center, radius)
    &&& b.iter_upper.x == hi_x(center, radius, size)
    &&& b.iter_upper.y == hi_y(center, radius, size)
}

/// The field arithmetic of [`field_bounds`] stays within `i32`.
pub open spec fn field_bounds_fit(center: Int2, radius: int, size: Int3) -> bool {
    &&& i32::MIN <= center.x - radius <= i32::MAX && i32::MIN <= center.x + radius <= i32::MAX
    &&& i32::MIN <= center.y - radius <= i32::MAX && i32::MIN <= center.y + radius <= i32::MAX
    &&& i32::MIN < size.x && i32::MIN < size.y
}

/// Compute the corners of the receptive field of the given `radius` around
/// `center`, clipped to a visible layer of `size`.
pub fn field_bounds(center: Int2, radius: i32, size: Int3) -> (b: FieldBounds)
    requires
        field_bounds_fit(center, radius as int, size),
    ensures
        is_field_bounds(b, center, radius as int, size),
{
    let field_lower = Int2::new(center.x - radius, center.y - radius);
    let lx = if field_lower.x > 0 { field_lower.x } else { 0 };
    let ly = if field_lower.y > 0 { field_lower.y } else { 0 };
    let ux = if center.x + radius < size.x - 1 { center.x + radius } else { size.x - 1 };
    let uy = if center.y + radius < size.y - 1 { center.y + radius } else { size.y - 1 };
    FieldBounds { field_lower, iter_lower: Int2::new(lx, ly), iter_upper: Int2::new(ux, uy) }
}

/// The number of visible columns of a clipped field, by the formula
/// `(ux - lx + 1) * (uy - ly + 1)` computes it.
pub open spec fn bounds_count(b: FieldBounds) -> int {
    (b.iter_upper.x - b.iter_lower.x + 1) * (b.iter_upper.y - b.iter_lower.y + 1)
}

/// Number of visible columns covered by the clipped field `b` (the product of
/// its side lengths, which is zero or negative only for an empty field).
pub fn field_count(b: FieldBounds) -> (r: i32)
    requires
        i32::MIN <= b.iter_upper.x - b.iter_lower.x <= i32::MAX - 1,
        i32::MIN <= b.iter_upper.y - b.iter_lower.y <= i32::MAX - 1,
        i32::MIN <= bounds_count(b) <= i32::MAX,
    ensures
        r == bounds_count(b),
{
    (b.iter_upper.x - b.iter_lower.x + 1) * (b.iter_upper.y - b.iter_lower.y + 1)
}

/// The receptive field of hidden column `col` in one visible layer, together
/// with where that column's weights for the layer lie.
#[derive(Clone, Copy, Debug)]
pub struct ColumnField {
    /// Size `(x, y, z)` of the visible layer.
    pub size: Int3,
    /// Half-width of the field.
    pub radius: i32,
    /// The hidden column's projected position in the visible layer.
    pub center: Int2,
    /// Number of weights per (visible cell, offset) pair: the hidden cells of a
    /// column times the dendrites per cell.
    pub per: usize,
    /// Index of the hidden column.
    pub col: usize,
}

/// The field's diameter `2 * radius + 1`.
pub open spec fn diam(f: ColumnField) -> int {
    2 * f.radius + 1
}

/// The number of weights a hidden column owns for one visible layer.
pub open spec fn block_len(f: ColumnField) -> int {
    f.per * diam(f) * diam(f) * f.size.z
}

/// Index of visible column `(x, y)` in the layer's input vector.
pub open spec fn visible_index(f: ColumnField, x: int, y: int) -> int {
    y + x * f.size.y
}

/// The weight index, less the slot `k`, that the field of `f` uses for visible
/// column `(x, y)` given the layer's input cells `cis`.
pub open spec fn field_base(f: ColumnField, cis: Seq<i32>, x: int, y: int) -> int {
    let ox = x - (f.center.x - f.radius);
    let oy = y - (f.center.y - f.radius);
    let ci = cis[visible_index(f, x, y)] as int;
    f.per * (oy + diam(f) * (ox + diam(f) * (ci + f.size.z * f.col)))
}

/// Visible columns are read in row-major order, as [`crate::helpers::address2`]
/// numbers them: column `(0, 0)` comes first, a step in `y` moves to the next
/// input, and a step in `x` moves past a whole row of `size.y` inputs; every
/// column of the layer has an input inside the layer's `size.x * size.y`.
pub proof fn lemma_visible_index_row_major(f: ColumnField, x: int, y: int)
    requires
        0 <= x < f.size.x,
        0 <= y < f.size.y,
    ensures
        visible_index(f, 0, 0) == 0,
        visible_index(f, x, y) == y + x * f.size.y,
        y + 1 < f.size.y ==> visible_index(f, x, y + 1) == visible_index(f, x, y) + 1,
        x + 1 < f.size.x ==> visible_index(f, x + 1, y) == visible_index(f, x, y) + f.size.y,
        0 <= visible_index(f, x, y) < f.size.x * f.size.y,
{
    assert((x + 1) * f.size.y == x * f.size.y + f.size.y) by (nonlinear_arith);
    assert(0 <= y + x * f.size.y < f.size.x * f.size.y) by (nonlinear_arith)
        requires
            0 <= x < f.size.x,
            0 <= y < f.size.y,
    ;
}

/// The sum of `w[field_base(f, cis, x, y) + k]` over `y` in `y0..=y1`.
pub open spec fn column_sum(w: Seq<int>, f: ColumnField, cis: Seq<i32>, k: int, x: int, y0: int, y1: int) -> int
    decreases y1 + 1 - y0,
{
    if y1 < y0 {
        0
    } else {
        column_sum(w, f, cis, k, x, y0, y1 - 1) + w[field_base(f, cis, x, y1) + k]
    }
}

/// The sum of `w[field_base(f, cis, x, y) + k]` over the rectangle
/// `x0..=x1` by `y0..=y1`.
pub open spec fn field_sum(w: Seq<int>, f: ColumnField, cis: Seq<i32>, k: int, x0: int, x1: int, y0: int, y1: int) -> int
    decreases x1 + 1 - x0,
{
    if x1 < x0 {
        0
    } else {
        field_sum(w, f, cis, k, x0, x1 - 1, y0, y1) + column_sum(w, f, cis, k, x1, y0, y1)
    }
}

/// The field of `f` over inputs `cis` addresses only weights of a store of
/// `weights_len` entries, and all its arithmetic fits the machine types.
pub open spec fn field_valid(f: ColumnField, cis: Seq<i32>, weights_len: int) -> bool {
    &&& 0 <= f.radius
    &&& 2 * f.radius + 1 <= i32::MAX
    &&& field_bounds_fit(f.center, f.radius as int, f.size)
    &&& 1 <= f.per
    &&& 0 <= f.size.x && 0 <= f.size.y && 1 <= f.size.z
    &&& f.size.x * f.size.y <= i32::MAX
    &&& f.size.x * f.size.y <= cis.len()
    &&& forall|j: int| 0 <= j < f.size.x * f.size.y ==> 0 <= #[trigger] cis[j] < f.size.z
    &&& block_len(f) * (f.col + 1) <= weights_len
}

/// Visible column `(x, y)` lies in the part of the field of `f` inside the layer.
pub open spec fn in_field(f: ColumnField, x: int, y: int) -> bool {
    &&& lo_x(f.center, f.radius as int) <= x <= hi_x(f.center, f.radius as int, f.size)
    &&& lo_y(f.center, f.radius as int) <= y <= hi_y(f.center, f.radius as int, f.size)
}

proof fn lemma_radix_bound(a: int, b: int, m: int, n: int)
    requires
        0 <= a < m,
        0 <= b < n,
    ensures
        0 <= a + m * b < m * n,
{
    assert(0 <= a + m * b < m * n) by (nonlinear_arith)
        requires
            0 <= a < m,
            0 <= b < n,
    ;
}

proof fn lemma_radix_unique(a: int, b: int, a2: int, b2: int, m: int)
    requires
        0 <= a < m,
        0 <= a2 < m,
        a + m * b == a2 + m * b2,
    ensures
        a == a2,
        b == b2,
{
    assert(b == b2) by (nonlinear_arith)
        requires
            0 <= a < m,
            0 <= a2 < m,
            a + m * b == a2 + m * b2,
    ;
}

/// Inside the clipped field, the offsets lie in `[0, diam)` and the visible
/// index is a valid input position.
proof fn lemma_field_position(f: ColumnField, cis: Seq<i32>, x: int, y: int)
    requires
        field_valid(f, cis, block_len(f) * (f.col + 1)),
        in_field(f, x, y),
    ensures
        0 <= x - (f.center.x - f.radius) < diam(f),
        0 <= y - (f.center.y - f.radius) < diam(f),
        0 <= x < f.size.x,
        0 <= y < f.size.y,
        0 <= visible_index(f, x, y) < f.size.x * f.size.y,
        0 <= cis[visible_index(f, x, y)] < f.size.z,
{
    lemma_radix_bound(y, x, f.size.y as int, f.size.x as int);
    assert(f.size.y * f.size.x == f.size.x * f.size.y) by (nonlinear_arith);
}

/// Every slot of the field addresses a weight inside the column's block.
proof fn lemma_field_index(f: ColumnField, cis: Seq<i32>, x: int, y: int, k: int)
    requires
        field_valid(f, cis, block_len(f) * (f.col + 1)),
        in_field(f, x, y),
        0 <= k < f.per,
    ensures
        block_len(f) * f.col <= field_base(f, cis, x, y) + k < block_len(f) * (f.col + 1),
{
    lemma_field_position(f, cis, x, y);
    let d = diam(f);
    let z = f.size.z as int;
    let c = f.col as int;
    let per = f.per as int;
    let ox = x - (f.center.x - f.radius);
    let oy = y - (f.center.y - f.radius);
    let ci = cis[visible_index(f, x, y)] as int;
    let t = ci + z * c;
    let u = ox + d * t;
    let v = oy + d * u;
    assert(z * c <= t < z * (c + 1)) by (nonlinear_arith)
        requires
            0 <= ci < z,
            t == ci + z * c,
    ;
    assert(d * (z * c) <= u < d * (z * (c + 1))) by (nonlinear_arith)
        requires
            0 <= ox < d,
            z * c <= t < z * (c + 1),
            u == ox + d * t,
    ;
    assert(d * (d * (z * c)) <= v < d * (d * (z * (c + 1)))) by (nonlinear_arith)
        requires
            0 <= oy < d,
            d * (z * c) <= u < d * (z * (c + 1)),
            v == oy + d * u,
    ;
    assert(per * (d * (d * (z * c))) <= k + per * v < per * (d * (d * (z * (c + 1))))) by (nonlinear_arith)
        requires
            0 <= k < per,
            d * (d * (z * c)) <= v < d * (d * (z * (c + 1))),
    ;
    assert(per * (d * (d * (z * c))) == block_len(f) * c) by (nonlinear_arith)
        requires
            block_len(f) == per * d * d * z,
    ;
    assert(per * (d * (d * (z * (c + 1)))) == block_len(f) * (c + 1)) by (nonlinear_arith)
        requires
            block_len(f) == per * d * d * z,
    ;
}

/// Two slots of the field at different positions, or different slots at one
/// position, address different weights.
proof fn lemma_field_index_unique(
    f: ColumnField,
    cis: Seq<i32>,
    x: int,
    y: int,
    k: int,
    x2: int,
    y2: int,
    k2: int,
)
    requires
        field_valid(f, cis, block_len(f) * (f.col + 1)),
        in_field(f, x, y),
        in_field(f, x2, y2),
        0 <= k < f.per,
        0 <= k2 < f.per,
        field_base(f, cis, x, y) + k == field_base(f, cis, x2, y2) + k2,
    ensures
        x == x2,
        y == y2,
        k == k2,
{
    lemma_field_position(f, cis, x, y);
    lemma_field_position(f, cis, x2, y2);
    let d = diam(f);
    let z = f.size.z as int;
    let c = f.col as int;
    let per = f.per as int;
    let ox = x - (f.center.x - f.radius);
    let oy = y - (f.center.y - f.radius);
    let t = cis[visible_index(f, x, y)] as int + z * c;
    let u = ox + d * t;
    let ox2 = x2 - (f.center.x - f.radius);
    let oy2 = y2 - (f.center.y - f.radius);
    let t2 = cis[visible_index(f, x2, y2)] as int + z * c;
    let u2 = ox2 + d * t2;
    lemma_radix_unique(k, oy + d * u, k2, oy2 + d * u2, per);
    lemma_radix_unique(oy, u, oy2, u2, d);
    lemma_radix_unique(ox, t, ox2, t2, d);
}

/// Every weight that the field addresses lies in `[lo, hi]`: then so does
/// each term of a column sum, and the sum is bounded by the number of terms.
proof fn lemma_column_sum_bound(
    w: Seq<int>,
    f: ColumnField,
    cis: Seq<i32>,
    k: int,
    x: int,
    y0: int,
    y1: int,
    lo: int,
    hi: int,
)
    requires
        field_valid(f, cis, w.len() as int),
        0 <= k < f.per,
        lo <= 0 <= hi,
        forall|j: int| 0 <= j < w.len() ==> lo <= #[trigger] w[j] <= hi,
        forall|y: int| y0 <= y <= y1 ==> in_field(f, x, y),
    ensures
        y1 < y0 ==> column_sum(w, f, cis, k, x, y0, y1) == 0,
        y0 <= y1 ==> lo * (y1 - y0 + 1) <= column_sum(w, f, cis, k, x, y0, y1) <= hi * (y1 - y0
            + 1),
    decreases y1 + 1 - y0,
{
    if y0 <= y1 {
        lemma_column_sum_bound(w, f, cis, k, x, y0, y1 - 1, lo, hi);
        lemma_field_index(f, cis, x, y1, k);
        assert(block_len(f) * (f.col + 1) <= w.len());
        let j = field_base(f, cis, x, y1) + k;
        assert(lo <= w[j] <= hi);
        let cs = column_sum(w, f, cis, k, x, y0, y1 - 1);
        let n = y1 - y0;
        assert(lo * (n + 1) <= cs + w[j] <= hi * (n + 1)) by (nonlinear_arith)
            requires
                lo <= 0 <= hi,
                0 <= n,
                n == 0 ==> cs == 0,
                n > 0 ==> lo * n <= cs <= hi * n,
                lo <= w[j] <= hi,
        ;
    }
}

proof fn lemma_field_sum_bound(
    w: Seq<int>,
    f: ColumnField,
    cis: Seq<i32>,
    k: int,
    x0: int,
    x1: int,
    y0: int,
    y1: int,
    lo: int,
    hi: int,
)
    requires
        field_valid(f, cis, w.len() as int),
        0 <= k < f.per,
        lo <= 0 <= hi,
        y0 <= y1 + 1,
        forall|j: int| 0 <= j < w.len() ==> lo <= #[trigger] w[j] <= hi,
        forall|x: int, y: int| x0 <= x <= x1 && y0 <= y <= y1 ==> in_field(f, x, y),
    ensures
        x1 < x0 ==> field_sum(w, f, cis, k, x0, x1, y0, y1) == 0,
        x0 <= x1 ==> lo * ((x1 - x0 + 1) * (y1 - y0 + 1)) <= field_sum(w, f, cis, k, x0, x1, y0, y1)
            <= hi * ((x1 - x0 + 1) * (y1 - y0 + 1)),
    decreases x1 + 1 - x0,
{
    if x0 <= x1 {
        lemma_field_sum_bound(w, f, cis, k, x0, x1 - 1, y0, y1, lo, hi);
        lemma_column_sum_bound(w, f, cis, k, x1, y0, y1, lo, hi);
        let n = y1 - y0 + 1;
        let m = x1 - x0;
        let fs = field_sum(w, f, cis, k, x0, x1 - 1, y0, y1);
        let cs = column_sum(w, f, cis, k, x1, y0, y1);
        assert(lo * ((m + 1) * n) <= fs + cs <= hi * ((m + 1) * n)) by (nonlinear_arith)
            requires
                lo <= 0 <= hi,
                0 <= m,
                0 <= n,
                m == 0 ==> fs == 0,
                m > 0 ==> lo * (m * n) <= fs <= hi * (m * n),
                n == 0 ==> cs == 0,
                n > 0 ==> lo * n <= cs <= hi * n,
        ;
    }
}

/// The weight index (less the slot) that the field of `f` uses for visible
/// column `(ix, iy)`, computed in machine arithmetic.
fn field_weight_base(f: ColumnField, b: FieldBounds, input_cis: &[i32], ix: i32, iy: i32) -> (r:
    usize)
    requires
        field_valid(f, input_cis@, block_len(f) * (f.col + 1)),
        block_len(f) * (f.col + 1) <= usize::MAX,
        is_field_bounds(b, f.center, f.radius as int, f.size),
        in_field(f, ix as int, iy as int),
    ensures
        r == field_base(f, input_cis@, ix as int, iy as int),
        r + f.per <= block_len(f) * (f.col + 1),
{
    proof {
        lemma_field_position(f, input_cis@, ix as int, iy as int);
        lemma_field_index(f, input_cis@, ix as int, iy as int, 0);
        lemma_field_index(f, input_cis@, ix as int, iy as int, f.per - 1);
        assert(0 <= ix * f.size.y <= f.size.x * f.size.y) by (nonlinear_arith)
            requires
                0 <= ix < f.size.x,
                0 <= f.size.y,
        ;
    }
    let visible_column_index = address2(Int2::new(ix, iy), Int2::new(f.size.x, f.size.y));
    let in_ci = input_cis[visible_column_index] as usize;
    let ox = (ix - b.field_lower.x) as usize;
    let oy = (iy - b.field_lower.y) as usize;
    let d = (f.radius * 2 + 1) as usize;
    let z = f.size.z as usize;
    let ghost bl = block_len(f) * (f.col + 1);
    proof {
        let c = f.col as int;
        assert(z * c + in_ci < z * (c + 1)) by (nonlinear_arith)
            requires
                0 <= in_ci < z,
        ;
        assert(z * (c + 1) <= bl) by (nonlinear_arith)
            requires
                bl == f.per * d * d * z * (c + 1),
                f.per >= 1,
                d >= 1,
                z >= 1,
                c >= 0,
        ;
        assert(z * c <= z * (c + 1)) by (nonlinear_arith)
            requires
                z >= 1,
                c >= 0,
        ;
    }
    let t = in_ci + z * f.col;
    proof {
        let c = f.col as int;
        assert(ox + d * t < d * (z * (c + 1))) by (nonlinear_arith)
            requires
                0 <= ox < d,
                0 <= t < z * (c + 1),
        ;
        assert(d * (z * (c + 1)) <= bl) by (nonlinear_arith)
            requires
                bl == f.per * d * d * z * (c + 1),
                f.per >= 1,
                d >= 1,
                z >= 1,
                c >= 0,
        ;
        assert(d * t <= d * (z * (c + 1))) by (nonlinear_arith)
            requires
                d >= 1,
                0 <= t < z * (c + 1),
        ;
    }
    let u = ox + d * t;
    proof {
        let c = f.col as int;
        assert(oy + d * u < d * (d * (z * (c + 1)))) by (nonlinear_arith)
            requires
                0 <= oy < d,
                0 <= u < d * (z * (c + 1)),
        ;
        assert(d * (d * (z * (c + 1))) <= bl) by (nonlinear_arith)
            requires
                bl == f.per * d * d * z * (c + 1),
                f.per >= 1,
                d >= 1,
                z >= 1,
                c >= 0,
        ;
        assert(d * u <= d * (d * (z * (c + 1)))) by (nonlinear_arith)
            requires
                d >= 1,
                0 <= u < d * (z * (c + 1)),
        ;
    }
    let v = oy + d * u;
    proof {
        assert(f.per * v <= f.per * v + (f.per - 1)) by (nonlinear_arith)
            requires
                f.per >= 1,
                v >= 0,
        ;
    }
    f.per * v
}

/// Sum, for each of the `per` slots, the byte weights of the field of `f` over
/// the visible columns it covers (the encoder's per-cell overlap with one
/// visible layer).
pub fn field_sums_u8(weights: &Vec<u8>, f: ColumnField, input_cis: &[i32]) -> (sums: Vec<i32>)
    requires
        field_valid(f, input_cis@, weights@.len() as int),
        255 * diam(f) * diam(f) <= i32::MAX,
    ensures
        sums@.len() == f.per,
        forall|k: int|
            0 <= k < f.per ==> #[trigger] sums@[k] == field_sum(
                weights@.map_values(|v: u8| v as int),
                f,
                input_cis@,
                k,
                lo_x(f.center, f.radius as int),
                hi_x(f.center, f.radius as int, f.size),
                lo_y(f.center, f.radius as int),
                hi_y(f.center, f.radius as int, f.size),
            ),
{
    let ghost w = weights@.map_values(|v: u8| v as int);
    let ghost cis = input_cis@;
    let wlen = weights.len();
    let b = field_bounds(f.center, f.radius, f.size);
    let per = f.per;
    let mut sums: Vec<i32> = Vec::new();
    let mut k: usize = 0;
    while k < per
        invariant
            per == f.per,
            k <= per,
            sums@.len() == k,
            forall|j: int| 0 <= j < k ==> sums@[j] == 0,
        decreases per - k,
    {
        sums.push(0);
        k = k + 1;
    }
    let lx = b.iter_lower.x;
    let ly = b.iter_lower.y;
    let ux = b.iter_upper.x;
    let uy = b.iter_upper.y;
    let ghost d = diam(f);
    proof {
        assert(forall|j: int| 0 <= j < w.len() ==> 0 <= #[trigger] w[j] <= 255);
        assert(ux - lx + 1 <= d && uy - ly + 1 <= d);
    }
    let mut ix = lx;
    while ix <= ux
        invariant
            is_field_bounds(b, f.center, f.radius as int, f.size),
            field_valid(f, cis, w.len() as int),
            w == weights@.map_values(|v: u8| v as int),
            cis == input_cis@,
            255 * d * d <= i32::MAX,
            wlen == w.len(),
            d == diam(f),
            ux - lx + 1 <= d,
            lx == b.iter_lower.x,
            ly == b.iter_lower.y,
            ux == b.iter_upper.x,
            uy == b.iter_upper.y,
            per == f.per,
            lx <= ix <= if ux + 1 > lx { ux + 1 } else { lx as int },
            sums@.len() == per,
            forall|j: int|
                0 <= j < per ==> #[trigger] sums@[j] == field_sum(w, f, cis, j, lx as int, ix - 1, ly as int, uy as int),
        decreases ux + 1 - ix,
    {
        let mut iy = ly;
        while iy <= uy
            invariant
                is_field_bounds(b, f.center, f.radius as int, f.size),
                field_valid(f, cis, w.len() as int),
                w == weights@.map_values(|v: u8| v as int),
                cis == input_cis@,
                255 * d * d <= i32::MAX,
                wlen == w.len(),
            wlen == w.len(),
                d == diam(f),
                ux - lx + 1 <= d,
                lx == b.iter_lower.x,
                ly == b.iter_lower.y,
                ux == b.iter_upper.x,
                uy == b.iter_upper.y,
                per == f.per,
                lx <= ix <= ux,
                ly <= iy <= if uy + 1 > ly { uy + 1 } else { ly as int },
                sums@.len() == per,
                forall|j: int|
                    0 <= j < per ==> #[trigger] sums@[j] == field_sum(w, f, cis, j, lx as int, ix - 1, ly as int, uy as int)
                        + column_sum(w, f, cis, j, ix as int, ly as int, iy - 1),
            decreases uy + 1 - iy,
        {
            let base = field_weight_base(f, b, input_cis, ix, iy);
            let mut k: usize = 0;
            while k < per
                invariant
                    is_field_bounds(b, f.center, f.radius as int, f.size),
                    field_valid(f, cis, w.len() as int),
                    w == weights@.map_values(|v: u8| v as int),
                    cis == input_cis@,
                    255 * d * d <= i32::MAX,
                    wlen == w.len(),
                wlen == w.len(),
            wlen == w.len(),
                    d == diam(f),
                    ux - lx + 1 <= d,
                    uy - ly + 1 <= d,
                    lx == b.iter_lower.x,
                    ly == b.iter_lower.y,
                    ux == b.iter_upper.x,
                    uy == b.iter_upper.y,
                    per == f.per,
                    lx <= ix <= ux,
                    ly <= iy <= uy,
                    base == field_base(f, cis, ix as int, iy as int),
                    base + per <= w.len(),
                    k <= per,
                    sums@.len() == per,
                    forall|j: int|
                        0 <= j < k ==> #[trigger] sums@[j] == field_sum(w, f, cis, j, lx as int, ix - 1, ly as int, uy as int)
                            + column_sum(w, f, cis, j, ix as int, ly as int, iy as int),
                    forall|j: int|
                        k <= j < per ==> #[trigger] sums@[j] == field_sum(w, f, cis, j, lx as int, ix - 1, ly as int, uy as int)
                            + column_sum(w, f, cis, j, ix as int, ly as int, iy - 1),
                decreases per - k,
            {
                proof {
                    let kk = k as int;
                    lemma_field_sum_bound(w, f, cis, kk, lx as int, ix - 1, ly as int, uy as int, 0, 255);
                    lemma_column_sum_bound(w, f, cis, kk, ix as int, ly as int, iy as int, 0, 255);
                    let fs = field_sum(w, f, cis, kk, lx as int, ix - 1, ly as int, uy as int);
                    let cs = column_sum(w, f, cis, kk, ix as int, ly as int, iy as int);
                    let m = ix - lx;
                    let n = uy - ly + 1;
                    let q = iy - ly + 1;
                    assert(fs + cs <= 255 * d * d) by (nonlinear_arith)
                        requires
                            0 <= m,
                            m + 1 <= d,
                            1 <= q <= n <= d,
                            m == 0 ==> fs == 0,
                            m > 0 ==> fs <= 255 * (m * n),
                            cs <= 255 * q,
                    ;
                    assert(0 <= fs + cs);
                    assert(w[base + kk] == weights@[base + kk] as int);
                }
                let cur = sums[k];
                sums.set(k, cur + weights[base + k] as i32);
                k = k + 1;
            }
            iy = iy + 1;
        }
        proof {
            assert forall|j: int| 0 <= j < per implies #[trigger] sums@[j] == field_sum(w, f, cis, j, lx as int, ix as int, ly as int, uy as int) by {
                if uy < ly {
                    assert(column_sum(w, f, cis, j, ix as int, ly as int, iy - 1) == 0);
                    assert(column_sum(w, f, cis, j, ix as int, ly as int, uy as int) == 0);
                }
            }
        }
        ix = ix + 1;
    }
    sums
}

/// Sum, for each of the `per` slots, the signed byte weights of the field of
/// `f` over the visible columns it covers (the decoder's per-dendrite input
/// from one visible layer).
pub fn field_sums_i8(weights: &Vec<i8>, f: ColumnField, input_cis: &[i32]) -> (sums: Vec<i32>)
    requires
        field_valid(f, input_cis@, weights@.len() as int),
        128 * diam(f) * diam(f) <= i32::MAX,
    ensures
        sums@.len() == f.per,
        forall|k: int|
            0 <= k < f.per ==> #[trigger] sums@[k] == field_sum(
                weights@.map_values(|v: i8| v as int),
                f,
                input_cis@,
                k,
                lo_x(f.center, f.radius as int),
                hi_x(f.center, f.radius as int, f.size),
                lo_y(f.center, f.radius as int),
                hi_y(f.center, f.radius as int, f.size),
            ),
{
    let ghost w = weights@.map_values(|v: i8| v as int);
    let ghost cis = input_cis@;
    let wlen = weights.len();
    let b = field_bounds(f.center, f.radius, f.size);
    let per = f.per;
    let mut sums: Vec<i32> = Vec::new();
    let mut k: usize = 0;
    while k < per
        invariant
            per == f.per,
            k <= per,
            sums@.len() == k,
            forall|j: int| 0 <= j < k ==> sums@[j] == 0,
        decreases per - k,
    {
        sums.push(0);
        k = k + 1;
    }
    let lx = b.iter_lower.x;
    let ly = b.iter_lower.y;
    let ux = b.iter_upper.x;
    let uy = b.iter_upper.y;
    let ghost d = diam(f);
    proof {
        assert(forall|j: int| 0 <= j < w.len() ==> -128 <= #[trigger] w[j] <= 127);
        assert(ux - lx + 1 <= d && uy - ly + 1 <= d);
    }
    let mut ix = lx;
    while ix <= ux
        invariant
            is_field_bounds(b, f.center, f.radius as int, f.size),
            field_valid(f, cis, w.len() as int),
            w == weights@.map_values(|v: i8| v as int),
            cis == input_cis@,
            128 * d * d <= i32::MAX,
            wlen == w.len(),
            d == diam(f),
            ux - lx + 1 <= d,
            lx == b.iter_lower.x,
            ly == b.iter_lower.y,
            ux == b.iter_upper.x,
            uy == b.iter_upper.y,
            per == f.per,
            lx <= ix <= if ux + 1 > lx { ux + 1 } else { lx as int },
            sums@.len() == per,
            forall|j: int|
                0 <= j < per ==> #[trigger] sums@[j] == field_sum(w, f, cis, j, lx as int, ix - 1, ly as int, uy as int),
        decreases ux + 1 - ix,
    {
        let mut iy = ly;
        while iy <= uy
            invariant
                is_field_bounds(b, f.center, f.radius as int, f.size),
                field_valid(f, cis, w.len() as int),
                w == weights@.map_values(|v: i8| v as int),
                cis == input_cis@,
                128 * d * d <= i32::MAX,
                wlen == w.len(),
            wlen == w.len(),
                d == diam(f),
                ux - lx + 1 <= d,
                lx == b.iter_lower.x,
                ly == b.iter_lower.y,
                ux == b.iter_upper.x,
                uy == b.iter_upper.y,
                per == f.per,
                lx <= ix <= ux,
                ly <= iy <= if uy + 1 > ly { uy + 1 } else { ly as int },
                sums@.len() == per,
                forall|j: int|
                    0 <= j < per ==> #[trigger] sums@[j] == field_sum(w, f, cis, j, lx as int, ix - 1, ly as int, uy as int)
                        + column_sum(w, f, cis, j, ix as int, ly as int, iy - 1),
            decreases uy + 1 - iy,
        {
            let base = field_weight_base(f, b, input_cis, ix, iy);
            let mut k: usize = 0;
            while k < per
                invariant
                    is_field_bounds(b, f.center, f.radius as int, f.size),
                    field_valid(f, cis, w.len() as int),
                    w == weights@.map_values(|v: i8| v as int),
                    cis == input_cis@,
                    128 * d * d <= i32::MAX,
                    wlen == w.len(),
                wlen == w.len(),
            wlen == w.len(),
                    d == diam(f),
                    ux - lx + 1 <= d,
                    uy - ly + 1 <= d,
                    lx == b.iter_lower.x,
                    ly == b.iter_lower.y,
                    ux == b.iter_upper.x,
                    uy == b.iter_upper.y,
                    per == f.per,
                    lx <= ix <= ux,
                    ly <= iy <= uy,
                    base == field_base(f, cis, ix as int, iy as int),
                    base + per <= w.len(),
                    k <= per,
                    sums@.len() == per,
                    forall|j: int|
                        0 <= j < k ==> #[trigger] sums@[j] == field_sum(w, f, cis, j, lx as int, ix - 1, ly as int, uy as int)
                            + column_sum(w, f, cis, j, ix as int, ly as int, iy as int),
                    forall|j: int|
                        k <= j < per ==> #[trigger] sums@[j] == field_sum(w, f, cis, j, lx as int, ix - 1, ly as int, uy as int)
                            + column_sum(w, f, cis, j, ix as int, ly as int, iy - 1),
                decreases per - k,
            {
                proof {
                    let kk = k as int;
                    lemma_field_sum_bound(w, f, cis, kk, lx as int, ix - 1, ly as int, uy as int, -128, 127);
                    lemma_column_sum_bound(w, f, cis, kk, ix as int, ly as int, iy as int, -128, 127);
                    let fs = field_sum(w, f, cis, kk, lx as int, ix - 1, ly as int, uy as int);
                    let cs = column_sum(w, f, cis, kk, ix as int, ly as int, iy as int);
                    let m = ix - lx;
                    let n = uy - ly + 1;
                    let q = iy - ly + 1;
                    assert(-128 * (d * d) <= fs + cs <= 127 * (d * d)) by (nonlinear_arith)
                        requires
                            0 <= m,
                            m + 1 <= d,
                            1 <= q <= n <= d,
                            m == 0 ==> fs == 0,
                            m > 0 ==> -128 * (m * n) <= fs <= 127 * (m * n),
                            -128 * q <= cs <= 127 * q,
                    ;
                    assert(128 * (d * d) == 128 * d * d) by (nonlinear_arith);
                    assert(w[base + kk] == weights@[base + kk] as int);
                }
                let cur = sums[k];
                sums.set(k, cur + weights[base + k] as i32);
                k = k + 1;
            }
            iy = iy + 1;
        }
        proof {
            assert forall|j: int| 0 <= j < per implies #[trigger] sums@[j] == field_sum(w, f, cis, j, lx as int, ix as int, ly as int, uy as int) by {
                if uy < ly {
                    assert(column_sum(w, f, cis, j, ix as int, ly as int, iy - 1) == 0);
                    assert(column_sum(w, f, cis, j, ix as int, ly as int, uy as int) == 0);
                }
            }
        }
        ix = ix + 1;
    }
    sums
}

/// `(x, y)` comes before `(ix, iy)` in the order in which the kernels walk a
/// field: by `x`, then by `y`.
pub open spec fn walked_before(x: int, y: int, ix: int, iy: int) -> bool {
    x < ix || (x == ix && y < iy)
}

/// A signed byte weight after adding `delta` and clamping to `[-127, 127]`.
pub open spec fn clamped_i8(w: i8, delta: i32) -> i8 {
    let v = w + delta;
    (if v < -127 { -127 } else if v > 127 { 127 } else { v }) as i8
}

/// A decoder weight moves by exactly its delta while the sum stays in
/// `[-127, 127]`, and stops at the nearer bound otherwise: a negative delta
/// lowers the weight, a positive one raises it.
pub proof fn lemma_clamped_i8_adds_delta(w: i8, delta: i32)
    ensures
        -127 <= w + delta <= 127 ==> clamped_i8(w, delta) == w + delta,
        w + delta < -127 ==> clamped_i8(w, delta) == -127,
        w + delta > 127 ==> clamped_i8(w, delta) == 127,
        delta < 0 && -127 <= w + delta ==> clamped_i8(w, delta) < w,
        delta > 0 && w + delta <= 127 ==> clamped_i8(w, delta) > w,
{
}

/// Add `deltas[k]` to the `k`-th slot of every weight in the field of `f`,
/// clamping each result to `[-127, 127]` (the decoder's weight update for one
/// hidden column and one visible layer). Weights outside the field are unchanged.
pub fn field_apply_deltas_i8(weights: &mut Vec<i8>, f: ColumnField, input_cis: &[i32], deltas: &[i32])
    requires
        field_valid(f, input_cis@, old(weights)@.len() as int),
        deltas@.len() == f.per,
        forall|k: int| 0 <= k < f.per ==> i32::MIN + 128 <= #[trigger] deltas@[k] <= i32::MAX - 127,
    ensures
        final(weights)@.len() == old(weights)@.len(),
        forall|x: int, y: int, k: int|
            in_field(f, x, y) && 0 <= k < f.per ==> #[trigger] final(weights)@[field_base(f, input_cis@, x, y) + k]
                == clamped_i8(old(weights)@[field_base(f, input_cis@, x, y) + k], deltas@[k]),
        forall|x: int, y: int, k: int|
            in_field(f, x, y) && 0 <= k < f.per ==> -127 <= #[trigger] final(weights)@[field_base(f, input_cis@, x, y) + k] <= 127,
        forall|x: int, y: int, k: int|
            in_field(f, x, y) && 0 <= k < f.per && -127 <= old(weights)@[field_base(f, input_cis@, x, y) + k]
                + deltas@[k] <= 127 ==> #[trigger] final(weights)@[field_base(f, input_cis@, x, y) + k]
                == old(weights)@[field_base(f, input_cis@, x, y) + k] + deltas@[k],
        forall|j: int|
            0 <= j < old(weights)@.len() && (forall|x: int, y: int, k: int|
                in_field(f, x, y) && 0 <= k < f.per ==> j != #[trigger] (field_base(f, input_cis@, x, y) + k))
                ==> final(weights)@[j] == old(weights)@[j],
        forall|j: int|
            0 <= j < old(weights)@.len() && !(block_len(f) * f.col <= j < block_len(f) * (f.col + 1))
                ==> #[trigger] final(weights)@[j] == old(weights)@[j],
        (forall|i: int| 0 <= i < old(weights)@.len() ==> -127 <= #[trigger] old(weights)@[i] <= 127)
            ==> forall|j: int| 0 <= j < final(weights)@.len() ==> -127 <= #[trigger] final(weights)@[j] <= 127,
{
    let ghost w0 = weights@;
    let ghost cis = input_cis@;
    let wlen = weights.len();
    let b = field_bounds(f.center, f.radius, f.size);
    let per = f.per;
    let lx = b.iter_lower.x;
    let ly = b.iter_lower.y;
    let ux = b.iter_upper.x;
    let uy = b.iter_upper.y;
    let mut ix = lx;
    while ix <= ux
        invariant
            is_field_bounds(b, f.center, f.radius as int, f.size),
            field_valid(f, cis, w0.len() as int),
            cis == input_cis@,
            wlen == w0.len(),
            weights@.len() == w0.len(),
            deltas@.len() == per,
            forall|k: int| 0 <= k < per ==> i32::MIN + 128 <= #[trigger] deltas@[k] <= i32::MAX - 127,
            lx == b.iter_lower.x,
            ly == b.iter_lower.y,
            ux == b.iter_upper.x,
            uy == b.iter_upper.y,
            per == f.per,
            lx <= ix <= if ux + 1 > lx { ux + 1 } else { lx as int },
            forall|x: int, y: int, k: int|
                in_field(f, x, y) && x < ix && 0 <= k < per ==> #[trigger] weights@[field_base(f, cis, x, y) + k]
                    == clamped_i8(w0[field_base(f, cis, x, y) + k], deltas@[k]),
            forall|j: int|
                0 <= j < w0.len() && (forall|x: int, y: int, k: int|
                    in_field(f, x, y) && x < ix && 0 <= k < per ==> j != #[trigger] (field_base(f, cis, x, y) + k))
                    ==> weights@[j] == w0[j],
        decreases ux + 1 - ix,
    {
        let mut iy = ly;
        while iy <= uy
            invariant
                is_field_bounds(b, f.center, f.radius as int, f.size),
                field_valid(f, cis, w0.len() as int),
                cis == input_cis@,
                wlen == w0.len(),
                weights@.len() == w0.len(),
                deltas@.len() == per,
                forall|k: int| 0 <= k < per ==> i32::MIN + 128 <= #[trigger] deltas@[k] <= i32::MAX - 127,
                lx == b.iter_lower.x,
                ly == b.iter_lower.y,
                ux == b.iter_upper.x,
                uy == b.iter_upper.y,
                per == f.per,
                lx <= ix <= ux,
                ly <= iy <= if uy + 1 > ly { uy + 1 } else { ly as int },
                forall|x: int, y: int, k: int|
                    in_field(f, x, y) && walked_before(x, y, ix as int, iy as int) && 0 <= k < per
                        ==> #[trigger] weights@[field_base(f, cis, x, y) + k] == clamped_i8(
                        w0[field_base(f, cis, x, y) + k],
                        deltas@[k],
                    ),
                forall|j: int|
                    0 <= j < w0.len() && (forall|x: int, y: int, k: int|
                        in_field(f, x, y) && walked_before(x, y, ix as int, iy as int) && 0 <= k < per ==> j
                            != #[trigger] (field_base(f, cis, x, y) + k)) ==> weights@[j] == w0[j],
            decreases uy + 1 - iy,
        {
            let base = field_weight_base(f, b, input_cis, ix, iy);
            let mut k: usize = 0;
            while k < per
                invariant
                    is_field_bounds(b, f.center, f.radius as int, f.size),
                    field_valid(f, cis, w0.len() as int),
                    cis == input_cis@,
                    wlen == w0.len(),
                    weights@.len() == w0.len(),
                    deltas@.len() == per,
                    forall|k: int| 0 <= k < per ==> i32::MIN + 128 <= #[trigger] deltas@[k] <= i32::MAX - 127,
                    lx == b.iter_lower.x,
                    ly == b.iter_lower.y,
                    ux == b.iter_upper.x,
                    uy == b.iter_upper.y,
                    per == f.per,
                    lx <= ix <= ux,
                    ly <= iy <= uy,
                    base == field_base(f, cis, ix as int, iy as int),
                    base + per <= w0.len(),
                    k <= per,
                    forall|x: int, y: int, kk: int|
                        in_field(f, x, y) && 0 <= kk < per && (walked_before(x, y, ix as int, iy as int) || (x == ix && y == iy && kk < k))
                            ==> #[trigger] weights@[field_base(f, cis, x, y) + kk] == clamped_i8(
                            w0[field_base(f, cis, x, y) + kk],
                            deltas@[kk],
                        ),
                    forall|j: int|
                        0 <= j < w0.len() && (forall|x: int, y: int, kk: int|
                            in_field(f, x, y) && 0 <= kk < per && (walked_before(x, y, ix as int, iy as int) || (x == ix && y == iy && kk < k)) ==> j
                                != #[trigger] (field_base(f, cis, x, y) + kk)) ==> weights@[j] == w0[j],
                decreases per - k,
            {
                let ghost wprev = weights@;
                let ghost jj = base + k;
                proof {
                    assert forall|x: int, y: int, kk: int|
                        in_field(f, x, y) && 0 <= kk < per && (walked_before(x, y, ix as int, iy as int) || (x == ix && y == iy && kk < k))
                        implies jj != #[trigger] (field_base(f, cis, x, y) + kk) by {
                        if jj == field_base(f, cis, x, y) + kk {
                            lemma_field_index_unique(f, cis, ix as int, iy as int, k as int, x, y, kk);
                        }
                    }
                    assert(weights@[jj] == w0[jj]);
                }
                let old_w = weights[base + k];
                let v: i32 = old_w as i32 + deltas[k];
                let c: i32 = if v < -127 {
                    -127
                } else if v > 127 {
                    127
                } else {
                    v
                };
                weights.set(base + k, c as i8);
                proof {
                    assert forall|x: int, y: int, kk: int|
                        in_field(f, x, y) && 0 <= kk < per && (walked_before(x, y, ix as int, iy as int) || (x == ix && y == iy && kk < k + 1))
                        implies #[trigger] weights@[field_base(f, cis, x, y) + kk] == clamped_i8(
                            w0[field_base(f, cis, x, y) + kk],
                            deltas@[kk],
                        ) by {
                        lemma_field_index(f, cis, x, y, kk);
                        if field_base(f, cis, x, y) + kk == jj {
                            lemma_field_index_unique(f, cis, ix as int, iy as int, k as int, x, y, kk);
                            assert(weights@[jj] == c as i8);
                            assert(w0[jj] == old_w);
                        } else {
                            assert(wprev[field_base(f, cis, x, y) + kk] == clamped_i8(
                                w0[field_base(f, cis, x, y) + kk],
                                deltas@[kk],
                            ));
                        }
                    }
                }
                k = k + 1;
            }
            iy = iy + 1;
        }
        ix = ix + 1;
    }
    proof {
        assert forall|x: int, y: int, k: int|
            in_field(f, x, y) && 0 <= k < f.per && -127 <= w0[field_base(f, cis, x, y) + k] + deltas@[k] <= 127
            implies #[trigger] weights@[field_base(f, cis, x, y) + k] == w0[field_base(f, cis, x, y) + k]
            + deltas@[k] by {
            lemma_clamped_i8_adds_delta(w0[field_base(f, cis, x, y) + k], deltas@[k]);
        }
        assert forall|j: int|
            0 <= j < w0.len() && !(block_len(f) * f.col <= j < block_len(f) * (f.col + 1))
            implies #[trigger] weights@[j] == w0[j] by {
            assert forall|x: int, y: int, k: int| in_field(f, x, y) && 0 <= k < f.per
                implies j != #[trigger] (field_base(f, cis, x, y) + k) by {
                lemma_field_index(f, cis, x, y, k);
            }
        }
        assert forall|j: int|
            (forall|i: int| 0 <= i < w0.len() ==> -127 <= #[trigger] w0[i] <= 127) && 0 <= j < w0.len()
            implies -127 <= #[trigger] weights@[j] <= 127 by {
            if exists|x: int, y: int, k: int| in_field(f, x, y) && 0 <= k < f.per && j == #[trigger] (field_base(f, cis, x, y) + k) {
                let (x, y, k) = choose|x: int, y: int, k: int| in_field(f, x, y) && 0 <= k < f.per && j == #[trigger] (field_base(f, cis, x, y) + k);
                assert(-127 <= weights@[field_base(f, cis, x, y) + k] <= 127);
            } else {
                assert(forall|x: int, y: int, k: int| in_field(f, x, y) && 0 <= k < f.per
                    ==> j != #[trigger] (field_base(f, cis, x, y) + k));
                assert(weights@[j] == w0[j]);
            }
        }
    }
}

/// A byte weight after adding the step `table[w]` chosen for its current value
/// `w`, capped above at 255 and taken as a byte.
pub open spec fn learned_u8(w: u8, table: Seq<i32>) -> u8 {
    let v = w + table[w as int];
    (if v < 255 { v } else { 255 }) as u8
}

/// An encoder weight moves by exactly its step while the sum stays below
/// 255, and becomes 255 otherwise: a positive step strictly raises an
/// unsaturated weight.
pub proof fn lemma_learned_u8_adds_step(w: u8, table: Seq<i32>)
    requires
        0 <= w + table[w as int],
    ensures
        w + table[w as int] < 255 ==> learned_u8(w, table) == w + table[w as int],
        w + table[w as int] >= 255 ==> learned_u8(w, table) == 255,
        table[w as int] > 0 && w < 255 ==> learned_u8(w, table) > w,
{
}

/// The change of each weight of `w` under [`learned_u8`].
pub open spec fn learn_gains(w: Seq<u8>, table: Seq<i32>) -> Seq<int> {
    Seq::new(w.len(), |j: int| learned_u8(w[j], table) - w[j])
}

/// With no negative step in `table`, learning never lowers a weight.
pub proof fn lemma_learning_never_lowers(w: u8, table: Seq<i32>)
    requires
        table.len() == 256,
        forall|v: int| 0 <= v < 256 ==> #[trigger] table[v] >= 0,
    ensures
        learned_u8(w, table) >= w,
{
    assert(table[w as int] >= 0);
}

/// The running total stays an `i32` as the gains `g` of slot `slot` are
/// added to `t` one field position at a time, in the order the field is walked
/// (by rows of `x`, each row by `y`).
pub open spec fn running_totals_fit(t: int, g: Seq<int>, f: ColumnField, cis: Seq<i32>, slot: int) -> bool {
    let lx = lo_x(f.center, f.radius as int);
    let ux = hi_x(f.center, f.radius as int, f.size);
    let ly = lo_y(f.center, f.radius as int);
    let uy = hi_y(f.center, f.radius as int, f.size);
    forall|x: int, y: int|
        lx <= x <= ux && ly <= y <= uy ==> i32::MIN <= t + field_sum(g, f, cis, slot, lx, x - 1, ly, uy)
            + #[trigger] column_sum(g, f, cis, slot, x, ly, y) <= i32::MAX
}

/// Move slot `slot` of every byte weight in the field of `f` by the step that
/// `table` gives for its current value, capped at 255, and add the total change
/// to `totals[cell]` (the encoder's learning update for the winning cell of one
/// hidden column and one visible layer). Other weights and totals are unchanged.
pub fn field_learn_u8(
    weights: &mut Vec<u8>,
    totals: &mut Vec<i32>,
    f: ColumnField,
    input_cis: &[i32],
    slot: usize,
    cell: usize,
    table: &[i32],
)
    requires
        field_valid(f, input_cis@, old(weights)@.len() as int),
        slot < f.per,
        cell < old(totals)@.len(),
        table@.len() == 256,
        forall|v: int| 0 <= v < 256 ==> #[trigger] table@[v] + v <= i32::MAX,
        running_totals_fit(
            old(totals)@[cell as int] as int,
            learn_gains(old(weights)@, table@),
            f,
            input_cis@,
            slot as int,
        ),
    ensures
        final(weights)@.len() == old(weights)@.len(),
        forall|x: int, y: int|
            in_field(f, x, y) ==> #[trigger] final(weights)@[field_base(f, input_cis@, x, y) + slot]
                == learned_u8(old(weights)@[field_base(f, input_cis@, x, y) + slot], table@),
        forall|x: int, y: int|
            in_field(f, x, y) && 0 <= old(weights)@[field_base(f, input_cis@, x, y) + slot] + table@[old(
                weights,
            )@[field_base(f, input_cis@, x, y) + slot] as int] < 255 ==> #[trigger] final(weights)@[field_base(
                f,
                input_cis@,
                x,
                y,
            ) + slot] == old(weights)@[field_base(f, input_cis@, x, y) + slot] + table@[old(
                weights,
            )@[field_base(f, input_cis@, x, y) + slot] as int],
        forall|j: int|
            0 <= j < old(weights)@.len() && (forall|x: int, y: int|
                in_field(f, x, y) ==> j != #[trigger] (field_base(f, input_cis@, x, y) + slot))
                ==> final(weights)@[j] == old(weights)@[j],
        forall|j: int|
            0 <= j < old(weights)@.len() && !(block_len(f) * f.col <= j < block_len(f) * (f.col + 1))
                ==> #[trigger] final(weights)@[j] == old(weights)@[j],
        (forall|v: int| 0 <= v < 256 ==> #[trigger] table@[v] >= 0) ==> forall|j: int|
            0 <= j < final(weights)@.len() ==> #[trigger] final(weights)@[j] >= old(weights)@[j],
        final(totals)@ == old(totals)@.update(
            cell as int,
            (old(totals)@[cell as int] + field_sum(
                learn_gains(old(weights)@, table@),
                f,
                input_cis@,
                slot as int,
                lo_x(f.center, f.radius as int),
                hi_x(f.center, f.radius as int, f.size),
                lo_y(f.center, f.radius as int),
                hi_y(f.center, f.radius as int, f.size),
            )) as i32,
        ),
{
    let ghost w0 = weights@;
    let ghost t0 = totals@;
    let ghost g = learn_gains(w0, table@);
    let ghost cis = input_cis@;
    let ghost d = diam(f);
    let ghost sl = slot as int;
    let wlen = weights.len();
    let b = field_bounds(f.center, f.radius, f.size);
    let lx = b.iter_lower.x;
    let ly = b.iter_lower.y;
    let ux = b.iter_upper.x;
    let uy = b.iter_upper.y;
    let mut ix = lx;
    while ix <= ux
        invariant
            is_field_bounds(b, f.center, f.radius as int, f.size),
            field_valid(f, cis, w0.len() as int),
            cis == input_cis@,
            g == learn_gains(w0, table@),
            wlen == w0.len(),
            weights@.len() == w0.len(),
            totals@.len() == t0.len(),
            cell < t0.len(),
            sl == slot,
            slot < f.per,
            table@.len() == 256,
            forall|v: int| 0 <= v < 256 ==> #[trigger] table@[v] + v <= i32::MAX,
            running_totals_fit(t0[cell as int] as int, g, f, cis, sl),
            lx == b.iter_lower.x,
            ly == b.iter_lower.y,
            ux == b.iter_upper.x,
            uy == b.iter_upper.y,
            lx <= ix <= if ux + 1 > lx { ux + 1 } else { lx as int },
            forall|x: int, y: int|
                in_field(f, x, y) && x < ix ==> #[trigger] weights@[field_base(f, cis, x, y) + sl]
                    == learned_u8(w0[field_base(f, cis, x, y) + sl], table@),
            forall|j: int|
                0 <= j < w0.len() && (forall|x: int, y: int|
                    in_field(f, x, y) && x < ix ==> j != #[trigger] (field_base(f, cis, x, y) + sl))
                    ==> weights@[j] == w0[j],
            totals@ == t0.update(
                cell as int,
                (t0[cell as int] + field_sum(g, f, cis, sl, lx as int, ix - 1, ly as int, uy as int)) as i32,
            ),
        decreases ux + 1 - ix,
    {
        let mut iy = ly;
        while iy <= uy
            invariant
                is_field_bounds(b, f.center, f.radius as int, f.size),
                field_valid(f, cis, w0.len() as int),
                cis == input_cis@,
                g == learn_gains(w0, table@),
                wlen == w0.len(),
                weights@.len() == w0.len(),
                totals@.len() == t0.len(),
                cell < t0.len(),
                sl == slot,
                slot < f.per,
                table@.len() == 256,
                forall|v: int| 0 <= v < 256 ==> #[trigger] table@[v] + v <= i32::MAX,
                running_totals_fit(t0[cell as int] as int, g, f, cis, sl),
                lx == b.iter_lower.x,
                ly == b.iter_lower.y,
                ux == b.iter_upper.x,
                uy == b.iter_upper.y,
                lx <= ix <= ux,
                ly <= iy <= if uy + 1 > ly { uy + 1 } else { ly as int },
                forall|x: int, y: int|
                    in_field(f, x, y) && walked_before(x, y, ix as int, iy as int) ==> #[trigger] weights@[field_base(f, cis, x, y) + sl]
                        == learned_u8(w0[field_base(f, cis, x, y) + sl], table@),
                forall|j: int|
                    0 <= j < w0.len() && (forall|x: int, y: int|
                        in_field(f, x, y) && walked_before(x, y, ix as int, iy as int) ==> j != #[trigger] (field_base(f, cis, x, y) + sl))
                        ==> weights@[j] == w0[j],
                totals@ == t0.update(
                    cell as int,
                    (t0[cell as int] + field_sum(g, f, cis, sl, lx as int, ix - 1, ly as int, uy as int)
                        + column_sum(g, f, cis, sl, ix as int, ly as int, iy - 1)) as i32,
                ),
            decreases uy + 1 - iy,
        {
            let base = field_weight_base(f, b, input_cis, ix, iy);
            let wi = base + slot;
            let ghost wprev = weights@;
            proof {
                assert forall|x: int, y: int|
                    in_field(f, x, y) && walked_before(x, y, ix as int, iy as int)
                    implies wi != #[trigger] (field_base(f, cis, x, y) + sl) by {
                    if wi == field_base(f, cis, x, y) + sl {
                        lemma_field_index_unique(f, cis, ix as int, iy as int, sl, x, y, sl);
                    }
                }
                assert(weights@[wi as int] == w0[wi as int]);
                lemma_field_index(f, cis, ix as int, iy as int, sl);
                assert(g[wi as int] == learned_u8(w0[wi as int], table@) - w0[wi as int]);
                let fs = field_sum(g, f, cis, sl, lx as int, ix - 1, ly as int, uy as int);
                let cs = column_sum(g, f, cis, sl, ix as int, ly as int, iy as int);
                let cs0 = column_sum(g, f, cis, sl, ix as int, ly as int, iy - 1);
                assert(i32::MIN <= t0[cell as int] + fs + cs <= i32::MAX);
                if iy > ly {
                    assert(i32::MIN <= t0[cell as int] + fs + column_sum(g, f, cis, sl, ix as int, ly as int, iy - 1) <= i32::MAX);
                } else {
                    if ix > lx {
                        assert(i32::MIN <= t0[cell as int] + field_sum(g, f, cis, sl, lx as int, ix - 2, ly as int, uy as int)
                            + column_sum(g, f, cis, sl, ix - 1, ly as int, uy as int) <= i32::MAX);
                    }
                }
                assert(totals@[cell as int] == t0[cell as int] + fs + cs0);
            }
            let w_old = weights[wi];
            let s: i32 = w_old as i32 + table[w_old as usize];
            let m: i32 = if s < 255 {
                s
            } else {
                255
            };
            let w_new = m as u8;
            weights.set(wi, w_new);
            let t = totals[cell];
            totals.set(cell, t + (w_new as i32 - w_old as i32));
            proof {
                assert forall|x: int, y: int|
                    in_field(f, x, y) && walked_before(x, y, ix as int, iy as int + 1)
                    implies #[trigger] weights@[field_base(f, cis, x, y) + sl] == learned_u8(
                        w0[field_base(f, cis, x, y) + sl],
                        table@,
                    ) by {
                    lemma_field_index(f, cis, x, y, sl);
                    if field_base(f, cis, x, y) + sl == wi {
                        lemma_field_index_unique(f, cis, ix as int, iy as int, sl, x, y, sl);
                    } else {
                        assert(wprev[field_base(f, cis, x, y) + sl] == learned_u8(
                            w0[field_base(f, cis, x, y) + sl],
                            table@,
                        ));
                    }
                }
            }
            iy = iy + 1;
        }
        proof {
            if uy < ly {
                assert(column_sum(g, f, cis, sl, ix as int, ly as int, iy - 1) == 0);
                assert(column_sum(g, f, cis, sl, ix as int, ly as int, uy as int) == 0);
            }
            assert(field_sum(g, f, cis, sl, lx as int, ix as int, ly as int, uy as int) == field_sum(g, f, cis, sl, lx as int, ix - 1, ly as int, uy as int)
                + column_sum(g, f, cis, sl, ix as int, ly as int, uy as int));
        }
        ix = ix + 1;
    }
    proof {
        assert forall|x: int, y: int|
            in_field(f, x, y) && 0 <= w0[field_base(f, cis, x, y) + sl] + table@[w0[field_base(f, cis, x, y) + sl] as int] < 255
            implies #[trigger] weights@[field_base(f, cis, x, y) + sl] == w0[field_base(f, cis, x, y) + sl]
            + table@[w0[field_base(f, cis, x, y) + sl] as int] by {
            lemma_learned_u8_adds_step(w0[field_base(f, cis, x, y) + sl], table@);
        }
        assert forall|j: int|
            0 <= j < w0.len() && !(block_len(f) * f.col <= j < block_len(f) * (f.col + 1))
            implies #[trigger] weights@[j] == w0[j] by {
            assert forall|x: int, y: int| in_field(f, x, y)
                implies j != #[trigger] (field_base(f, cis, x, y) + sl) by {
                lemma_field_index(f, cis, x, y, sl);
            }
        }
        if forall|v: int| 0 <= v < 256 ==> #[trigger] table@[v] >= 0 {
            assert forall|j: int| 0 <= j < weights@.len() implies #[trigger] weights@[j] >= w0[j] by {
                if exists|x: int, y: int| in_field(f, x, y) && j == #[trigger] (field_base(f, cis, x, y) + sl) {
                    let (x, y) = choose|x: int, y: int| in_field(f, x, y) && j == #[trigger] (field_base(f, cis, x, y) + sl);
                    assert(weights@[field_base(f, cis, x, y) + sl] == learned_u8(w0[field_base(f, cis, x, y) + sl], table@));
                    lemma_learning_never_lowers(w0[j], table@);
                } else {
                    assert(forall|x: int, y: int| in_field(f, x, y) ==> j != #[trigger] (field_base(f, cis, x, y) + sl));
                    assert(weights@[j] == w0[j]);
                }
            }
        }
    }
}

} // verus!
