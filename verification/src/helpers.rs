use vstd::prelude::*;
use crate::stream::{
    decode_i32, decode_u32, encode_i32, encode_u32, i32_from_le, i8_seq_bytes, le_bytes_i32,
    le_bytes_i32_seq, le_bytes_int3, le_bytes_u32, le_bytes_u32_seq, u32_from_le,
};

verus! {

/// 2-D integer coordinate used for spatial column positions.
#[derive(Clone, Copy, Default, Debug, PartialEq, Eq, Structural)]
pub struct Int2 {
    pub x: i32,
    pub y: i32,
}

impl Int2 {
    /// Construct a new [`Int2`].
    pub fn new(x: i32, y: i32) -> (r: Self)
        ensures
            r.x == x,
            r.y == y,
    {
        Int2 { x, y }
    }
}

/// 3-D integer size descriptor.
///
/// For layers: `x` and `y` are the spatial grid dimensions (number of columns
/// along each axis), and `z` is the column size (number of cells per column).
#[derive(Clone, Copy, Default, Debug, PartialEq, Eq, Structural)]
pub struct Int3 {
    pub x: i32,
    pub y: i32,
    pub z: i32,
}

impl Int3 {
    /// Construct a new [`Int3`].
    pub fn new(x: i32, y: i32, z: i32) -> (r: Self)
        ensures
            r.x == x,
            r.y == y,
            r.z == z,
    {
        Int3 { x, y, z }
    }
}

/// 4-D integer coordinate.
#[derive(Clone, Copy, Default, Debug, PartialEq, Eq, Structural)]
pub struct Int4 {
    pub x: i32,
    pub y: i32,
    pub z: i32,
    pub w: i32,
}

impl Int4 {
    /// Construct a new [`Int4`].
    pub fn new(x: i32, y: i32, z: i32, w: i32) -> (r: Self)
        ensures
            r.x == x,
            r.y == y,
            r.z == z,
            r.w == w,
    {
        Int4 { x, y, z, w }
    }
}

/// Describes one visible (input) connection to a compute layer.
///
/// The receptive field of each hidden column covers a `(2*radius+1) x (2*radius+1)`
/// patch centred on the projected position in the visible layer.
#[derive(Clone, Copy, Debug, PartialEq, Eq, Structural)]
pub struct VisibleLayerDesc {
    /// Spatial size `(x, y, z)` of the visible layer.
    pub size: Int3,
    /// Half-width of the square receptive field (in visible-layer column units).
    pub radius: i32,
}

impl Default for VisibleLayerDesc {
    fn default() -> (r: Self)
        ensures
            r.size == (Int3 { x: 5, y: 5, z: 16 }),
            r.radius == 2,
    {
        VisibleLayerDesc { size: Int3::new(5, 5, 16), radius: 2 }
    }
}

/// Truncating (round toward zero) integer division, as Rust's `/` on signed integers.
pub open spec fn trunc_div(x: int, y: int) -> int {
    let q = (if x >= 0 { x } else { -x }) / (if y >= 0 { y } else { -y });
    if (x >= 0) == (y >= 0) { q } else { -q }
}

/// Ceiling integer division: `ceil(x / y)`, computed as `(x + y - 1) / y` with
/// Rust's truncating division.
pub fn ceil_divide(x: i32, y: i32) -> (r: i32)
    requires
        y != 0,
        i32::MIN <= x + y <= i32::MAX,
        i32::MIN <= x + y - 1,
        !(y == -1 && x + y - 1 == i32::MIN),
    ensures
        r == trunc_div(x + y - 1, y as int),
{
    let n: i64 = (x + y - 1) as i64;
    let d: i64 = y as i64;
    let an: i64 = if n >= 0 { n } else { -n };
    let ad: i64 = if d >= 0 { d } else { -d };
    let q: i64 = an / ad;
    assert(0 <= q <= an) by (nonlinear_arith)
        requires
            q == an / ad,
            an >= 0,
            ad >= 1,
    ;
    if (n >= 0) == (d >= 0) {
        assert(q <= i32::MAX) by (nonlinear_arith)
            requires
                q == an / ad,
                0 <= an <= 0x8000_0000,
                ad >= 1,
                an == 0x8000_0000 ==> ad >= 2,
        ;
        q as i32
    } else {
        (-q) as i32
    }
}


// --- Bounds checking ---

/// Returns `true` if `pos` is within `[0, upper_bound)` in both axes.
pub fn in_bounds0(pos: Int2, upper_bound: Int2) -> (r: bool)
    ensures
        r == (0 <= pos.x < upper_bound.x && 0 <= pos.y < upper_bound.y),
{
    pos.x >= 0 && pos.x < upper_bound.x && pos.y >= 0 && pos.y < upper_bound.y
}

/// Returns `true` if `pos` is within `[lower_bound, upper_bound)` in both axes.
pub fn in_bounds(pos: Int2, lower_bound: Int2, upper_bound: Int2) -> (r: bool)
    ensures
        r == (lower_bound.x <= pos.x < upper_bound.x && lower_bound.y <= pos.y < upper_bound.y),
{
    pos.x >= lower_bound.x && pos.x < upper_bound.x && pos.y >= lower_bound.y && pos.y
        < upper_bound.y
}

// --- Overhang clamping ---

/// One axis of [`min_overhang`]: a coordinate whose field would stick out on
/// exactly one side is moved so that the field touches that side.
pub open spec fn overhang_axis(p: int, size: int, radius: int) -> int {
    let over_pos = p + radius >= size;
    let over_neg = p - radius < 0;
    if over_pos && !over_neg {
        size - 1 - radius
    } else if over_neg && !over_pos {
        radius
    } else {
        p
    }
}

/// No `i32` overflow in the arithmetic of one axis of [`min_overhang`].
/// The clamp to the far side is computed only when the field sticks out on
/// that side alone.
pub open spec fn overhang_axis_fits(p: int, size: int, radius: int) -> bool {
    &&& i32::MIN <= p + radius <= i32::MAX
    &&& i32::MIN <= p - radius <= i32::MAX
    &&& (p + radius >= size && p - radius >= 0) ==> {
        &&& i32::MIN <= size - 1 <= i32::MAX
        &&& i32::MIN <= size - 1 - radius <= i32::MAX
    }
}

/// Clamp `pos` so that a receptive field of `radii` fits entirely within `size`.
pub fn min_overhang(pos: Int2, size: Int2, radii: Int2) -> (r: Int2)
    requires
        overhang_axis_fits(pos.x as int, size.x as int, radii.x as int),
        overhang_axis_fits(pos.y as int, size.y as int, radii.y as int),
    ensures
        r.x == overhang_axis(pos.x as int, size.x as int, radii.x as int),
        r.y == overhang_axis(pos.y as int, size.y as int, radii.y as int),
{
    let mut new_pos = pos;

    let overhang_px = new_pos.x + radii.x >= size.x;
    let overhang_nx = new_pos.x - radii.x < 0;
    let overhang_py = new_pos.y + radii.y >= size.y;
    let overhang_ny = new_pos.y - radii.y < 0;

    if overhang_px && !overhang_nx {
        new_pos.x = size.x - 1 - radii.x;
    } else if overhang_nx && !overhang_px {
        new_pos.x = radii.x;
    }
    if overhang_py && !overhang_ny {
        new_pos.y = size.y - 1 - radii.y;
    } else if overhang_ny && !overhang_py {
        new_pos.y = radii.y;
    }

    new_pos
}

/// Like [`min_overhang`] but with a scalar (isotropic) radius.
pub fn min_overhang_scalar(pos: Int2, size: Int2, radius: i32) -> (r: Int2)
    requires
        overhang_axis_fits(pos.x as int, size.x as int, radius as int),
        overhang_axis_fits(pos.y as int, size.y as int, radius as int),
    ensures
        r.x == overhang_axis(pos.x as int, size.x as int, radius as int),
        r.y == overhang_axis(pos.y as int, size.y as int, radius as int),
{
    min_overhang(pos, size, Int2::new(radius, radius))
}

// --- Addressing (row-major) ---

/// Compute a flat row-major index from a 2-D position and dimensions.
pub fn address2(pos: Int2, dims: Int2) -> (r: usize)
    requires
        i32::MIN <= pos.x * dims.y <= i32::MAX,
        i32::MIN <= pos.y + pos.x * dims.y <= i32::MAX,
    ensures
        r == (pos.y + pos.x * dims.y) as usize,
{
    (pos.y + pos.x * dims.y) as usize
}

/// Compute a flat row-major index from a 3-D position and dimensions.
pub fn address3(pos: Int3, dims: Int3) -> (r: usize)
    requires
        i32::MIN <= dims.y * pos.x <= i32::MAX,
        i32::MIN <= pos.y + dims.y * pos.x <= i32::MAX,
        i32::MIN <= dims.z * (pos.y + dims.y * pos.x) <= i32::MAX,
        i32::MIN <= pos.z + dims.z * (pos.y + dims.y * pos.x) <= i32::MAX,
    ensures
        r == (pos.z + dims.z * (pos.y + dims.y * pos.x)) as usize,
{
    (pos.z + dims.z * (pos.y + dims.y * pos.x)) as usize
}

/// Compute a flat row-major index from a 4-D position and dimensions.
pub fn address4(pos: Int4, dims: Int4) -> (r: usize)
    requires
        i32::MIN <= dims.y * pos.x <= i32::MAX,
        i32::MIN <= pos.y + dims.y * pos.x <= i32::MAX,
        i32::MIN <= dims.z * (pos.y + dims.y * pos.x) <= i32::MAX,
        i32::MIN <= pos.z + dims.z * (pos.y + dims.y * pos.x) <= i32::MAX,
        i32::MIN <= dims.w * (pos.z + dims.z * (pos.y + dims.y * pos.x)) <= i32::MAX,
        i32::MIN <= pos.w + dims.w * (pos.z + dims.z * (pos.y + dims.y * pos.x)) <= i32::MAX,
    ensures
        r == (pos.w + dims.w * (pos.z + dims.z * (pos.y + dims.y * pos.x))) as usize,
{
    (pos.w + dims.w * (pos.z + dims.z * (pos.y + dims.y * pos.x))) as usize
}

// --- PCG32 RNG ---

/// Offset applied when deriving per-column RNG seeds to avoid seed collisions.
pub const RAND_SUBSEED_OFFSET: u64 = 12345;

/// Noise range (integer) for initial weight randomization. Byte weights are
/// sampled uniformly from `[0, INIT_WEIGHT_NOISEI)`.
pub const INIT_WEIGHT_NOISEI: u32 = 8;

/// Modulus that turns a draw of [`rand_step`] (a full 32-bit output) into a
/// 24-bit integer, and the divisor that turns that into a float in `[0, 1)`.
pub const RAND_MAX: u32 = 0x00ffffff;

/// Multiplier of the PCG32 linear congruential state update.
pub const PCG_MULTIPLIER: u64 = 6364136223846793005;

/// Increment of the PCG32 linear congruential state update.
pub const PCG_INCREMENT: u64 = 1442695040888963407;

/// The state that follows `state` in the PCG32 stream.
pub open spec fn pcg_advance(state: u64) -> u64 {
    state.wrapping_mul(PCG_MULTIPLIER).wrapping_add(PCG_INCREMENT)
}

/// Rotate a 32-bit word right by `r` bits (`r < 32`).
pub open spec fn rotr32_spec(x: u32, r: u32) -> u32 {
    x >> r | x << (0u32.wrapping_sub(r) & 31u32)
}

/// The 32-bit output that PCG32 derives from `state` (the XSH-RR permutation).
pub open spec fn pcg_output(state: u64) -> u32 {
    let x = state ^ (state >> 18u64);
    rotr32_spec((x >> 27u64) as u32, (state >> 59u64) as u32)
}

/// The state reached from `state` after `n` draws.
pub open spec fn pcg_state_after(state: u64, n: nat) -> u64
    decreases n,
{
    if n == 0 {
        state
    } else {
        pcg_advance(pcg_state_after(state, (n - 1) as nat))
    }
}

/// The `n`-th output (counting from zero) of the stream that starts at `state`.
pub open spec fn pcg_nth_output(state: u64, n: nat) -> u32 {
    pcg_output(pcg_state_after(state, n))
}

/// Derive an initial PCG32 RNG state from an arbitrary `seed` integer.
pub fn rand_get_state(seed: u64) -> (r: u64)
    ensures
        r == pcg_advance(seed.wrapping_add(PCG_INCREMENT)),
{
    let state = seed.wrapping_add(PCG_INCREMENT);
    state.wrapping_mul(PCG_MULTIPLIER).wrapping_add(PCG_INCREMENT)
}

fn rotr32(x: u32, r: u32) -> (res: u32)
    requires
        r < 32,
    ensures
        res == rotr32_spec(x, r),
{
    let s = 0u32.wrapping_sub(r) & 31;
    assert(s < 32) by (bit_vector)
        requires
            s == 0u32.wrapping_sub(r) & 31u32,
    ;
    x >> r | x << s
}

/// Advance the PCG32 `state` by one step and return the 32-bit output.
pub fn rand_step(state: &mut u64) -> (r: u32)
    ensures
        r == pcg_output(*old(state)),
        *final(state) == pcg_advance(*old(state)),
{
    let x = *state;
    let count = (x >> 59) as u32;
    assert((x >> 59u64) < 32) by (bit_vector);
    *state = x.wrapping_mul(PCG_MULTIPLIER).wrapping_add(PCG_INCREMENT);
    let x = x ^ (x >> 18);
    rotr32((x >> 27) as u32, count)
}

// --- CircleBuffer ---

/// Position in the storage of logical element `index` of a ring whose front is
/// at `start` and whose capacity is `len`.
pub open spec fn ring_slot(start: int, len: int, index: int) -> int {
    (start + index) % len
}

/// The front position after one [`CircleBuffer::push_front`] on a ring of
/// capacity `len` whose front was at `start`.
pub open spec fn ring_pushed_start(start: int, len: int) -> int {
    if len == 0 {
        start
    } else if start == 0 {
        len - 1
    } else {
        start - 1
    }
}

/// A fixed-capacity ring buffer with O(1) push-to-front.
///
/// Elements are stored in a `Vec` and accessed via a rotating `start` index;
/// logical element `i` (0 = front, newest) lives at `data[(start + i) % len]`.
#[derive(Clone, Debug)]
pub struct CircleBuffer<T> {
    /// Raw storage. Elements may be in any rotated order; use [`get`](Self::get)
    /// and [`front`](Self::front) for correct access.
    pub data: Vec<T>,
    /// Index of the logical front element.
    pub start: usize,
}

impl<T> CircleBuffer<T> {
    /// The buffer's front lies inside its storage (or the buffer is empty).
    pub open spec fn wf(&self) -> bool {
        self.data@.len() == 0 || self.start < self.data@.len()
    }

    /// The elements in logical order, front (newest) first.
    pub open spec fn logical(&self) -> Seq<T> {
        Seq::new(
            self.data@.len(),
            |i: int| self.data@[ring_slot(self.start as int, self.data@.len() as int, i)],
        )
    }
}

impl<T: Default + Clone> CircleBuffer<T> {
    /// Create an empty buffer (capacity 0).
    pub fn new() -> (r: Self)
        ensures
            r.data@.len() == 0,
            r.start == 0,
    {
        CircleBuffer { data: Vec::new(), start: 0 }
    }

    /// Resize the buffer to `size` elements, filling new slots with `T::default()`.
    pub fn resize(&mut self, size: usize)
        ensures
            final(self).data@.len() == size,
            final(self).start == old(self).start,
            forall|i: int|
                0 <= i < size && i < old(self).data@.len() ==> final(self).data@[i]
                    == old(self).data@[i],
            exists|d: T|
                call_ensures(T::default, (), d) && forall|i: int|
                    old(self).data@.len() <= i < size ==> cloned::<T>(d, #[trigger] final(self).data@[i]),
    {
        let d = T::default();
        let ghost dg = d;
        self.data.resize(size, d);
        assert(forall|i: int|
            old(self).data@.len() <= i < size ==> cloned::<T>(dg, #[trigger] self.data@[i]));
    }

    /// Rotate the front pointer backward (effectively prepending a slot that
    /// overwrites the oldest element). Does nothing on an empty buffer.
    pub fn push_front(&mut self)
        ensures
            final(self).data@ == old(self).data@,
            final(self).start == ring_pushed_start(
                old(self).start as int,
                old(self).data@.len() as int,
            ),
    {
        if self.data.is_empty() {
            return;
        }
        if self.start == 0 {
            self.start = self.data.len() - 1;
        } else {
            self.start -= 1;
        }
    }

    /// Return a reference to the logical front element.
    pub fn front(&self) -> (r: &T)
        requires
            self.start < self.data@.len(),
        ensures
            *r == self.data@[self.start as int],
    {
        &self.data[self.start]
    }

    /// Return a mutable reference to the logical front element.
    pub fn front_mut(&mut self) -> (r: &mut T)
        requires
            old(self).start < old(self).data@.len(),
        ensures
            *r == old(self).data@[old(self).start as int],
            final(self).start == old(self).start,
            final(self).data@ == old(self).data@.update(old(self).start as int, *final(r)),
    {
        let s = self.start;
        &mut self.data[s]
    }

    /// Return a reference to the logical back element (oldest element).
    pub fn back(&self) -> (r: &T)
        requires
            self.data@.len() > 0,
            self.start + self.data@.len() <= usize::MAX,
        ensures
            *r == self.data@[ring_slot(
                self.start as int,
                self.data@.len() as int,
                self.data@.len() - 1,
            )],
            *r == self.logical()[self.data@.len() - 1],
    {
        let idx = (self.start + self.data.len() - 1) % self.data.len();
        &self.data[idx]
    }

    /// Return a mutable reference to the logical back element.
    pub fn back_mut(&mut self) -> (r: &mut T)
        requires
            old(self).data@.len() > 0,
            old(self).start + old(self).data@.len() <= usize::MAX,
        ensures
            ({
                let slot = ring_slot(
                    old(self).start as int,
                    old(self).data@.len() as int,
                    old(self).data@.len() - 1,
                );
                &&& *r == old(self).data@[slot]
                &&& final(self).start == old(self).start
                &&& final(self).data@ == old(self).data@.update(slot, *final(r))
            }),
    {
        let len = self.data.len();
        let idx = (self.start + len - 1) % len;
        &mut self.data[idx]
    }

    /// Return a reference to the element at logical index `index`
    /// (0 = front / newest).
    pub fn get(&self, index: usize) -> (r: &T)
        requires
            self.data@.len() > 0,
            self.start + index <= usize::MAX,
        ensures
            *r == self.data@[ring_slot(self.start as int, self.data@.len() as int, index as int)],
            index < self.data@.len() ==> *r == self.logical()[index as int],
    {
        &self.data[(self.start + index) % self.data.len()]
    }

    /// Return a mutable reference to the element at logical index `index`.
    pub fn get_mut(&mut self, index: usize) -> (r: &mut T)
        requires
            old(self).data@.len() > 0,
            old(self).start + index <= usize::MAX,
        ensures
            ({
                let slot = ring_slot(
                    old(self).start as int,
                    old(self).data@.len() as int,
                    index as int,
                );
                &&& *r == old(self).data@[slot]
                &&& final(self).start == old(self).start
                &&& final(self).data@ == old(self).data@.update(slot, *final(r))
            }),
    {
        let len = self.data.len();
        let idx = (self.start + index) % len;
        &mut self.data[idx]
    }

    /// Return the capacity (number of slots) of the buffer.
    pub fn len(&self) -> (r: usize)
        ensures
            r == self.data@.len(),
    {
        self.data.len()
    }

    /// Return `true` if the buffer has zero capacity.
    pub fn is_empty(&self) -> (r: bool)
        ensures
            r == (self.data@.len() == 0),
    {
        self.data.is_empty()
    }
}

impl<T: Default + Clone> Default for CircleBuffer<T> {
    fn default() -> (r: Self)
        ensures
            r.data@.len() == 0,
            r.start == 0,
    {
        Self::new()
    }
}

/// Pushing to the front of a non-empty ring rotates its logical contents by one:
/// the oldest element's slot becomes the new front, and every other element
/// moves one place towards the back.
pub proof fn lemma_push_front_rotates<T>(before: CircleBuffer<T>, after: CircleBuffer<T>)
    requires
        before.wf(),
        before.data@.len() > 0,
        after.data@ == before.data@,
        after.start == ring_pushed_start(before.start as int, before.data@.len() as int),
    ensures
        after.wf(),
        after.logical() == seq![before.logical().last()] + before.logical().drop_last(),
{
    let len = before.data@.len() as int;
    let s = before.start as int;
    let ns = after.start as int;
    assert(0 <= ns < len);
    assert forall|i: int| 0 <= i < len implies #[trigger] after.logical()[i] == (seq![
        before.logical().last(),
    ] + before.logical().drop_last())[i] by {
        if i == 0 {
            assert(ring_slot(ns, len, 0) == ring_slot(s, len, len - 1)) by {
                if s == 0 {
                    assert((len - 1) % len == len - 1) by (nonlinear_arith)
                        requires
                            len > 0,
                    ;
                } else {
                    assert((s - 1) % len == s - 1) by (nonlinear_arith)
                        requires
                            1 <= s < len,
                    ;
                    assert((s + (len - 1)) % len == s - 1) by (nonlinear_arith)
                        requires
                            1 <= s < len,
                    ;
                }
            }
        } else {
            assert(ring_slot(ns, len, i) == ring_slot(s, len, i - 1)) by {
                if s == 0 {
                    assert((len - 1 + i) % len == (i - 1) % len) by (nonlinear_arith)
                        requires
                            len > 0,
                            1 <= i < len,
                    ;
                } else {
                    assert(s - 1 + i == s + (i - 1));
                }
            }
        }
    }
    assert(after.logical() =~= seq![before.logical().last()] + before.logical().drop_last());
}

// --- In-memory byte streams ---

/// In-memory writer that appends the little-endian encoding of values to an
/// owned `Vec<u8>`.
pub struct VecWriter {
    /// The accumulated byte output.
    pub data: Vec<u8>,
}

impl VecWriter {
    /// Create a new, empty writer.
    pub fn new() -> (r: Self)
        ensures
            r.data@ == Seq::<u8>::empty(),
    {
        VecWriter { data: Vec::new() }
    }

    /// Append raw bytes.
    pub fn write_bytes(&mut self, bytes: &[u8])
        ensures
            final(self).data@ == old(self).data@ + bytes@,
    {
        let n = bytes.len();
        let mut i: usize = 0;
        while i < n
            invariant
                n == bytes@.len(),
                i <= n,
                self.data@ == old(self).data@ + bytes@.subrange(0, i as int),
            decreases n - i,
        {
            self.data.push(bytes[i]);
            i = i + 1;
            assert(bytes@.subrange(0, i as int) =~= bytes@.subrange(0, i - 1) + seq![
                bytes@[i - 1],
            ]);
        }
        assert(bytes@.subrange(0, n as int) =~= bytes@);
    }

    fn push_word(&mut self, b: [u8; 4])
        ensures
            final(self).data@ == old(self).data@ + b@,
    {
        self.data.push(b[0]);
        self.data.push(b[1]);
        self.data.push(b[2]);
        self.data.push(b[3]);
        assert(self.data@ =~= old(self).data@ + b@);
    }

    /// Write an `i32` in little-endian byte order.
    pub fn write_i32(&mut self, v: i32)
        ensures
            final(self).data@ == old(self).data@ + le_bytes_i32(v),
    {
        let b = encode_i32(v);
        self.push_word(b);
    }

    /// Write a `u32` in little-endian byte order.
    pub fn write_u32(&mut self, v: u32)
        ensures
            final(self).data@ == old(self).data@ + le_bytes_u32(v),
    {
        let b = encode_u32(v);
        self.push_word(b);
    }

    /// Write a single `u8`.
    pub fn write_u8(&mut self, v: u8)
        ensures
            final(self).data@ == old(self).data@.push(v),
    {
        self.data.push(v);
    }

    /// Write a single `i8` as its two's-complement byte.
    pub fn write_i8(&mut self, v: i8)
        ensures
            final(self).data@ == old(self).data@.push(v as u8),
    {
        self.data.push(v as u8);
    }

    /// Write a slice of `i32` values in little-endian byte order.
    pub fn write_i32_slice(&mut self, slice: &[i32])
        ensures
            final(self).data@ == old(self).data@ + le_bytes_i32_seq(slice@),
    {
        let n = slice.len();
        let mut i: usize = 0;
        while i < n
            invariant
                n == slice@.len(),
                i <= n,
                self.data@ == old(self).data@ + le_bytes_i32_seq(slice@.subrange(0, i as int)),
            decreases n - i,
        {
            self.write_i32(slice[i]);
            i = i + 1;
            assert(slice@.subrange(0, i as int).drop_last() =~= slice@.subrange(0, i - 1));
            assert(self.data@ =~= old(self).data@ + le_bytes_i32_seq(
                slice@.subrange(0, i as int),
            ));
        }
        assert(slice@.subrange(0, n as int) =~= slice@);
    }

    /// Write a `u32` slice as consecutive little-endian words.
    pub fn write_u32_slice(&mut self, slice: &[u32])
        ensures
            final(self).data@ == old(self).data@ + le_bytes_u32_seq(slice@),
    {
        let n = slice.len();
        let mut i: usize = 0;
        while i < n
            invariant
                n == slice@.len(),
                i <= n,
                self.data@ == old(self).data@ + le_bytes_u32_seq(slice@.subrange(0, i as int)),
            decreases n - i,
        {
            self.write_u32(slice[i]);
            i = i + 1;
            assert(slice@.subrange(0, i as int).drop_last() =~= slice@.subrange(0, i - 1));
            assert(self.data@ =~= old(self).data@ + le_bytes_u32_seq(
                slice@.subrange(0, i as int),
            ));
        }
        assert(slice@.subrange(0, n as int) =~= slice@);
    }

    /// Write a `u8` slice as raw bytes.
    pub fn write_u8_slice(&mut self, slice: &[u8])
        ensures
            final(self).data@ == old(self).data@ + slice@,
    {
        self.write_bytes(slice);
    }

    /// Write an `i8` slice as raw two's-complement bytes.
    pub fn write_i8_slice(&mut self, slice: &[i8])
        ensures
            final(self).data@ == old(self).data@ + i8_seq_bytes(slice@),
    {
        let n = slice.len();
        let mut i: usize = 0;
        while i < n
            invariant
                n == slice@.len(),
                i <= n,
                self.data@ == old(self).data@ + i8_seq_bytes(slice@.subrange(0, i as int)),
            decreases n - i,
        {
            self.data.push(slice[i] as u8);
            i = i + 1;
            assert(self.data@ =~= old(self).data@ + i8_seq_bytes(slice@.subrange(0, i as int)));
        }
        assert(slice@.subrange(0, n as int) =~= slice@);
    }

    /// Write an [`Int3`] as three consecutive `i32` values.
    pub fn write_int3(&mut self, v: Int3)
        ensures
            final(self).data@ == old(self).data@ + le_bytes_int3(v),
    {
        self.write_i32(v.x);
        self.write_i32(v.y);
        self.write_i32(v.z);
        assert(self.data@ =~= old(self).data@ + le_bytes_int3(v));
    }
}

impl Default for VecWriter {
    fn default() -> (r: Self)
        ensures
            r.data@ == Seq::<u8>::empty(),
    {
        Self::new()
    }
}

/// In-memory reader that decodes values sequentially from a borrowed byte slice.
pub struct SliceReader<'a> {
    /// The underlying byte slice.
    pub data: &'a [u8],
    /// Current read position (byte offset).
    pub pos: usize,
}

impl<'a> SliceReader<'a> {
    /// Create a reader that reads from `data` starting at byte 0.
    pub fn new(data: &'a [u8]) -> (r: Self)
        ensures
            r.data@ == data@,
            r.pos == 0,
    {
        SliceReader { data, pos: 0 }
    }

    /// Read the next `n` raw bytes.
    pub fn read_bytes(&mut self, n: usize) -> (r: Vec<u8>)
        requires
            old(self).pos + n <= old(self).data@.len(),
        ensures
            r@ == old(self).data@.subrange(old(self).pos as int, old(self).pos + n),
            final(self).data@ == old(self).data@,
            final(self).pos == old(self).pos + n,
    {
        let mut r: Vec<u8> = Vec::new();
        let start = self.pos;
        let len = self.data.len();
        let mut i: usize = 0;
        while i < n
            invariant
                len == self.data@.len(),
                start == old(self).pos,
                start + n <= self.data@.len(),
                self.data@ == old(self).data@,
                i <= n,
                r@ == self.data@.subrange(start as int, start + i),
            decreases n - i,
        {
            r.push(self.data[start + i]);
            i = i + 1;
            assert(r@ =~= self.data@.subrange(start as int, start + i));
        }
        self.pos = start + n;
        r
    }

    fn next_word(&mut self) -> (r: [u8; 4])
        requires
            old(self).pos + 4 <= old(self).data@.len(),
        ensures
            r@ == old(self).data@.subrange(old(self).pos as int, old(self).pos + 4),
            final(self).data@ == old(self).data@,
            final(self).pos == old(self).pos + 4,
    {
        let p = self.pos;
        let r = [self.data[p], self.data[p + 1], self.data[p + 2], self.data[p + 3]];
        self.pos = p + 4;
        assert(r@ =~= self.data@.subrange(p as int, p + 4));
        r
    }

    /// Read an `i32` in little-endian byte order.
    pub fn read_i32(&mut self) -> (r: i32)
        requires
            old(self).pos + 4 <= old(self).data@.len(),
        ensures
            r == i32_from_le(old(self).data@.subrange(old(self).pos as int, old(self).pos + 4)),
            final(self).data@ == old(self).data@,
            final(self).pos == old(self).pos + 4,
    {
        let b = self.next_word();
        decode_i32(b)
    }

    /// Read a `u32` in little-endian byte order.
    pub fn read_u32(&mut self) -> (r: u32)
        requires
            old(self).pos + 4 <= old(self).data@.len(),
        ensures
            r == u32_from_le(old(self).data@.subrange(old(self).pos as int, old(self).pos + 4)),
            final(self).data@ == old(self).data@,
            final(self).pos == old(self).pos + 4,
    {
        let b = self.next_word();
        decode_u32(b)
    }

    /// Read a single `u8`.
    pub fn read_u8(&mut self) -> (r: u8)
        requires
            old(self).pos < old(self).data@.len(),
        ensures
            r == old(self).data@[old(self).pos as int],
            final(self).data@ == old(self).data@,
            final(self).pos == old(self).pos + 1,
    {
        let r = self.data[self.pos];
        self.pos = self.pos + 1;
        r
    }

    /// Read a single `i8` (a two's-complement byte).
    pub fn read_i8(&mut self) -> (r: i8)
        requires
            old(self).pos < old(self).data@.len(),
        ensures
            r == old(self).data@[old(self).pos as int] as i8,
            final(self).data@ == old(self).data@,
            final(self).pos == old(self).pos + 1,
    {
        let b = self.read_u8();
        b as i8
    }

    /// Read `n` consecutive little-endian `i32` values.
    pub fn read_i32_vec(&mut self, n: usize) -> (r: Vec<i32>)
        requires
            old(self).pos + 4 * n <= old(self).data@.len(),
        ensures
            r@.len() == n,
            forall|i: int|
                0 <= i < n ==> #[trigger] r@[i] == i32_from_le(
                    old(self).data@.subrange(old(self).pos + 4 * i, old(self).pos + 4 * i + 4),
                ),
            final(self).data@ == old(self).data@,
            final(self).pos == old(self).pos + 4 * n,
    {
        let mut r: Vec<i32> = Vec::new();
        let start = self.pos;
        let mut i: usize = 0;
        while i < n
            invariant
                start == old(self).pos,
                start + 4 * n <= self.data@.len(),
                self.data@ == old(self).data@,
                i <= n,
                self.pos == start + 4 * i,
                r@.len() == i,
                forall|k: int|
                    0 <= k < i ==> #[trigger] r@[k] == i32_from_le(
                        self.data@.subrange(start + 4 * k, start + 4 * k + 4),
                    ),
            decreases n - i,
        {
            let v = self.read_i32();
            r.push(v);
            i = i + 1;
        }
        r
    }

    /// Read `n` consecutive two's-complement bytes as `i8` values.
    pub fn read_i8_vec(&mut self, n: usize) -> (r: Vec<i8>)
        requires
            old(self).pos + n <= old(self).data@.len(),
        ensures
            r@.len() == n,
            forall|i: int|
                0 <= i < n ==> #[trigger] r@[i] == old(self).data@[old(self).pos + i] as i8,
            final(self).data@ == old(self).data@,
            final(self).pos == old(self).pos + n,
    {
        let mut r: Vec<i8> = Vec::new();
        let start = self.pos;
        let mut i: usize = 0;
        while i < n
            invariant
                start == old(self).pos,
                start + n <= self.data@.len(),
                self.data@ == old(self).data@,
                i <= n,
                self.pos == start + i,
                r@.len() == i,
                forall|k: int| 0 <= k < i ==> #[trigger] r@[k] == self.data@[start + k] as i8,
            decreases n - i,
        {
            let v = self.read_i8();
            r.push(v);
            i = i + 1;
        }
        r
    }

    /// Read an [`Int3`] as three consecutive `i32` values.
    pub fn read_int3(&mut self) -> (r: Int3)
        requires
            old(self).pos + 12 <= old(self).data@.len(),
        ensures
            r.x == i32_from_le(old(self).data@.subrange(old(self).pos as int, old(self).pos + 4)),
            r.y == i32_from_le(old(self).data@.subrange(old(self).pos + 4, old(self).pos + 8)),
            r.z == i32_from_le(old(self).data@.subrange(old(self).pos + 8, old(self).pos + 12)),
            final(self).data@ == old(self).data@,
            final(self).pos == old(self).pos + 12,
    {
        let x = self.read_i32();
        let y = self.read_i32();
        let z = self.read_i32();
        Int3::new(x, y, z)
    }
}

} // verus!
