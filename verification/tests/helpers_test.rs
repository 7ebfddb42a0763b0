use dcc_sph::stream::{decode_i32, decode_u32, encode_i32, encode_u32};
use dcc_sph::helpers::{
    address2, address3, address4, ceil_divide, in_bounds, in_bounds0, min_overhang,
    min_overhang_scalar, rand_get_state, rand_step, CircleBuffer, Int2, Int3, Int4, SliceReader,
    VecWriter,
};

#[test]
fn vec_writer_writes_little_endian() {
    let mut w = VecWriter::new();
    w.write_i32(42);
    assert_eq!(w.data, [42, 0, 0, 0]);
}

#[test]
fn slice_reader_reads_back_written_i32() {
    let mut w = VecWriter::new();
    w.write_i32(42);
    let mut r = SliceReader::new(&w.data);
    assert_eq!(r.read_i32(), 42);
}

#[test]
fn ceil_divide_rounds_up() {
    assert_eq!(ceil_divide(7, 2), 4);
    assert_eq!(ceil_divide(8, 2), 4);
}

#[test]
fn pcg_stream_is_deterministic() {
    let mut a = rand_get_state(12345);
    let mut b = rand_get_state(12345);
    assert_eq!(rand_step(&mut a), rand_step(&mut b));
    assert_eq!(a, b);
}

#[test]
fn circle_buffer_push_front_rotates() {
    let mut c: CircleBuffer<i32> = CircleBuffer::new();
    c.resize(3);
    *c.get_mut(0) = 1;
    *c.get_mut(1) = 2;
    *c.get_mut(2) = 3;
    c.push_front();
    assert_eq!(*c.front(), 3);
    assert_eq!(*c.get(1), 1);
    assert_eq!(*c.get(2), 2);
    assert_eq!(*c.back(), 2);
}

#[test]
fn addressing_is_row_major() {
    assert_eq!(address2(Int2::new(1, 2), Int2::new(3, 4)), 6);
    assert_eq!(address3(Int3::new(1, 2, 3), Int3::new(4, 5, 6)), 3 + 6 * (2 + 5 * 1));
    assert_eq!(address4(Int4::new(0, 0, 0, 2), Int4::new(1, 1, 1, 3)), 2);
    assert!(in_bounds0(Int2::new(0, 0), Int2::new(1, 1)));
    assert!(!in_bounds(Int2::new(0, 0), Int2::new(1, 0), Int2::new(2, 2)));
    assert_eq!(min_overhang(Int2::new(0, 9), Int2::new(10, 10), Int2::new(2, 2)), Int2::new(2, 7));
    assert_eq!(min_overhang_scalar(Int2::new(5, 5), Int2::new(10, 10), 2), Int2::new(5, 5));
}

#[test]
fn writer_and_reader_agree_on_every_type() {
    let mut w = VecWriter::new();
    w.write_u32(0xdeadbeef);
    w.write_i32(-2);
    w.write_u8(7);
    w.write_i8(-3);
    w.write_i32_slice(&[1, -1, 300]);
    w.write_u8_slice(&[9, 8]);
    w.write_i8_slice(&[-128, 127]);
    w.write_int3(Int3::new(1, -2, 3));
    assert_eq!(&w.data[4..8], &[0xfe, 0xff, 0xff, 0xff]);
    let mut r = SliceReader::new(&w.data);
    assert_eq!(r.read_u32(), 0xdeadbeef);
    assert_eq!(r.read_i32(), -2);
    assert_eq!(r.read_u8(), 7);
    assert_eq!(r.read_i8(), -3);
    assert_eq!(r.read_i32_vec(3), vec![1, -1, 300]);
    assert_eq!(r.read_bytes(2), vec![9, 8]);
    assert_eq!(r.read_i8_vec(2), vec![-128, 127]);
    assert_eq!(r.read_int3(), Int3::new(1, -2, 3));
    assert_eq!(r.pos, w.data.len());
}

#[test]
fn encodings_round_trip() {
    for v in [0i32, 1, -1, i32::MIN, i32::MAX, 123456] {
        assert_eq!(decode_i32(encode_i32(v)), v);
    }
    assert_eq!(encode_u32(0x01020304), [4, 3, 2, 1]);
    assert_eq!(decode_u32([4, 3, 2, 1]), 0x01020304);
}

#[test]
fn circle_buffer_basics() {
    let mut c: CircleBuffer<u8> = CircleBuffer::default();
    assert!(c.is_empty());
    c.push_front();
    assert_eq!(c.start, 0);
    c.resize(4);
    assert_eq!(c.len(), 4);
    *c.front_mut() = 5;
    *c.back_mut() = 9;
    assert_eq!(c.data, vec![5, 0, 0, 9]);
    c.push_front();
    assert_eq!(c.start, 3);
    assert_eq!(*c.front(), 9);
    assert_eq!(*c.get(1), 5);
    assert_eq!(*c.back(), 0);
}

#[test]
fn ceil_divide_of_negative_values_truncates() {
    assert_eq!(ceil_divide(-7, 2), -3);
    // (7 - 2 - 1) / -2 truncates to -2.
    assert_eq!(ceil_divide(7, -2), -2);
}

#[test]
fn resize_fills_new_slots_with_the_default() {
    let mut b: CircleBuffer<i32> = CircleBuffer::new();
    b.resize(3);
    *b.get_mut(0) = 5;
    b.resize(5);
    assert_eq!(b.data, vec![5, 0, 0, 0, 0]);
    b.resize(2);
    assert_eq!(b.data, vec![5, 0]);
}

#[test]
fn clamping_leaves_a_field_that_sticks_out_on_both_sides() {
    let p = min_overhang(Int2::new(-1, 0), Int2::new(i32::MIN, 3), Int2::new(0, 5));
    assert_eq!(p, Int2::new(-1, 0));
    assert_eq!(min_overhang_scalar(Int2::new(-1, 4), Int2::new(i32::MIN, 5), 0), Int2::new(-1, 4));
}
