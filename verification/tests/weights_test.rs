use dcc_sph::helpers::{rand_get_state, rand_step};
use dcc_sph::weights::{init_byte_weights, init_signed_byte_weights};

#[test]
fn byte_weights_follow_the_stream() {
    let start = rand_get_state(7);
    let mut state = start;
    let w = init_byte_weights(100, &mut state);
    assert_eq!(w.len(), 100);
    let mut check = start;
    for &v in &w {
        assert_eq!(v as u32, rand_step(&mut check) % 8);
        assert!(v < 8);
    }
    assert_eq!(state, check);
}

#[test]
fn signed_weights_are_centred() {
    let mut state = rand_get_state(9);
    let w = init_signed_byte_weights(200, &mut state);
    assert!(w.iter().all(|&v| (-4..=4).contains(&v)));
    let mut check = rand_get_state(9);
    for &v in &w {
        assert_eq!(v as i32, (rand_step(&mut check) % 9) as i32 - 4);
    }
}
