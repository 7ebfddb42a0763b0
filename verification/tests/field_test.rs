use dcc_sph::field::{
    field_apply_deltas_i8, field_bounds, field_count, field_learn_u8, field_sums_i8,
    field_sums_u8, ColumnField,
};
use dcc_sph::helpers::{Int2, Int3};

fn example_field(center: Int2, col: usize) -> ColumnField {
    ColumnField { size: Int3::new(3, 3, 2), radius: 1, center, per: 2, col }
}

fn example_cis() -> Vec<i32> {
    vec![0, 1, 0, 1, 0, 1, 0, 1, 0]
}

/// The weight index the field uses for visible column `(ix, iy)` and slot `k`.
fn index(f: &ColumnField, cis: &[i32], ix: i32, iy: i32, k: usize) -> usize {
    let d = (2 * f.radius + 1) as usize;
    let ox = (ix - (f.center.x - f.radius)) as usize;
    let oy = (iy - (f.center.y - f.radius)) as usize;
    let ci = cis[(iy + ix * f.size.y) as usize] as usize;
    k + f.per * (oy + d * (ox + d * (ci + f.size.z as usize * f.col)))
}

#[test]
fn field_bounds_clip_to_the_layer() {
    let b = field_bounds(Int2::new(0, 4), 2, Int3::new(5, 5, 1));
    assert_eq!(b.field_lower, Int2::new(-2, 2));
    assert_eq!(b.iter_lower, Int2::new(0, 2));
    assert_eq!(b.iter_upper, Int2::new(2, 4));
    assert_eq!(field_count(b), 9);
}

#[test]
fn field_sums_add_the_weights_the_field_sees() {
    let f = example_field(Int2::new(1, 1), 1);
    let cis = example_cis();
    let weights: Vec<u8> = (0..72).map(|i| (i * 3 % 256) as u8).collect();
    let sums = field_sums_u8(&weights, f, &cis);
    for k in 0..2 {
        let mut expected = 0i32;
        for ix in 0..3 {
            for iy in 0..3 {
                expected += weights[index(&f, &cis, ix, iy, k)] as i32;
            }
        }
        assert_eq!(sums[k], expected);
    }
}

#[test]
fn field_sums_of_a_corner_field_cover_only_the_layer() {
    // Centre (0, 0): only visible columns (0..=1, 0..=1) are inside the layer.
    let f = example_field(Int2::new(0, 0), 0);
    let cis = example_cis();
    let weights: Vec<i8> = (0..36).map(|i| (i as i8) - 18).collect();
    let sums = field_sums_i8(&weights, f, &cis);
    for k in 0..2 {
        let mut expected = 0i32;
        for ix in 0..2 {
            for iy in 0..2 {
                expected += weights[index(&f, &cis, ix, iy, k)] as i32;
            }
        }
        assert_eq!(sums[k], expected);
    }
}

#[test]
fn deltas_are_added_and_clamped() {
    let f = example_field(Int2::new(1, 1), 0);
    let cis = example_cis();
    let before: Vec<i8> = vec![120; 36];
    let mut weights = before.clone();
    field_apply_deltas_i8(&mut weights, f, &cis, &[10, -300]);
    let mut touched = vec![false; 36];
    for ix in 0..3 {
        for iy in 0..3 {
            assert_eq!(weights[index(&f, &cis, ix, iy, 0)], 127);
            assert_eq!(weights[index(&f, &cis, ix, iy, 1)], -127);
            touched[index(&f, &cis, ix, iy, 0)] = true;
            touched[index(&f, &cis, ix, iy, 1)] = true;
        }
    }
    for j in 0..36 {
        if !touched[j] {
            assert_eq!(weights[j], before[j]);
        }
    }
}

#[test]
fn learning_moves_the_winning_slot_and_its_total() {
    let f = example_field(Int2::new(1, 1), 0);
    let cis = example_cis();
    let before: Vec<u8> = (0..36).map(|i| (i * 7) as u8).collect();
    let mut weights = before.clone();
    let mut totals = vec![5i32, 1000];
    // Full-rate learning: every weight jumps to 255.
    let table: Vec<i32> = (0..256).map(|w| 255 - w).collect();
    field_learn_u8(&mut weights, &mut totals, f, &cis, 1, 1, &table);
    let mut gain = 0i32;
    for ix in 0..3 {
        for iy in 0..3 {
            let j = index(&f, &cis, ix, iy, 1);
            assert_eq!(weights[j], 255);
            gain += 255 - before[j] as i32;
        }
    }
    assert_eq!(totals, vec![5, 1000 + gain]);
    for ix in 0..3 {
        for iy in 0..3 {
            let j = index(&f, &cis, ix, iy, 0);
            assert_eq!(weights[j], before[j]);
        }
    }
}

#[test]
fn learning_caps_weights_at_255() {
    let f = example_field(Int2::new(2, 2), 0);
    let cis = example_cis();
    let mut weights = vec![250u8; 36];
    let mut totals = vec![0i32];
    let table = vec![100i32; 256];
    field_learn_u8(&mut weights, &mut totals, f, &cis, 0, 0, &table);
    // Field clipped to (1..=2, 1..=2): four weights, each gaining 5.
    assert_eq!(totals[0], 20);
    assert_eq!(weights.iter().filter(|&&w| w == 255).count(), 4);
}

#[test]
fn learning_with_non_negative_steps_never_lowers_a_weight() {
    let f = example_field(Int2::new(1, 1), 1);
    let cis = example_cis();
    let before: Vec<u8> = (0..72).map(|i| (i * 11) as u8).collect();
    let mut weights = before.clone();
    let mut totals = vec![0i32, 0];
    let table: Vec<i32> = (0..256).map(|w| (255 - w) / 3).collect();
    field_learn_u8(&mut weights, &mut totals, f, &cis, 0, 1, &table);
    for j in 0..72 {
        assert!(weights[j] >= before[j]);
    }
    // Column 1 owns weights 36..72; column 0's block is untouched.
    assert_eq!(&weights[..36], &before[..36]);
}

#[test]
fn decoder_updates_stay_in_the_column_block_and_in_range() {
    let f = example_field(Int2::new(1, 1), 1);
    let cis = example_cis();
    let before: Vec<i8> = (0..108).map(|i| ((i * 13) % 255 - 127) as i8).collect();
    let mut weights = before.clone();
    field_apply_deltas_i8(&mut weights, f, &cis, &[1000, -1000]);
    assert_eq!(&weights[..36], &before[..36]);
    assert_eq!(&weights[72..], &before[72..]);
    assert!(weights.iter().all(|&w| (-127..=127).contains(&w)));
}
