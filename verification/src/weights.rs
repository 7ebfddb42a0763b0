//! Initial synaptic weights, drawn from the PCG32 stream.
use vstd::prelude::*;
use crate::helpers::{pcg_nth_output, pcg_state_after, rand_step, INIT_WEIGHT_NOISEI};

verus! {

/// The `i`-th initial byte weight drawn from the stream starting at `state`:
/// uniform in `[0, INIT_WEIGHT_NOISEI)`.
pub open spec fn initial_byte_weight(state: u64, i: nat) -> u8 {
    (pcg_nth_output(state, i) % INIT_WEIGHT_NOISEI) as u8
}

/// The `i`-th initial signed byte weight drawn from the stream starting at
/// `state`: uniform in `[-INIT_WEIGHT_NOISEI / 2, INIT_WEIGHT_NOISEI / 2]`.
pub open spec fn initial_signed_weight(state: u64, i: nat) -> i8 {
    ((pcg_nth_output(state, i) % ((INIT_WEIGHT_NOISEI + 1) as u32)) as i32 - (INIT_WEIGHT_NOISEI / 2) as i32) as i8
}

/// Draw `n` byte weights (the encoder's initial weights), one PCG32 step each.
pub fn init_byte_weights(n: usize, state: &mut u64) -> (r: Vec<u8>)
    ensures
        r@.len() == n,
        forall|i: int| 0 <= i < n ==> #[trigger] r@[i] == initial_byte_weight(*old(state), i as nat),
        forall|i: int| 0 <= i < n ==> #[trigger] r@[i] < INIT_WEIGHT_NOISEI,
        *final(state) == pcg_state_after(*old(state), n as nat),
{
    let ghost s0 = *state;
    let mut r: Vec<u8> = Vec::new();
    let mut i: usize = 0;
    while i < n
        invariant
            i <= n,
            r@.len() == i,
            *state == pcg_state_after(s0, i as nat),
            forall|k: int| 0 <= k < i ==> #[trigger] r@[k] == initial_byte_weight(s0, k as nat),
            forall|k: int| 0 <= k < i ==> #[trigger] r@[k] < INIT_WEIGHT_NOISEI,
        decreases n - i,
    {
        let v = rand_step(state);
        r.push((v % INIT_WEIGHT_NOISEI) as u8);
        i = i + 1;
    }
    r
}

/// Draw `n` signed byte weights (the decoder's initial weights), one PCG32
/// step each.
pub fn init_signed_byte_weights(n: usize, state: &mut u64) -> (r: Vec<i8>)
    ensures
        r@.len() == n,
        forall|i: int| 0 <= i < n ==> #[trigger] r@[i] == initial_signed_weight(*old(state), i as nat),
        forall|i: int|
            0 <= i < n ==> -(INIT_WEIGHT_NOISEI / 2) <= #[trigger] r@[i] <= INIT_WEIGHT_NOISEI / 2,
        *final(state) == pcg_state_after(*old(state), n as nat),
{
    let ghost s0 = *state;
    let mut r: Vec<i8> = Vec::new();
    let mut i: usize = 0;
    while i < n
        invariant
            i <= n,
            r@.len() == i,
            *state == pcg_state_after(s0, i as nat),
            forall|k: int| 0 <= k < i ==> #[trigger] r@[k] == initial_signed_weight(s0, k as nat),
            forall|k: int|
                0 <= k < i ==> -(INIT_WEIGHT_NOISEI / 2) <= #[trigger] r@[k] <= INIT_WEIGHT_NOISEI / 2,
        decreases n - i,
    {
        let v = rand_step(state);
        r.push(((v % (INIT_WEIGHT_NOISEI + 1)) as i32 - INIT_WEIGHT_NOISEI as i32 / 2) as i8);
        i = i + 1;
    }
    r
}

} // verus!
