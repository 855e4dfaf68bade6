use rand::rngs::ThreadRng;
use rand::Rng;
use vstd::prelude::*;
use vstd::seq_lib::seq_to_set_is_finite;
use vstd::set_lib::{lemma_int_range, lemma_len_subset, set_int_range};

verus! {

/// How often a slot is drawn anew before the lowest free slot is taken.
pub const REDRAWS: u32 = 64;

/// The generator of random numbers of the `rand` crate that belongs to the
/// running thread.
#[verifier::external_type_specification]
#[verifier::external_body]
pub struct ExThreadRng(ThreadRng);

/// Trusted: `rand::thread_rng` hands out the thread's generator. Nothing is
/// claimed of it. It panics where the operating system has no randomness
/// to seed it with, which no condition on a caller can leave out.
pub assume_specification[ rand::thread_rng ]() -> (rng: ThreadRng)
;

/// Trusted: `Rng::gen_range` on the range `0..bound` returns a number of
/// that range. It panics on an empty range, which `requires` leaves out.
#[verifier::external_body]
fn draw_below(rng: &mut ThreadRng, bound: u32) -> (r: u32)
    requires
        bound > 0,
    ensures
        r < bound,
{
    rng.gen_range(0..bound)
}

/// Whether the slot is among those taken.
pub fn is_taken(taken: &Vec<u64>, slot: u64) -> (r: bool)
    ensures
        r == taken@.contains(slot),
{
    let mut i: usize = 0;
    while i < taken.len()
        invariant
            i <= taken@.len(),
            forall|j: int| 0 <= j < i ==> taken@[j] != slot,
        decreases taken@.len() - i,
    {
        if taken[i] == slot {
            return true;
        }
        i = i + 1;
    }
    false
}

/// Where all slots below `n` are taken, at least `n` slots are taken.
pub proof fn lemma_all_below_taken(taken: Seq<u64>, n: int)
    requires
        0 <= n <= u64::MAX,
        forall|v: u64| v < n ==> taken.contains(v),
    ensures
        n <= taken.len(),
{
    let numbers = taken.map_values(|v: u64| v as int);
    let held = numbers.to_set();
    let below = set_int_range(0, n);
    assert forall|v: int| below.contains(v) implies held.contains(v) by {
        let u = v as u64;
        assert(taken.contains(u));
        let i = choose|i: int| 0 <= i < taken.len() && taken[i] == u;
        assert(numbers[i] == v);
    }
    seq_to_set_is_finite(numbers);
    lemma_int_range(0, n);
    lemma_len_subset(below, held);
    numbers.lemma_cardinality_of_set();
}

/// The lowest slot that is not taken.
pub fn lowest_free(taken: &Vec<u64>, capacity: u64) -> (slot: u64)
    requires
        taken@.len() < capacity,
    ensures
        slot < capacity,
        !taken@.contains(slot),
        forall|v: u64| v < slot ==> taken@.contains(v),
{
    let mut slot: u64 = 0;
    while is_taken(taken, slot)
        invariant
            taken@.len() < capacity,
            slot < capacity,
            forall|v: u64| v < slot ==> taken@.contains(v),
        decreases capacity - slot,
    {
        proof {
            lemma_all_below_taken(taken@, slot + 1);
        }
        slot = slot + 1;
    }
    slot
}

/// Draws a slot of an area at random: a column, then a row. The slots of
/// an area are its pixels, numbered row by row.
fn draw_slot(rng: &mut ThreadRng, width: u32, height: u32) -> (slot: u64)
    requires
        width > 0,
        height > 0,
    ensures
        slot < width * height,
{
    let px: u32 = draw_below(rng, width);
    let py: u32 = draw_below(rng, height);
    assert(py * width + px < width * height) by (nonlinear_arith)
        requires
            0 <= px < width,
            0 <= py < height,
    ;
    assert(width * height <= 0xffff_ffff * 0xffff_ffff) by (nonlinear_arith)
        requires
            0 <= width <= 0xffff_ffff,
            0 <= height <= 0xffff_ffff,
    ;
    assert(0 <= py * width) by (nonlinear_arith)
        requires
            0 <= py,
            0 <= width,
    ;
    (py as u64) * (width as u64) + (px as u64)
}

/// Keeps the candidate slot if it is free. If not, and draws are left,
/// asks for another draw (`None`); if none is left, settles for the lowest
/// free slot.
pub fn settle(taken: &Vec<u64>, capacity: u64, candidate: u64, draws_left: u32) -> (r: Option<u64>)
    requires
        taken@.len() < capacity,
        candidate < capacity,
    ensures
        match r {
            Some(slot) => {
                &&& slot < capacity
                &&& !taken@.contains(slot)
                &&& (!taken@.contains(candidate) ==> slot == candidate)
                &&& (taken@.contains(candidate) ==> draws_left == 0 && forall|v: u64|
                    v < slot ==> taken@.contains(v))
            },
            None => taken@.contains(candidate) && draws_left > 0,
        },
{
    if !is_taken(taken, candidate) {
        Some(candidate)
    } else if draws_left > 0 {
        None
    } else {
        Some(lowest_free(taken, capacity))
    }
}

/// A free slot of the area: drawn at random, and drawn again while the
/// draw falls on a taken slot, up to [`REDRAWS`] times; after that the
/// lowest free slot.
pub(crate) fn free_slot(rng: &mut ThreadRng, taken: &Vec<u64>, width: u32, height: u32) -> (slot: u64)
    requires
        taken@.len() < width * height,
    ensures
        slot < width * height,
        !taken@.contains(slot),
{
    assert(width > 0 && height > 0) by (nonlinear_arith)
        requires
            0 < width * height,
            0 <= width,
            0 <= height,
    ;
    assert(width * height <= 0xffff_ffff * 0xffff_ffff) by (nonlinear_arith)
        requires
            0 <= width <= 0xffff_ffff,
            0 <= height <= 0xffff_ffff,
    ;
    let capacity: u64 = (width as u64) * (height as u64);
    let mut left: u32 = REDRAWS;
    loop
        invariant
            width > 0,
            height > 0,
            capacity == width * height,
            taken@.len() < capacity,
        decreases left,
    {
        let candidate = draw_slot(rng, width, height);
        match settle(taken, capacity, candidate, left) {
            Some(slot) => {
                return slot;
            },
            None => {
                left = left - 1;
            },
        }
    }
}

} // verus!
