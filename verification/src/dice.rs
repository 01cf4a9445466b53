//! The six die faces and the roll / reroll operations.
//!
//! Rolling draws each face independently and uniformly from the six-face
//! distribution; rerolling replaces only the selected positions and leaves
//! every other position unchanged.

use vstd::prelude::*;

verus! {

/// The six possible outcomes of a single die roll.
#[derive(Debug, PartialEq, Eq, Structural, Clone, Copy)]
pub enum DieResult {
    One,
    Two,
    Three,
    Energy,
    Claw,
    Heart,
}

/// The face that a raw draw in `1..=6` stands for.
pub open spec fn spec_face_of(n: u8) -> DieResult {
    if n == 1 {
        DieResult::One
    } else if n == 2 {
        DieResult::Two
    } else if n == 3 {
        DieResult::Three
    } else if n == 4 {
        DieResult::Energy
    } else if n == 5 {
        DieResult::Claw
    } else {
        DieResult::Heart
    }
}

/// Relies on `rand::random_range` over `1..=6`: a draw from a nonempty
/// integer range returns a value inside that range; nothing more can be
/// promised of a random draw.
#[verifier::external_body]
fn draw_die_value() -> (r: u8)
    ensures
        1 <= r <= 6,
{
    rand::random_range(1..=6)
}

/// Turns a raw draw into the face it stands for.
fn face_of(n: u8) -> (f: DieResult)
    requires
        1 <= n <= 6,
    ensures
        f == spec_face_of(n),
{
    if n == 1 {
        DieResult::One
    } else if n == 2 {
        DieResult::Two
    } else if n == 3 {
        DieResult::Three
    } else if n == 4 {
        DieResult::Energy
    } else if n == 5 {
        DieResult::Claw
    } else {
        DieResult::Heart
    }
}

/// Performs a full roll of all 6 dice and returns the results.
///
/// Each position is drawn independently; no more can be said of a random
/// roll than its shape.
pub fn roll_dice() -> (results: [DieResult; 6])
    ensures
        results@.len() == 6,
{
    let mut results: [DieResult; 6] = [
        DieResult::One,
        DieResult::One,
        DieResult::One,
        DieResult::One,
        DieResult::One,
        DieResult::One,
    ];
    let mut i: usize = 0;
    while i < 6
        invariant
            i <= 6,
            results@.len() == 6,
        decreases 6 - i,
    {
        results[i] = face_of(draw_die_value());
        i = i + 1;
    }
    results
}

/// Rerolls the dice at the given 0-based indices.
///
/// Positions whose index is not listed are left exactly as they were; an
/// empty index list leaves the whole roll identical. Indices outside
/// `0..=5` are ignored.
pub fn reroll_dice(results: &mut [DieResult; 6], indices_to_reroll: &[usize])
    ensures
        final(results)@.len() == 6,
        forall|j: int|
            0 <= j < 6 && !indices_to_reroll@.contains(j as usize) ==> final(results)@[j] == old(
                results,
            )@[j],
        indices_to_reroll@.len() == 0 ==> final(results)@ == old(results)@,
{
    let n = indices_to_reroll.len();
    let mut k: usize = 0;
    while k < n
        invariant
            k <= n,
            n == indices_to_reroll@.len(),
            results@.len() == 6,
            forall|j: int|
                0 <= j < 6 && !indices_to_reroll@.contains(j as usize) ==> results@[j] == old(
                    results,
                )@[j],
            indices_to_reroll@.len() == 0 ==> results@ == old(results)@,
        decreases n - k,
    {
        let idx = indices_to_reroll[k];
        if idx < 6 {
            assert(indices_to_reroll@.contains(idx));
            results[idx] = face_of(draw_die_value());
        }
        k = k + 1;
    }
}

} // verus!
