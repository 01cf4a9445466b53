//! Counting how often each face occurs in a roll.

use vstd::prelude::*;
use crate::dice::DieResult;

verus! {

/// How often a face occurs among the first `roll.len()` dice.
pub open spec fn count_face(roll: Seq<DieResult>, f: DieResult) -> int
    decreases roll.len(),
{
    if roll.len() == 0 {
        0
    } else {
        count_face(roll.drop_last(), f) + if roll.last() == f {
            1int
        } else {
            0int
        }
    }
}

/// A face count never goes below zero nor above the number of dice.
pub proof fn lemma_count_face_bounds(roll: Seq<DieResult>, f: DieResult)
    ensures
        0 <= count_face(roll, f) <= roll.len(),
    decreases roll.len(),
{
    if roll.len() > 0 {
        lemma_count_face_bounds(roll.drop_last(), f);
    }
}

/// Every die shows exactly one face, so the six per-face counts always sum
/// to the number of dice rolled.
pub proof fn lemma_tally_total(roll: Seq<DieResult>)
    ensures
        count_face(roll, DieResult::One) + count_face(roll, DieResult::Two) + count_face(
            roll,
            DieResult::Three,
        ) + count_face(roll, DieResult::Energy) + count_face(roll, DieResult::Claw) + count_face(
            roll,
            DieResult::Heart,
        ) == roll.len(),
    decreases roll.len(),
{
    if roll.len() > 0 {
        lemma_tally_total(roll.drop_last());
    }
}

/// The number of dice showing each of the six faces in one roll.
#[derive(Debug, PartialEq, Eq, Structural, Clone, Copy)]
pub struct FaceTally {
    pub ones: u8,
    pub twos: u8,
    pub threes: u8,
    pub energy: u8,
    pub claws: u8,
    pub hearts: u8,
}

/// Counts the occurrences of each of the six faces; zero is a valid count.
pub fn tally(results: &[DieResult; 6]) -> (t: FaceTally)
    ensures
        t.ones == count_face(results@, DieResult::One),
        t.twos == count_face(results@, DieResult::Two),
        t.threes == count_face(results@, DieResult::Three),
        t.energy == count_face(results@, DieResult::Energy),
        t.claws == count_face(results@, DieResult::Claw),
        t.hearts == count_face(results@, DieResult::Heart),
{
    let mut t = FaceTally { ones: 0, twos: 0, threes: 0, energy: 0, claws: 0, hearts: 0 };
    let mut i: usize = 0;
    while i < 6
        invariant
            i <= 6,
            results@.len() == 6,
            t.ones == count_face(results@.subrange(0, i as int), DieResult::One),
            t.twos == count_face(results@.subrange(0, i as int), DieResult::Two),
            t.threes == count_face(results@.subrange(0, i as int), DieResult::Three),
            t.energy == count_face(results@.subrange(0, i as int), DieResult::Energy),
            t.claws == count_face(results@.subrange(0, i as int), DieResult::Claw),
            t.hearts == count_face(results@.subrange(0, i as int), DieResult::Heart),
        decreases 6 - i,
    {
        proof {
            lemma_count_face_bounds(results@.subrange(0, i as int), DieResult::One);
            lemma_count_face_bounds(results@.subrange(0, i as int), DieResult::Two);
            lemma_count_face_bounds(results@.subrange(0, i as int), DieResult::Three);
            lemma_count_face_bounds(results@.subrange(0, i as int), DieResult::Energy);
            lemma_count_face_bounds(results@.subrange(0, i as int), DieResult::Claw);
            lemma_count_face_bounds(results@.subrange(0, i as int), DieResult::Heart);
            assert(results@.subrange(0, i + 1).drop_last() =~= results@.subrange(0, i as int));
            assert(results@.subrange(0, i + 1).last() == results@[i as int]);
        }
        match results[i] {
            DieResult::One => t.ones = t.ones + 1,
            DieResult::Two => t.twos = t.twos + 1,
            DieResult::Three => t.threes = t.threes + 1,
            DieResult::Energy => t.energy = t.energy + 1,
            DieResult::Claw => t.claws = t.claws + 1,
            DieResult::Heart => t.hearts = t.hearts + 1,
        }
        i = i + 1;
    }
    proof {
        assert(results@.subrange(0, 6) =~= results@);
    }
    t
}

} // verus!
