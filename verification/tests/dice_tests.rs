use king_core::DieResult;
use king_core::reroll_dice;
use king_core::roll_dice;
use king_core::tally;

#[test]
fn roll_has_six_dice() {
    let results = roll_dice();
    assert_eq!(results.len(), 6);
}

#[test]
fn tally_of_fresh_roll_sums_to_six() {
    let results = roll_dice();
    let t = tally(&results);
    let total = t.ones + t.twos + t.threes + t.energy + t.claws + t.hearts;
    assert_eq!(total, 6);
}

#[test]
fn reroll_with_empty_selection_keeps_roll_identical() {
    let mut results = [
        DieResult::One,
        DieResult::Two,
        DieResult::Three,
        DieResult::Energy,
        DieResult::Claw,
        DieResult::Heart,
    ];
    let before = results;
    reroll_dice(&mut results, &[]);
    assert_eq!(results, before);
}

#[test]
fn reroll_keeps_unselected_positions() {
    let mut results = [
        DieResult::One,
        DieResult::Two,
        DieResult::Three,
        DieResult::Energy,
        DieResult::Claw,
        DieResult::Heart,
    ];
    let before = results;
    reroll_dice(&mut results, &[1, 4]);
    assert_eq!(results[0], before[0]);
    assert_eq!(results[2], before[2]);
    assert_eq!(results[3], before[3]);
    assert_eq!(results[5], before[5]);
}

#[test]
fn reroll_ignores_out_of_range_indices() {
    let mut results = [
        DieResult::One,
        DieResult::Two,
        DieResult::Three,
        DieResult::Energy,
        DieResult::Claw,
        DieResult::Heart,
    ];
    let before = results;
    reroll_dice(&mut results, &[6, 100]);
    assert_eq!(results, before);
}

#[test]
fn tally_counts_each_face() {
    let results = [
        DieResult::Two,
        DieResult::Claw,
        DieResult::Two,
        DieResult::Heart,
        DieResult::Two,
        DieResult::Claw,
    ];
    let t = tally(&results);
    assert_eq!(t.ones, 0);
    assert_eq!(t.twos, 3);
    assert_eq!(t.threes, 0);
    assert_eq!(t.energy, 0);
    assert_eq!(t.claws, 2);
    assert_eq!(t.hearts, 1);
}
