use king_core::DieResult;
use king_core::Game;
use king_core::TurnDecisions;
use king_core::VictoryOutcome;

fn no_decisions() -> TurnDecisions {
    TurnDecisions { concede_after_attack: false, concede_under_attack: false, enter_tokyo: false }
}

#[test]
fn new_game_has_sequential_ids_and_start_values() {
    let game = Game::new(&["Alice", "Bob", "Carol"]);
    assert_eq!(game.players.len(), 3);
    assert_eq!(game.players[0].id, 1);
    assert_eq!(game.players[1].id, 2);
    assert_eq!(game.players[2].id, 3);
    assert_eq!(game.players[1].name, "Bob");
    for p in &game.players {
        assert_eq!(p.hp, 10);
        assert_eq!(p.victory_points, 0);
        assert_eq!(p.energy, 0);
    }
    assert_eq!(game.tokyo_controller_id, None);
    assert_eq!(game.max_hp, 12);
    assert_eq!(game.max_vp, 20);
}

#[test]
fn three_twos_award_exactly_two_points() {
    let mut game = Game::new(&["A", "B"]);
    let roll = [
        DieResult::Two,
        DieResult::Two,
        DieResult::Two,
        DieResult::Energy,
        DieResult::Energy,
        DieResult::Heart,
    ];
    game.process_roll(1, &roll, no_decisions());
    assert_eq!(game.players[0].victory_points, 2);
}

#[test]
fn four_twos_award_exactly_three_points() {
    let mut game = Game::new(&["A", "B"]);
    let roll = [
        DieResult::Two,
        DieResult::Two,
        DieResult::Two,
        DieResult::Two,
        DieResult::Energy,
        DieResult::Heart,
    ];
    game.process_roll(1, &roll, no_decisions());
    assert_eq!(game.players[0].victory_points, 3);
}

#[test]
fn ones_and_twos_combine_into_one_award() {
    let mut game = Game::new(&["A", "B"]);
    let roll = [
        DieResult::One,
        DieResult::One,
        DieResult::One,
        DieResult::Two,
        DieResult::Two,
        DieResult::Two,
    ];
    game.process_roll(1, &roll, no_decisions());
    assert_eq!(game.players[0].victory_points, 3);
}

#[test]
fn energy_faces_accumulate() {
    let mut game = Game::new(&["A", "B"]);
    let roll = [
        DieResult::Energy,
        DieResult::Energy,
        DieResult::Energy,
        DieResult::Energy,
        DieResult::One,
        DieResult::Two,
    ];
    game.process_roll(1, &roll, no_decisions());
    assert_eq!(game.players[0].energy, 4);
}

#[test]
fn hearts_heal_outside_tokyo_capped_at_max_hp() {
    let mut game = Game::new(&["A", "B"]);
    let roll = [
        DieResult::Heart,
        DieResult::Heart,
        DieResult::Heart,
        DieResult::Heart,
        DieResult::Heart,
        DieResult::Heart,
    ];
    game.process_roll(1, &roll, no_decisions());
    assert_eq!(game.players[0].hp, 12);
}

#[test]
fn hearts_are_discarded_inside_tokyo() {
    let mut game = Game::new(&["A", "B"]);
    game.tokyo_controller_id = Some(1);
    game.players[0].hp = 5;
    let roll = [
        DieResult::Heart,
        DieResult::Heart,
        DieResult::Heart,
        DieResult::One,
        DieResult::Two,
        DieResult::Three,
    ];
    game.process_roll(1, &roll, no_decisions());
    assert_eq!(game.players[0].hp, 5);
}

#[test]
fn entering_vacant_tokyo_awards_one_point() {
    let mut game = Game::new(&["Solo"]);
    let roll = [
        DieResult::Claw,
        DieResult::Claw,
        DieResult::Claw,
        DieResult::Energy,
        DieResult::Energy,
        DieResult::Energy,
    ];
    let decisions = TurnDecisions {
        concede_after_attack: false,
        concede_under_attack: false,
        enter_tokyo: true,
    };
    game.process_roll(1, &roll, decisions);
    assert_eq!(game.tokyo_controller_id, Some(1));
    assert_eq!(game.players[0].victory_points, 1);
    assert_eq!(game.players[0].hp, 10);
}

#[test]
fn declining_vacant_tokyo_changes_nothing() {
    let mut game = Game::new(&["A", "B"]);
    let roll = [
        DieResult::Claw,
        DieResult::Claw,
        DieResult::One,
        DieResult::One,
        DieResult::Two,
        DieResult::Three,
    ];
    game.process_roll(1, &roll, no_decisions());
    assert_eq!(game.tokyo_controller_id, None);
    assert_eq!(game.players[0].victory_points, 0);
}

#[test]
fn eliminated_occupant_vacates_and_challenger_may_enter() {
    let mut game = Game::new(&["Challenger", "Occupant"]);
    game.tokyo_controller_id = Some(2);
    game.players[1].hp = 3;
    let roll = [
        DieResult::Claw,
        DieResult::Claw,
        DieResult::Claw,
        DieResult::Claw,
        DieResult::Claw,
        DieResult::Energy,
    ];
    let decisions = TurnDecisions {
        concede_after_attack: false,
        concede_under_attack: false,
        enter_tokyo: true,
    };
    game.process_roll(1, &roll, decisions);
    assert_eq!(game.players[1].hp, 0);
    assert_eq!(game.tokyo_controller_id, Some(1));
    assert_eq!(game.players[0].victory_points, 1);
}

#[test]
fn surviving_occupant_holding_ends_the_contest() {
    let mut game = Game::new(&["Challenger", "Occupant"]);
    game.tokyo_controller_id = Some(2);
    let roll = [
        DieResult::Claw,
        DieResult::Claw,
        DieResult::One,
        DieResult::Two,
        DieResult::Three,
        DieResult::Energy,
    ];
    let decisions = TurnDecisions {
        concede_after_attack: false,
        concede_under_attack: false,
        enter_tokyo: true,
    };
    game.process_roll(1, &roll, decisions);
    assert_eq!(game.players[1].hp, 8);
    assert_eq!(game.tokyo_controller_id, Some(2));
    assert_eq!(game.players[0].victory_points, 0);
}

#[test]
fn conceding_occupant_lets_challenger_enter() {
    let mut game = Game::new(&["Challenger", "Occupant"]);
    game.tokyo_controller_id = Some(2);
    let roll = [
        DieResult::Claw,
        DieResult::Claw,
        DieResult::One,
        DieResult::Two,
        DieResult::Three,
        DieResult::Energy,
    ];
    let decisions = TurnDecisions {
        concede_after_attack: false,
        concede_under_attack: true,
        enter_tokyo: true,
    };
    game.process_roll(1, &roll, decisions);
    assert_eq!(game.players[1].hp, 8);
    assert_eq!(game.tokyo_controller_id, Some(1));
    assert_eq!(game.players[0].victory_points, 1);
}

#[test]
fn occupant_attack_damages_everyone_else() {
    let mut game = Game::new(&["A", "B", "C"]);
    game.tokyo_controller_id = Some(2);
    let roll = [
        DieResult::Claw,
        DieResult::Claw,
        DieResult::Claw,
        DieResult::One,
        DieResult::Two,
        DieResult::Three,
    ];
    game.process_roll(2, &roll, no_decisions());
    assert_eq!(game.players[0].hp, 7);
    assert_eq!(game.players[1].hp, 10);
    assert_eq!(game.players[2].hp, 7);
    assert_eq!(game.tokyo_controller_id, Some(2));
}

#[test]
fn occupant_may_concede_after_attacking() {
    let mut game = Game::new(&["A", "B"]);
    game.tokyo_controller_id = Some(1);
    let roll = [
        DieResult::Claw,
        DieResult::One,
        DieResult::Two,
        DieResult::Three,
        DieResult::Energy,
        DieResult::Energy,
    ];
    let decisions = TurnDecisions {
        concede_after_attack: true,
        concede_under_attack: false,
        enter_tokyo: false,
    };
    game.process_roll(1, &roll, decisions);
    assert_eq!(game.players[1].hp, 9);
    assert_eq!(game.tokyo_controller_id, None);
}

#[test]
fn damage_saturates_at_zero_hp() {
    let mut game = Game::new(&["A", "B"]);
    game.tokyo_controller_id = Some(2);
    game.players[1].hp = 2;
    let roll = [
        DieResult::Claw,
        DieResult::Claw,
        DieResult::Claw,
        DieResult::Claw,
        DieResult::Claw,
        DieResult::Claw,
    ];
    game.process_roll(1, &roll, no_decisions());
    assert_eq!(game.players[1].hp, 0);
}

#[test]
fn victory_points_saturate_at_max_vp() {
    let mut game = Game::new(&["A", "B"]);
    game.players[0].victory_points = 19;
    let roll = [
        DieResult::Three,
        DieResult::Three,
        DieResult::Three,
        DieResult::Three,
        DieResult::Three,
        DieResult::Three,
    ];
    game.process_roll(1, &roll, no_decisions());
    assert_eq!(game.players[0].victory_points, 20);
}

#[test]
fn resources_stay_in_bounds_over_many_turns() {
    let mut game = Game::new(&["A", "B"]);
    let threes = [DieResult::Three; 6];
    for _ in 0..50 {
        game.process_roll(1, &threes, no_decisions());
        assert!(game.players[0].victory_points <= 20);
    }
    assert_eq!(game.players[0].victory_points, 20);
    let hearts = [DieResult::Heart; 6];
    for _ in 0..50 {
        game.process_roll(1, &hearts, no_decisions());
        assert!(game.players[0].hp <= 12);
    }
    assert_eq!(game.players[0].hp, 12);
    let energy = [DieResult::Energy; 6];
    for _ in 0..50 {
        game.process_roll(1, &energy, no_decisions());
    }
    assert_eq!(game.players[0].energy, 300);
}

#[test]
fn tokyo_control_bonus_awards_two_points_capped() {
    let mut game = Game::new(&["A", "B"]);
    game.tokyo_controller_id = Some(2);
    game.apply_tokyo_control_points();
    assert_eq!(game.players[1].victory_points, 2);
    game.players[1].victory_points = 19;
    game.apply_tokyo_control_points();
    assert_eq!(game.players[1].victory_points, 20);
}

#[test]
fn tokyo_control_bonus_does_nothing_while_vacant() {
    let mut game = Game::new(&["A", "B"]);
    game.apply_tokyo_control_points();
    assert_eq!(game.players[0].victory_points, 0);
    assert_eq!(game.players[1].victory_points, 0);
}

#[test]
fn points_winner_is_reported() {
    let mut game = Game::new(&["A", "B", "C"]);
    game.players[1].victory_points = 20;
    game.players[2].victory_points = 19;
    let outcome = game.check_victory_condition();
    assert_eq!(outcome, Some(VictoryOutcome::PointsWin(2)));
}

#[test]
fn sole_survivor_wins_by_survival() {
    let mut game = Game::new(&["A", "B", "C"]);
    game.players[0].hp = 0;
    game.players[2].hp = 0;
    let outcome = game.check_victory_condition();
    assert_eq!(outcome, Some(VictoryOutcome::SurvivalWin(2)));
}

#[test]
fn mutual_elimination_is_a_draw() {
    let mut game = Game::new(&["A", "B"]);
    game.players[0].hp = 0;
    game.players[1].hp = 0;
    let outcome = game.check_victory_condition();
    assert_eq!(outcome, Some(VictoryOutcome::Draw));
}

#[test]
fn ongoing_game_has_no_outcome() {
    let game = Game::new(&["A", "B"]);
    assert_eq!(game.check_victory_condition(), None);
}

#[test]
fn dead_player_at_the_limit_is_not_a_points_winner() {
    let mut game = Game::new(&["A", "B", "C"]);
    game.players[0].victory_points = 20;
    game.players[0].hp = 0;
    let outcome = game.check_victory_condition();
    assert_eq!(outcome, None);
}
