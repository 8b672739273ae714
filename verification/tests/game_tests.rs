use normal_form::game::{
    battle_of_sexes, chicken, matching_pennies, prisoners_dilemma, stag_hunt, NormalFormGame,
};

#[test]
fn test_prisoners_dilemma_payoffs() {
    let g = prisoners_dilemma();
    assert_eq!(g.get_payoff(0, 0), (-1, -1)); // (C, C)
    assert_eq!(g.get_payoff(1, 1), (-2, -2)); // (D, D)
    assert_eq!(g.get_payoff(0, 1), (-3, 0)); // (C, D)
    assert_eq!(g.get_payoff(1, 0), (0, -3)); // (D, C)
}

#[test]
fn test_battle_of_sexes_payoffs() {
    let g = battle_of_sexes();
    assert_eq!(g.get_payoff(0, 0), (3, 2));
    assert_eq!(g.get_payoff(1, 1), (2, 3));
}

#[test]
fn test_matching_pennies_zero_sum() {
    let g = matching_pennies();
    for s0 in 0..2 {
        for s1 in 0..2 {
            let (p0, p1) = g.get_payoff(s0, s1);
            assert!(((p0 + p1) as f64).abs() < 1e-10, "Not zero-sum at ({}, {})", s0, s1);
        }
    }
}

#[test]
fn test_all_profiles_2x2() {
    let g = prisoners_dilemma();
    let profiles = g.all_profiles();
    assert_eq!(profiles.len(), 4);
}

#[test]
fn test_game_display() {
    let g = prisoners_dilemma();
    let s = g.to_string();
    assert!(s.contains("Normal-Form Game"));
    assert!(s.contains("Cooperate"));
    assert!(s.contains("Defect"));
}

#[test]
fn display_text_is_exact() {
    let g = prisoners_dilemma();
    let expected = String::from("Normal-Form Game (2x2):\n")
        + "            "
        + "   Cooperate"
        + "      Defect"
        + "\n"
        + "   Cooperate (-1, -1) (-3, 0)\n"
        + "      Defect (0, -3) (-2, -2)\n";
    assert_eq!(g.to_string(), expected);
}

#[test]
fn display_keeps_long_labels_whole() {
    let g = NormalFormGame::with_labels(
        vec![vec![(12, -345)]],
        vec!["AVeryLongRowLabel"],
        vec!["C"],
    );
    let expected = String::from("Normal-Form Game (1x1):\n")
        + &" ".repeat(12)
        + &" ".repeat(11)
        + "C\n"
        + "AVeryLongRowLabel (12, -345)\n";
    assert_eq!(g.to_string(), expected);
}

#[test]
fn all_profiles_row_by_row() {
    let g = NormalFormGame::new(vec![vec![(0, 0); 3], vec![(0, 0); 3]]);
    assert_eq!(g.all_profiles(), vec![(0, 0), (0, 1), (0, 2), (1, 0), (1, 1), (1, 2)]);
}

#[test]
fn all_profiles_of_empty_game() {
    let g = NormalFormGame::new(vec![]);
    assert_eq!(g.n_strategies, [0, 0]);
    assert!(g.all_profiles().is_empty());
    assert!(g.labels_0.is_empty());
}

#[test]
fn new_labels_strategies_in_decimal() {
    let g = NormalFormGame::new(vec![vec![(1, 2); 2]; 11]);
    assert_eq!(g.n_strategies, [11, 2]);
    assert_eq!(g.labels_0[0], "S0");
    assert_eq!(g.labels_0[9], "S9");
    assert_eq!(g.labels_0[10], "S10");
    assert_eq!(g.labels_1, vec!["S0".to_string(), "S1".to_string()]);
}

#[test]
fn new_2x2_builds_matrix_and_labels() {
    let g = NormalFormGame::new_2x2([[(1, 2), (3, 4)], [(5, 6), (7, 8)]]);
    assert_eq!(g.n_strategies, [2, 2]);
    assert_eq!(g.payoffs, vec![vec![(1, 2), (3, 4)], vec![(5, 6), (7, 8)]]);
    assert_eq!(g.labels_0, vec!["S0".to_string(), "S1".to_string()]);
    assert_eq!(g.labels_1, vec!["S0".to_string(), "S1".to_string()]);
}

#[test]
fn player_payoff_picks_component() {
    let g = chicken();
    assert_eq!(g.player_payoff(0, 1, 0), 1);
    assert_eq!(g.player_payoff(1, 1, 0), -1);
    assert_eq!(g.player_payoff(1, 1, 1), -10);
    assert_eq!(g.num_strategies(0), 2);
    assert_eq!(g.num_strategies(1), 2);
}

#[test]
fn named_games_have_labels() {
    assert_eq!(stag_hunt().labels_0, vec!["Stag".to_string(), "Hare".to_string()]);
    assert_eq!(chicken().labels_1, vec!["Swerve".to_string(), "Straight".to_string()]);
    assert_eq!(matching_pennies().get_payoff(0, 1), (-1, 1));
}
