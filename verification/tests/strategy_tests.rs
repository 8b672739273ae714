use normal_form::game::{prisoners_dilemma, stag_hunt, NormalFormGame};
use normal_form::strategy::{
    best_responses, is_best_response, player_payoff_in_profile, profile_payoffs, StrategyProfile,
};

#[test]
fn test_strategy_profile_creation() {
    let p = StrategyProfile::new(0, 1);
    assert_eq!(p.strategy(0), 0);
    assert_eq!(p.strategy(1), 1);
}

#[test]
fn test_profile_payoffs_pd() {
    let g = prisoners_dilemma();
    let p = StrategyProfile::new(1, 1); // (Defect, Defect)
    let payoffs = profile_payoffs(&g, &p);
    assert!((payoffs[0] as f64 - (-2.0)).abs() < 1e-10);
    assert!((payoffs[1] as f64 - (-2.0)).abs() < 1e-10);
}

#[test]
fn test_best_response_pd_defect() {
    let g = prisoners_dilemma();
    // In PD, Defect is always a best response
    let br0 = best_responses(&g, 0, 0); // P0's BR to P1 playing C
    assert_eq!(br0, vec![1]); // Defect
    let br1 = best_responses(&g, 1, 0); // P1's BR to P0 playing C
    assert_eq!(br1, vec![1]); // Defect
}

#[test]
fn test_best_response_pd_always_defect() {
    let g = prisoners_dilemma();
    let br0 = best_responses(&g, 0, 1); // P0's BR to P1 playing D
    assert_eq!(br0, vec![1]); // Defect
    let br1 = best_responses(&g, 1, 1); // P1's BR to P0 playing D
    assert_eq!(br1, vec![1]); // Defect
}

#[test]
fn best_responses_keep_ties_in_order() {
    let g = NormalFormGame::new(vec![
        vec![(5, 0), (1, 0)],
        vec![(2, 0), (1, 0)],
        vec![(5, 0), (0, 0)],
    ]);
    assert_eq!(best_responses(&g, 0, 0), vec![0, 2]);
    assert_eq!(best_responses(&g, 0, 1), vec![0, 1]);
    assert_eq!(best_responses(&g, 1, 2), vec![0, 1]);
}

#[test]
fn best_responses_never_empty_when_player_has_strategies() {
    let g = stag_hunt();
    for o in 0..2 {
        for player in 0..2 {
            assert!(!best_responses(&g, player, o).is_empty());
        }
    }
}

#[test]
fn best_responses_of_player_without_strategies() {
    let g = NormalFormGame::new(vec![]);
    assert!(best_responses(&g, 0, 7).is_empty());
}

#[test]
fn is_best_response_matches_best_responses() {
    let g = stag_hunt();
    assert!(is_best_response(&g, 0, 0, 0));
    assert!(!is_best_response(&g, 0, 1, 0));
    assert!(is_best_response(&g, 1, 1, 1));
    assert!(!is_best_response(&g, 1, 5, 1));
}

#[test]
fn player_payoff_in_profile_reads_one_player() {
    let g = prisoners_dilemma();
    let p = StrategyProfile::new(0, 1);
    assert_eq!(player_payoff_in_profile(&g, 0, &p), -3);
    assert_eq!(player_payoff_in_profile(&g, 1, &p), 0);
    assert_eq!(profile_payoffs(&g, &p), [-3, 0]);
}
