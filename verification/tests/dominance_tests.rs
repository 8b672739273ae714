use normal_form::dominance::{find_strictly_dominant, iesds, strictly_dominates, weakly_dominates};
use normal_form::game::{battle_of_sexes, prisoners_dilemma, stag_hunt, NormalFormGame};

#[test]
fn test_defect_strictly_dominates_cooperate_pd() {
    let g = prisoners_dilemma();
    // Defect (1) strictly dominates Cooperate (0) for player 0
    assert!(strictly_dominates(&g, 0, 1, 0));
    // Cooperate does NOT strictly dominate Defect
    assert!(!strictly_dominates(&g, 0, 0, 1));
}

#[test]
fn test_strictly_dominant_strategy_pd() {
    let g = prisoners_dilemma();
    assert_eq!(find_strictly_dominant(&g, 0), Some(1)); // Defect
    assert_eq!(find_strictly_dominant(&g, 1), Some(1)); // Defect
}

#[test]
fn test_no_dominant_strategy_bos() {
    let g = battle_of_sexes();
    assert_eq!(find_strictly_dominant(&g, 0), None);
    assert_eq!(find_strictly_dominant(&g, 1), None);
}

#[test]
fn test_iesds_pd() {
    let g = prisoners_dilemma();
    let surviving = iesds(&g);
    // IESDS should eliminate Cooperate, leaving only Defect
    assert_eq!(surviving[0], vec![1]);
    assert_eq!(surviving[1], vec![1]);
}

#[test]
fn test_weakly_dominates() {
    let g = stag_hunt();
    // In Stag Hunt, no strict dominance but check weak
    // Stag does not weakly dominate Hare or vice versa
    assert!(!weakly_dominates(&g, 0, 0, 1));
    assert!(!weakly_dominates(&g, 0, 1, 0));
}

#[test]
fn weak_but_not_strict_dominance() {
    let g = NormalFormGame::new(vec![vec![(1, 0), (2, 0)], vec![(1, 0), (3, 0)]]);
    assert!(weakly_dominates(&g, 0, 1, 0));
    assert!(!strictly_dominates(&g, 0, 1, 0));
    assert!(!weakly_dominates(&g, 0, 0, 1));
    // A strategy never weakly dominates itself.
    assert!(!weakly_dominates(&g, 0, 1, 1));
}

#[test]
fn iesds_chain_of_eliminations() {
    // Player 1's Right is dominated by Middle; then player 0's Down is
    // dominated by Up; then player 1's Left is dominated by Middle.
    let g = NormalFormGame::new(vec![
        vec![(1, 0), (1, 2), (0, 1)],
        vec![(0, 3), (0, 1), (2, 0)],
    ]);
    let surviving = iesds(&g);
    assert_eq!(surviving[0], vec![0]);
    assert_eq!(surviving[1], vec![1]);
}

#[test]
fn iesds_leaves_coordination_game_alone() {
    let g = battle_of_sexes();
    let surviving = iesds(&g);
    assert_eq!(surviving[0], vec![0, 1]);
    assert_eq!(surviving[1], vec![0, 1]);
}

#[test]
fn dominant_strategy_is_sole_survivor() {
    let g = NormalFormGame::new(vec![
        vec![(3, 1), (4, 0), (5, 2)],
        vec![(1, 1), (2, 2), (3, 3)],
        vec![(0, 9), (1, 0), (2, 1)],
    ]);
    assert_eq!(find_strictly_dominant(&g, 0), Some(0));
    assert_eq!(iesds(&g)[0], vec![0]);
}

#[test]
fn strict_dominance_is_vacuous_without_opponent_strategies() {
    let g = NormalFormGame::new(vec![vec![], vec![]]);
    assert!(strictly_dominates(&g, 0, 0, 1));
    assert_eq!(find_strictly_dominant(&g, 0), Some(0));
    let surviving = iesds(&g);
    assert!(surviving[0].is_empty());
    assert!(surviving[1].is_empty());
}
