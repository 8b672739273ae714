use normal_form::game::{battle_of_sexes, prisoners_dilemma, NormalFormGame};
use normal_form::pareto::{find_pareto_optimal, max_social_welfare, pareto_dominates, pareto_frontier};

#[test]
fn test_pareto_dominates_basic() {
    assert!(pareto_dominates(&[3, 3], &[2, 2]));
    assert!(pareto_dominates(&[3, 2], &[2, 2]));
    assert!(!pareto_dominates(&[2, 3], &[3, 2])); // incomparable
}

#[test]
fn test_pd_pareto_optimal() {
    let g = prisoners_dilemma();
    let opt = find_pareto_optimal(&g);
    // In PD, (Cooperate, Cooperate) is Pareto optimal (sum -2 beats -4, -3)
    // and (Defect, Cooperate), (Cooperate, Defect) are also Pareto optimal
    assert!(opt.len() >= 1);
    let payoffs: Vec<[f64; 2]> =
        opt.iter().map(|o| [o.payoffs[0] as f64, o.payoffs[1] as f64]).collect();
    // (C,C) = (-1,-1) should be Pareto optimal
    assert!(payoffs.iter().any(|p| (p[0] - (-1.0)).abs() < 1e-10 && (p[1] - (-1.0)).abs() < 1e-10));
}

#[test]
fn test_pd_not_pareto_optimal_dd() {
    let g = prisoners_dilemma();
    let opt = find_pareto_optimal(&g);
    let payoffs: Vec<[f64; 2]> =
        opt.iter().map(|o| [o.payoffs[0] as f64, o.payoffs[1] as f64]).collect();
    // (D,D) = (-2,-2) is NOT Pareto optimal because (C,C) = (-1,-1) dominates it
    assert!(!payoffs.iter().any(|p| (p[0] - (-2.0)).abs() < 1e-10 && (p[1] - (-2.0)).abs() < 1e-10));
}

#[test]
fn test_max_social_welfare_pd() {
    let g = prisoners_dilemma();
    let best = max_social_welfare(&g).unwrap();
    // (C,C) has sum -2, the highest
    assert!((best.payoffs[0] as f64 - (-1.0)).abs() < 1e-10);
}

#[test]
fn test_battle_of_sexes_pareto() {
    let g = battle_of_sexes();
    let opt = find_pareto_optimal(&g);
    // Both (Opera,Opera) and (Football,Football) are Pareto optimal
    assert!(opt.len() >= 2);
}

#[test]
fn pd_pareto_optimal_profiles_exactly() {
    let g = prisoners_dilemma();
    let profiles: Vec<[usize; 2]> =
        find_pareto_optimal(&g).iter().map(|o| o.profile.strategies).collect();
    assert_eq!(profiles, vec![[0, 0], [0, 1], [1, 0]]);
    assert_eq!(pareto_frontier(&g), vec![[-1, -1], [-3, 0], [0, -3]]);
}

#[test]
fn pareto_dominance_is_a_strict_order() {
    let a = [1, 1];
    assert!(!pareto_dominates(&a, &a));
    let (x, y, z) = ([3, 2], [2, 2], [2, 1]);
    assert!(pareto_dominates(&x, &y) && !pareto_dominates(&y, &x));
    assert!(pareto_dominates(&y, &z) && pareto_dominates(&x, &z));
}

#[test]
fn max_social_welfare_returns_last_of_ties() {
    let g = NormalFormGame::new(vec![vec![(2, 0), (0, 1)], vec![(1, 1), (0, 0)]]);
    let best = max_social_welfare(&g).unwrap();
    assert_eq!(best.profile.strategies, [1, 0]);
    assert_eq!(best.payoffs, [1, 1]);
}

#[test]
fn max_social_welfare_outcome_is_pareto_optimal() {
    let g = battle_of_sexes();
    let best = max_social_welfare(&g).unwrap();
    let opt: Vec<[usize; 2]> = find_pareto_optimal(&g).iter().map(|o| o.profile.strategies).collect();
    assert!(opt.contains(&best.profile.strategies));
}

#[test]
fn empty_game_has_no_outcomes() {
    let g = NormalFormGame::new(vec![]);
    assert!(max_social_welfare(&g).is_none());
    assert!(find_pareto_optimal(&g).is_empty());
    assert!(pareto_frontier(&g).is_empty());
}
