use normal_form::game::{
    battle_of_sexes, chicken, matching_pennies, prisoners_dilemma, stag_hunt, NormalFormGame,
};
use normal_form::nash::{find_pure_nash, is_nash_equilibrium, nash_surviving_iesds};

#[test]
fn test_pd_nash_equilibrium() {
    let g = prisoners_dilemma();
    let ne = find_pure_nash(&g);
    assert_eq!(ne.len(), 1);
    assert_eq!(ne[0].profile.strategies, [1, 1]); // (D, D)
}

#[test]
fn test_battle_of_sexes_two_nash() {
    let g = battle_of_sexes();
    let ne = find_pure_nash(&g);
    assert_eq!(ne.len(), 2);
}

#[test]
fn test_matching_pennies_no_pure_nash() {
    let g = matching_pennies();
    let ne = find_pure_nash(&g);
    assert_eq!(ne.len(), 0); // No pure NE in zero-sum matching pennies
}

#[test]
fn test_stag_hunt_two_nash() {
    let g = stag_hunt();
    let ne = find_pure_nash(&g);
    assert_eq!(ne.len(), 2); // (Stag,Stag) and (Hare,Hare)
}

#[test]
fn test_chicken_two_nash() {
    let g = chicken();
    let ne = find_pure_nash(&g);
    assert_eq!(ne.len(), 2); // (Swerve,Straight) and (Straight,Swerve)
}

#[test]
fn test_is_nash_equilibrium() {
    let g = prisoners_dilemma();
    assert!(is_nash_equilibrium(&g, 1, 1)); // (D,D) is NE
    assert!(!is_nash_equilibrium(&g, 0, 0)); // (C,C) is not NE
}

#[test]
fn test_nash_surviving_iesds() {
    let g = prisoners_dilemma();
    let ne = nash_surviving_iesds(&g);
    assert_eq!(ne.len(), 1);
    assert_eq!(ne[0].profile.strategies, [1, 1]);
}

#[test]
fn test_pd_nash_payoffs() {
    let g = prisoners_dilemma();
    let ne = find_pure_nash(&g);
    assert!((ne[0].payoffs[0] as f64 - (-2.0)).abs() < 1e-10);
    assert!((ne[0].payoffs[1] as f64 - (-2.0)).abs() < 1e-10);
}

#[test]
fn equilibria_come_in_lexicographic_order() {
    let g = chicken();
    let ne = find_pure_nash(&g);
    assert_eq!(ne[0].profile.strategies, [0, 1]);
    assert_eq!(ne[0].payoffs, [-1, 1]);
    assert_eq!(ne[1].profile.strategies, [1, 0]);
    assert_eq!(ne[1].payoffs, [1, -1]);
}

#[test]
fn every_equilibrium_survives_iesds() {
    for g in [prisoners_dilemma(), battle_of_sexes(), matching_pennies(), stag_hunt(), chicken()] {
        let all: Vec<[usize; 2]> = find_pure_nash(&g).iter().map(|e| e.profile.strategies).collect();
        let surviving: Vec<[usize; 2]> =
            nash_surviving_iesds(&g).iter().map(|e| e.profile.strategies).collect();
        assert_eq!(all, surviving);
    }
}

#[test]
fn ties_make_several_equilibria() {
    let g = NormalFormGame::new(vec![vec![(1, 1), (1, 1)], vec![(1, 1), (0, 0)]]);
    let ne: Vec<[usize; 2]> = find_pure_nash(&g).iter().map(|e| e.profile.strategies).collect();
    assert_eq!(ne, vec![[0, 0], [0, 1], [1, 0]]);
    assert!(!is_nash_equilibrium(&g, 1, 1));
}

#[test]
fn no_equilibria_in_empty_game() {
    let g = NormalFormGame::new(vec![]);
    assert!(find_pure_nash(&g).is_empty());
    assert!(nash_surviving_iesds(&g).is_empty());
}
