//! Pareto optimality analysis.

use vstd::prelude::*;

use crate::game::{lemma_lex_profiles, lemma_profiles_filter, lex_lt, lex_sorted, NormalFormGame, Payoff};
use crate::seqs::{lemma_argmax, lemma_filter_contains_iff};
use crate::strategy::StrategyProfile;

verus! {

/// A game outcome with its associated payoffs.
#[derive(Clone, Debug)]
pub struct Outcome {
    pub profile: StrategyProfile,
    pub payoffs: [Payoff; 2],
}

/// The profile `(s0, s1)` of an outcome.
pub open spec fn outcome_profile(o: Outcome) -> (usize, usize) {
    (o.profile.strategies@[0], o.profile.strategies@[1])
}

/// The profiles of a list of outcomes.
pub open spec fn outcome_profiles(os: Seq<Outcome>) -> Seq<(usize, usize)> {
    os.map_values(|o: Outcome| outcome_profile(o))
}

/// The payoff vector `[payoff_0, payoff_1]` of profile `(s0, s1)`.
pub open spec fn payoff_pair(g: &NormalFormGame, s0: int, s1: int) -> Seq<Payoff> {
    seq![g.entry(s0, s1).0, g.entry(s0, s1).1]
}

/// Every outcome in `os` carries the payoffs of its profile.
pub open spec fn outcomes_carry_payoffs(g: &NormalFormGame, os: Seq<Outcome>) -> bool {
    forall|k: int|
        0 <= k < os.len() ==> (#[trigger] os[k]).payoffs@ == payoff_pair(
            g,
            os[k].profile.strategies@[0] as int,
            os[k].profile.strategies@[1] as int,
        )
}

/// Payoff vector `a` Pareto dominates `b`: every player is at least as well
/// off under `a` and at least one player is strictly better off.
pub open spec fn pareto_better(a: Seq<Payoff>, b: Seq<Payoff>) -> bool {
    &&& a[0] >= b[0]
    &&& a[1] >= b[1]
    &&& (a[0] > b[0] || a[1] > b[1])
}

/// No profile of the game Pareto dominates profile `p`.
pub open spec fn pareto_optimal(g: &NormalFormGame, p: (usize, usize)) -> bool {
    forall|q0: int, q1: int|
        g.is_profile(q0, q1) ==> !pareto_better(
            #[trigger] payoff_pair(g, q0, q1),
            payoff_pair(g, p.0 as int, p.1 as int),
        )
}

/// The Pareto optimal profiles of the game, in lexicographic order.
pub open spec fn pareto_profiles(g: &NormalFormGame) -> Seq<(usize, usize)> {
    g.profiles().filter(|p: (usize, usize)| pareto_optimal(g, p))
}

/// The social welfare (sum of both payoffs) at profile `(s0, s1)`.
pub open spec fn welfare(g: &NormalFormGame, s0: int, s1: int) -> int {
    g.entry(s0, s1).0 + g.entry(s0, s1).1
}

/// Check if outcome `a` Pareto dominates outcome `b`.
///
/// Outcome `a` Pareto dominates `b` if every player is at least as well off
/// in `a` as in `b`, and at least one player is strictly better off.
pub fn pareto_dominates(a: &[Payoff; 2], b: &[Payoff; 2]) -> (r: bool)
    ensures
        r == pareto_better(a@, b@),
        r ==> a@[0] >= b@[0] && a@[1] >= b@[1],
        r == (a@[0] >= b@[0] && a@[1] >= b@[1] && (a@[0] > b@[0] || a@[1] > b@[1])),
{
    let mut all_geq = true;
    let mut some_gt = false;
    for i in 0..2
        invariant
            all_geq == forall|j: int| 0 <= j < i ==> a@[j] >= b@[j],
            some_gt == exists|j: int| 0 <= j < i && a@[j] > b@[j],
    {
        if a[i] < b[i] {
            all_geq = false;
            return all_geq && some_gt;
        }
        if a[i] > b[i] {
            some_gt = true;
        }
    }
    all_geq && some_gt
}

/// Get all outcomes of the game, in lexicographic order of their profiles.
fn all_outcomes(game: &NormalFormGame) -> (all: Vec<Outcome>)
    requires
        game.well_formed(),
    ensures
        outcome_profiles(all@) == game.profiles(),
        outcomes_carry_payoffs(game, all@),
{
    proof {
        lemma_lex_profiles(game.n_strategies@[0], game.n_strategies@[1]);
    }
    let profiles = game.all_profiles();
    let mut all: Vec<Outcome> = Vec::new();
    for idx in 0..profiles.len()
        invariant
            game.well_formed(),
            profiles@ == game.profiles(),
            forall|k: int|
                0 <= k < profiles@.len() ==> (#[trigger] profiles@[k]).0 < game.count(0)
                    && profiles@[k].1 < game.count(1),
            outcome_profiles(all@) == profiles@.take(idx as int),
            outcomes_carry_payoffs(game, all@),
    {
        let (s0, s1) = profiles[idx];
        assert(profiles@[idx as int].0 < game.count(0));
        assert(game.has_entry(s0 as int, s1 as int));
        let (p0, p1) = game.get_payoff(s0, s1);
        let ghost before = all@;
        all.push(Outcome { profile: StrategyProfile::new(s0, s1), payoffs: [p0, p1] });
        proof {
            assert(outcome_profiles(all@) == outcome_profiles(before).push((s0, s1)));
            assert(profiles@.take(idx + 1) == profiles@.take(idx as int).push((s0, s1)));
            assert forall|k: int| 0 <= k < all@.len() implies (#[trigger] all@[k]).payoffs@ == payoff_pair(
                game,
                all@[k].profile.strategies@[0] as int,
                all@[k].profile.strategies@[1] as int,
            ) by {
                if k < before.len() {
                    assert(all@[k] == before[k]);
                }
            }
        }
    }
    proof {
        assert(profiles@.take(profiles@.len() as int) == profiles@);
    }
    all
}

/// A profile is Pareto optimal exactly when no profile of the game at all
/// (sharing a row or a column with it, or neither) gives both players at
/// least as much and one of them strictly more.
pub proof fn lemma_pareto_optimal_undominated(game: &NormalFormGame)
    ensures
        forall|s0: usize, s1: usize|
            #[trigger] pareto_profiles(game).contains((s0, s1)) <==> (s0 < game.n_strategies@[0] && s1
                < game.n_strategies@[1] && (forall|q0: int, q1: int|
                0 <= q0 < game.n_strategies@[0] && 0 <= q1 < game.n_strategies@[1] ==> !(#[trigger] game.payoffs@[q0]@[q1].0 >= game.payoffs@[s0 as int]@[s1 as int].0
                    && game.payoffs@[q0]@[q1].1 >= game.payoffs@[s0 as int]@[s1 as int].1 && (game.payoffs@[q0]@[q1].0 > game.payoffs@[s0 as int]@[s1 as int].0 || game.payoffs@[q0]@[q1].1 > game.payoffs@[s0 as int]@[s1 as int].1)))),
{
    lemma_pareto_profiles_exact(game);
    game.lemma_payoffs_read_matrix();
    assert forall|s0: usize, s1: usize| pareto_optimal(game, (s0, s1)) <==> (forall|q0: int, q1: int|
                0 <= q0 < game.n_strategies@[0] && 0 <= q1 < game.n_strategies@[1] ==> !(#[trigger] game.payoffs@[q0]@[q1].0 >= game.payoffs@[s0 as int]@[s1 as int].0
                    && game.payoffs@[q0]@[q1].1 >= game.payoffs@[s0 as int]@[s1 as int].1 && (game.payoffs@[q0]@[q1].0 > game.payoffs@[s0 as int]@[s1 as int].0 || game.payoffs@[q0]@[q1].1 > game.payoffs@[s0 as int]@[s1 as int].1))) by {
        if pareto_optimal(game, (s0, s1)) {
            assert forall|q0: int, q1: int| 0 <= q0 < game.n_strategies@[0] && 0 <= q1 < game.n_strategies@[1] implies !(
                #[trigger] game.payoffs@[q0]@[q1].0 >= game.payoffs@[s0 as int]@[s1 as int].0
                && game.payoffs@[q0]@[q1].1 >= game.payoffs@[s0 as int]@[s1 as int].1
                && (game.payoffs@[q0]@[q1].0 > game.payoffs@[s0 as int]@[s1 as int].0
                || game.payoffs@[q0]@[q1].1 > game.payoffs@[s0 as int]@[s1 as int].1)) by {
                assert(!pareto_better(payoff_pair(game, q0, q1), payoff_pair(game, s0 as int, s1 as int)));
            }
        } else {
            let (q0, q1) = choose|q0: int, q1: int| game.is_profile(q0, q1) && pareto_better(
                #[trigger] payoff_pair(game, q0, q1),
                payoff_pair(game, s0 as int, s1 as int),
            );
            assert(game.payoffs@[q0]@[q1].0 >= game.payoffs@[s0 as int]@[s1 as int].0);
        }
    }
}

/// A list of outcomes that lists exactly the Pareto optimal profiles, each
/// with its payoffs, states them directly in terms of the matrix.
proof fn lemma_optimal_list_direct(game: &NormalFormGame, optimal: Seq<Outcome>)
    requires
        outcome_profiles(optimal) == pareto_profiles(game),
        outcomes_carry_payoffs(game, optimal),
    ensures
        forall|k: int|
            0 <= k < optimal.len() ==> {
                let s0 = (#[trigger] optimal[k]).profile.strategies@[0] as int;
                let s1 = optimal[k].profile.strategies@[1] as int;
                &&& 0 <= s0 < game.n_strategies@[0]
                &&& 0 <= s1 < game.n_strategies@[1]
                &&& optimal[k].payoffs@[0] == game.payoffs@[s0]@[s1].0
                &&& optimal[k].payoffs@[1] == game.payoffs@[s0]@[s1].1
                &&& forall|q0: int, q1: int|
                0 <= q0 < game.n_strategies@[0] && 0 <= q1 < game.n_strategies@[1] ==> !(#[trigger] game.payoffs@[q0]@[q1].0 >= optimal[k].payoffs@[0]
                    && game.payoffs@[q0]@[q1].1 >= optimal[k].payoffs@[1] && (game.payoffs@[q0]@[q1].0 > optimal[k].payoffs@[0] || game.payoffs@[q0]@[q1].1 > optimal[k].payoffs@[1]))
            },
        forall|s0: int, s1: int|
                        #[trigger] game.is_profile(s0, s1) && (forall|q0: int, q1: int|
                0 <= q0 < game.n_strategies@[0] && 0 <= q1 < game.n_strategies@[1] ==> !(#[trigger] game.payoffs@[q0]@[q1].0 >= game.payoffs@[s0]@[s1].0
                    && game.payoffs@[q0]@[q1].1 >= game.payoffs@[s0]@[s1].1 && (game.payoffs@[q0]@[q1].0 > game.payoffs@[s0]@[s1].0 || game.payoffs@[q0]@[q1].1 > game.payoffs@[s0]@[s1].1)))
                ==> exists|k: int|
                0 <= k < optimal.len() && (#[trigger] optimal[k]).profile.strategies@[0] == s0
                    && optimal[k].profile.strategies@[1] == s1,
        forall|i: int, j: int|
            0 <= i < j < optimal.len() ==> (#[trigger] optimal[i]).profile.strategies@[0]
                < (#[trigger] optimal[j]).profile.strategies@[0] || (
            optimal[i].profile.strategies@[0] == optimal[j].profile.strategies@[0]
                && optimal[i].profile.strategies@[1] < optimal[j].profile.strategies@[1]),
{
    let pp = pareto_profiles(game);
    lemma_pareto_optimal_undominated(game);
    lemma_pareto_profiles_exact(game);
    game.lemma_payoffs_read_matrix();
    assert forall|k: int| 0 <= k < optimal.len() implies ({
        let s0 = (#[trigger] optimal[k]).profile.strategies@[0] as int;
        let s1 = optimal[k].profile.strategies@[1] as int;
        &&& 0 <= s0 < game.n_strategies@[0]
        &&& 0 <= s1 < game.n_strategies@[1]
        &&& optimal[k].payoffs@[0] == game.payoffs@[s0]@[s1].0
        &&& optimal[k].payoffs@[1] == game.payoffs@[s0]@[s1].1
        &&& forall|q0: int, q1: int|
                0 <= q0 < game.n_strategies@[0] && 0 <= q1 < game.n_strategies@[1] ==> !(#[trigger] game.payoffs@[q0]@[q1].0 >= optimal[k].payoffs@[0]
                    && game.payoffs@[q0]@[q1].1 >= optimal[k].payoffs@[1] && (game.payoffs@[q0]@[q1].0 > optimal[k].payoffs@[0] || game.payoffs@[q0]@[q1].1 > optimal[k].payoffs@[1]))
    }) by {
        assert(outcome_profiles(optimal)[k] == outcome_profile(optimal[k]));
        let p = pp[k];
        assert(pp.contains(p));
        assert(optimal[k].payoffs@ == payoff_pair(game, p.0 as int, p.1 as int));
    }
    assert forall|s0: int, s1: int|
                #[trigger] game.is_profile(s0, s1) && (forall|q0: int, q1: int|
                0 <= q0 < game.n_strategies@[0] && 0 <= q1 < game.n_strategies@[1] ==> !(#[trigger] game.payoffs@[q0]@[q1].0 >= game.payoffs@[s0]@[s1].0
                    && game.payoffs@[q0]@[q1].1 >= game.payoffs@[s0]@[s1].1 && (game.payoffs@[q0]@[q1].0 > game.payoffs@[s0]@[s1].0 || game.payoffs@[q0]@[q1].1 > game.payoffs@[s0]@[s1].1)))
        implies exists|k: int|
        0 <= k < optimal.len() && (#[trigger] optimal[k]).profile.strategies@[0] == s0
            && optimal[k].profile.strategies@[1] == s1 by {
        assert(pp.contains((s0 as usize, s1 as usize)));
        let k = choose|k: int| 0 <= k < pp.len() && pp[k] == (s0 as usize, s1 as usize);
        assert(outcome_profiles(optimal)[k] == outcome_profile(optimal[k]));
    }
    assert forall|i: int, j: int| 0 <= i < j < optimal.len() implies (#[trigger] optimal[i]).profile.strategies@[0]
        < (#[trigger] optimal[j]).profile.strategies@[0] || (
        optimal[i].profile.strategies@[0] == optimal[j].profile.strategies@[0]
            && optimal[i].profile.strategies@[1] < optimal[j].profile.strategies@[1]) by {
        assert(outcome_profiles(optimal)[i] == outcome_profile(optimal[i]));
        assert(outcome_profiles(optimal)[j] == outcome_profile(optimal[j]));
        assert(lex_lt(pp[i], pp[j]));
    }
}

/// Find all Pareto optimal (Pareto efficient) outcomes in a game.
///
/// An outcome is Pareto optimal if no other outcome Pareto dominates it.
pub fn find_pareto_optimal(game: &NormalFormGame) -> (optimal: Vec<Outcome>)
    requires
        game.well_formed(),
    ensures
        outcome_profiles(optimal@) == pareto_profiles(game),
        outcomes_carry_payoffs(game, optimal@),
        forall|k: int|
            0 <= k < optimal@.len() ==> {
                let s0 = (#[trigger] optimal@[k]).profile.strategies@[0] as int;
                let s1 = optimal@[k].profile.strategies@[1] as int;
                &&& 0 <= s0 < game.n_strategies@[0]
                &&& 0 <= s1 < game.n_strategies@[1]
                &&& optimal@[k].payoffs@[0] == game.payoffs@[s0]@[s1].0
                &&& optimal@[k].payoffs@[1] == game.payoffs@[s0]@[s1].1
                &&& forall|q0: int, q1: int|
                0 <= q0 < game.n_strategies@[0] && 0 <= q1 < game.n_strategies@[1] ==> !(#[trigger] game.payoffs@[q0]@[q1].0 >= optimal@[k].payoffs@[0]
                    && game.payoffs@[q0]@[q1].1 >= optimal@[k].payoffs@[1] && (game.payoffs@[q0]@[q1].0 > optimal@[k].payoffs@[0] || game.payoffs@[q0]@[q1].1 > optimal@[k].payoffs@[1]))
            },
        forall|s0: int, s1: int|
                        #[trigger] game.is_profile(s0, s1) && (forall|q0: int, q1: int|
                0 <= q0 < game.n_strategies@[0] && 0 <= q1 < game.n_strategies@[1] ==> !(#[trigger] game.payoffs@[q0]@[q1].0 >= game.payoffs@[s0]@[s1].0
                    && game.payoffs@[q0]@[q1].1 >= game.payoffs@[s0]@[s1].1 && (game.payoffs@[q0]@[q1].0 > game.payoffs@[s0]@[s1].0 || game.payoffs@[q0]@[q1].1 > game.payoffs@[s0]@[s1].1)))
                ==> exists|k: int|
                0 <= k < optimal@.len() && (#[trigger] optimal@[k]).profile.strategies@[0] == s0
                    && optimal@[k].profile.strategies@[1] == s1,
        forall|i: int, j: int|
            0 <= i < j < optimal@.len() ==> (#[trigger] optimal@[i]).profile.strategies@[0]
                < (#[trigger] optimal@[j]).profile.strategies@[0] || (
            optimal@[i].profile.strategies@[0] == optimal@[j].profile.strategies@[0]
                && optimal@[i].profile.strategies@[1] < optimal@[j].profile.strategies@[1]),
{
    proof {
        lemma_lex_profiles(game.n_strategies@[0], game.n_strategies@[1]);
    }
    let all = all_outcomes(game);
    let ghost profiles = outcome_profiles(all@);
    let ghost po = |p: (usize, usize)| pareto_optimal(game, p);
    let mut optimal: Vec<Outcome> = Vec::new();
    for i in 0..all.len()
        invariant
            profiles == outcome_profiles(all@),
            profiles == game.profiles(),
            po == (|p: (usize, usize)| pareto_optimal(game, p)),
            forall|k: int|
                0 <= k < profiles.len() ==> (#[trigger] profiles[k]).0 < game.count(0)
                    && profiles[k].1 < game.count(1),
            forall|s0: usize, s1: usize|
                s0 < game.count(0) && s1 < game.count(1) ==> #[trigger] profiles.contains((s0, s1)),
            outcomes_carry_payoffs(game, all@),
            outcomes_carry_payoffs(game, optimal@),
            outcome_profiles(optimal@) == profiles.take(i as int).filter(po),
    {
        let mut dominated = false;
        for k in 0..all.len()
            invariant
                i < all@.len(),
                dominated == exists|q: int|
                    0 <= q < k && pareto_better(#[trigger] all@[q].payoffs@, all@[i as int].payoffs@),
        {
            if !dominated && pareto_dominates(&all[k].payoffs, &all[i].payoffs) {
                dominated = true;
            }
        }
        let ghost p = profiles[i as int];
        proof {
            assert(all@[i as int].payoffs@ == payoff_pair(game, p.0 as int, p.1 as int));
            if dominated {
                let q = choose|q: int|
                    0 <= q < all@.len() && pareto_better(#[trigger] all@[q].payoffs@, all@[i as int].payoffs@);
                assert(profiles[q].0 < game.count(0));
                assert(all@[q].payoffs@ == payoff_pair(game, profiles[q].0 as int, profiles[q].1 as int));
                assert(!po(p));
            } else {
                assert forall|q0: int, q1: int| game.is_profile(q0, q1) implies !pareto_better(
                    #[trigger] payoff_pair(game, q0, q1),
                    payoff_pair(game, p.0 as int, p.1 as int),
                ) by {
                    assert(profiles.contains((q0 as usize, q1 as usize)));
                    let q = choose|q: int| 0 <= q < profiles.len() && profiles[q] == (q0 as usize, q1 as usize);
                    assert(all@[q].payoffs@ == payoff_pair(game, q0, q1));
                }
                assert(po(p));
            }
            assert(profiles.take(i + 1) == profiles.take(i as int).push(p));
            profiles.take(i as int).lemma_filter_push(p, po);
        }
        if !dominated {
            let ghost before = optimal@;
            let s0 = all[i].profile.strategies[0];
            let s1 = all[i].profile.strategies[1];
            optimal.push(Outcome { profile: StrategyProfile::new(s0, s1), payoffs: all[i].payoffs });
            proof {
                assert(outcome_profiles(optimal@) == outcome_profiles(before).push(p));
                assert forall|k: int| 0 <= k < optimal@.len() implies (#[trigger] optimal@[k]).payoffs@
                    == payoff_pair(
                    game,
                    optimal@[k].profile.strategies@[0] as int,
                    optimal@[k].profile.strategies@[1] as int,
                ) by {
                    if k < before.len() {
                        assert(optimal@[k] == before[k]);
                    }
                }
            }
        }
    }
    proof {
        assert(profiles.take(profiles.len() as int) == profiles);
        lemma_optimal_list_direct(game, optimal@);
    }
    optimal
}

/// Find the outcome that maximizes the sum of payoffs (social welfare).
///
/// Among several outcomes of maximal welfare, the last one (in lexicographic
/// order of profiles) is returned; there is none when the game has no profile.
pub fn max_social_welfare(game: &NormalFormGame) -> (best: Option<Outcome>)
    requires
        game.well_formed(),
    ensures
        match best {
            None => game.count(0) == 0 || game.count(1) == 0,
            Some(o) => {
                let (b0, b1) = outcome_profile(o);
                &&& game.is_profile(b0 as int, b1 as int)
                &&& o.payoffs@ == payoff_pair(game, b0 as int, b1 as int)
                &&& forall|q0: usize, q1: usize|
                    game.is_profile(q0 as int, q1 as int) ==> #[trigger] welfare(game, q0 as int, q1 as int)
                        <= welfare(game, b0 as int, b1 as int)
                &&& forall|q0: usize, q1: usize|
                    game.is_profile(q0 as int, q1 as int) && lex_lt((b0, b1), (q0, q1))
                        ==> #[trigger] welfare(game, q0 as int, q1 as int) < welfare(game, b0 as int, b1 as int)
            },
        },
        best is None <==> (game.n_strategies@[0] == 0 || game.n_strategies@[1] == 0),
        best matches Some(o) ==> {
            let b0 = o.profile.strategies@[0] as int;
            let b1 = o.profile.strategies@[1] as int;
            &&& 0 <= b0 < game.n_strategies@[0]
            &&& 0 <= b1 < game.n_strategies@[1]
            &&& o.payoffs@[0] == game.payoffs@[b0]@[b1].0
            &&& o.payoffs@[1] == game.payoffs@[b0]@[b1].1
            &&& forall|q0: int, q1: int|
                0 <= q0 < game.n_strategies@[0] && 0 <= q1 < game.n_strategies@[1]
                    ==> #[trigger] game.payoffs@[q0]@[q1].0 + game.payoffs@[q0]@[q1].1 <= o.payoffs@[0]
                    + o.payoffs@[1]
            &&& forall|q0: int, q1: int|
                0 <= q0 < game.n_strategies@[0] && 0 <= q1 < game.n_strategies@[1] && (q0 > b0 || (q0
                    == b0 && q1 > b1)) ==> #[trigger] game.payoffs@[q0]@[q1].0 + game.payoffs@[q0]@[q1].1
                    < o.payoffs@[0] + o.payoffs@[1]
        },
{
    proof {
        lemma_lex_profiles(game.n_strategies@[0], game.n_strategies@[1]);
    }
    let all = all_outcomes(game);
    let ghost profiles = outcome_profiles(all@);
    let mut best_idx: Option<usize> = None;
    let mut best_sum: i128 = 0;
    for idx in 0..all.len()
        invariant
            profiles == outcome_profiles(all@),
            outcomes_carry_payoffs(game, all@),
            best_idx is None <==> idx == 0,
            best_idx matches Some(b) ==> {
                &&& b < idx
                &&& best_sum == all@[b as int].payoffs@[0] + all@[b as int].payoffs@[1]
                &&& forall|k: int|
                    0 <= k < idx ==> #[trigger] all@[k].payoffs@[0] + all@[k].payoffs@[1] <= best_sum
                &&& forall|k: int|
                    b < k < idx ==> #[trigger] all@[k].payoffs@[0] + all@[k].payoffs@[1] < best_sum
            },
    {
        let sum = all[idx].payoffs[0] as i128 + all[idx].payoffs[1] as i128;
        if best_idx.is_none() || sum >= best_sum {
            best_idx = Some(idx);
            best_sum = sum;
        }
    }
    match best_idx {
        None => {
            proof {
                let n0 = game.count(0) as int;
                let n1 = game.count(1) as int;
                assert(n0 * n1 == 0 ==> n0 == 0 || n1 == 0) by (nonlinear_arith);
            }
            None
        },
        Some(b) => {
            let s0 = all[b].profile.strategies[0];
            let s1 = all[b].profile.strategies[1];
            let o = Outcome { profile: StrategyProfile::new(s0, s1), payoffs: all[b].payoffs };
            proof {
                assert(profiles[b as int] == (s0, s1));
                assert forall|q0: usize, q1: usize| game.is_profile(q0 as int, q1 as int) implies #[trigger] welfare(
                    game,
                    q0 as int,
                    q1 as int,
                ) <= welfare(game, s0 as int, s1 as int) && (lex_lt((s0, s1), (q0, q1)) ==> welfare(
                    game,
                    q0 as int,
                    q1 as int,
                ) < welfare(game, s0 as int, s1 as int)) by {
                    assert(profiles.contains((q0, q1)));
                    let k = choose|k: int| 0 <= k < profiles.len() && profiles[k] == (q0, q1);
                    assert(all@[k].payoffs@ == payoff_pair(game, q0 as int, q1 as int));
                    assert(all@[b as int].payoffs@ == payoff_pair(game, s0 as int, s1 as int));
                    assert(all@[k].payoffs@[0] + all@[k].payoffs@[1] <= best_sum);
                    if lex_lt((s0, s1), (q0, q1)) {
                        if k < b {
                            assert(lex_lt(profiles[k], profiles[b as int]));
                        }
                        assert(k != b);
                        assert(all@[k].payoffs@[0] + all@[k].payoffs@[1] < best_sum);
                    }
                }
                assert(o.payoffs@ == payoff_pair(game, s0 as int, s1 as int));
                assert forall|q0: int, q1: int|
                    0 <= q0 < game.n_strategies@[0] && 0 <= q1 < game.n_strategies@[1] implies #[trigger] game.payoffs@[q0]@[q1].0
                        + game.payoffs@[q0]@[q1].1 <= o.payoffs@[0] + o.payoffs@[1] && ((q0 > s0 || (q0 == s0
                        && q1 > s1)) ==> game.payoffs@[q0]@[q1].0 + game.payoffs@[q0]@[q1].1 < o.payoffs@[0]
                        + o.payoffs@[1]) by {
                    assert(welfare(game, q0 as usize as int, q1 as usize as int) <= welfare(game, s0 as int, s1 as int));
                    if q0 > s0 || (q0 == s0 && q1 > s1) {
                        assert(lex_lt((s0, s1), (q0 as usize, q1 as usize)));
                        assert(welfare(game, q0 as usize as int, q1 as usize as int) < welfare(game, s0 as int, s1 as int));
                    }
                }
            }
            Some(o)
        },
    }
}

/// Compute the Pareto frontier: the set of payoff vectors that are Pareto optimal.
pub fn pareto_frontier(game: &NormalFormGame) -> (frontier: Vec<[Payoff; 2]>)
    requires
        game.well_formed(),
    ensures
        frontier@.len() == pareto_profiles(game).len(),
        forall|k: int|
            0 <= k < frontier@.len() ==> (#[trigger] frontier@[k])@ == payoff_pair(
                game,
                pareto_profiles(game)[k].0 as int,
                pareto_profiles(game)[k].1 as int,
            ),
        forall|k: int|
            0 <= k < frontier@.len() ==> (exists|s0: int, s1: int|
                #[trigger] game.is_profile(s0, s1) && (#[trigger] frontier@[k])@[0] == game.payoffs@[s0]@[s1].0
                    && frontier@[k]@[1] == game.payoffs@[s0]@[s1].1) && (forall|q0: int, q1: int|
                0 <= q0 < game.n_strategies@[0] && 0 <= q1 < game.n_strategies@[1] ==> !(#[trigger] game.payoffs@[q0]@[q1].0 >= frontier@[k]@[0]
                    && game.payoffs@[q0]@[q1].1 >= frontier@[k]@[1] && (game.payoffs@[q0]@[q1].0 > frontier@[k]@[0] || game.payoffs@[q0]@[q1].1 > frontier@[k]@[1]))),
        forall|s0: int, s1: int|
            #[trigger] game.is_profile(s0, s1) && (forall|q0: int, q1: int|
                0 <= q0 < game.n_strategies@[0] && 0 <= q1 < game.n_strategies@[1] ==> !(#[trigger] game.payoffs@[q0]@[q1].0 >= game.payoffs@[s0]@[s1].0
                    && game.payoffs@[q0]@[q1].1 >= game.payoffs@[s0]@[s1].1 && (game.payoffs@[q0]@[q1].0 > game.payoffs@[s0]@[s1].0 || game.payoffs@[q0]@[q1].1 > game.payoffs@[s0]@[s1].1)))
                ==> exists|k: int|
                0 <= k < frontier@.len() && (#[trigger] frontier@[k])@[0] == game.payoffs@[s0]@[s1].0
                    && frontier@[k]@[1] == game.payoffs@[s0]@[s1].1,
{
    let optimal = find_pareto_optimal(game);
    let mut frontier: Vec<[Payoff; 2]> = Vec::new();
    for i in 0..optimal.len()
        invariant
            outcome_profiles(optimal@) == pareto_profiles(game),
            outcomes_carry_payoffs(game, optimal@),
            frontier@.len() == i,
            forall|k: int|
                0 <= k < i ==> (#[trigger] frontier@[k])@ == optimal@[k].payoffs@,
    {
        frontier.push(optimal[i].payoffs);
    }
    proof {
        assert forall|k: int| 0 <= k < frontier@.len() implies (#[trigger] frontier@[k])@ == payoff_pair(
            game,
            pareto_profiles(game)[k].0 as int,
            pareto_profiles(game)[k].1 as int,
        ) by {
            assert(outcome_profiles(optimal@)[k] == outcome_profile(optimal@[k]));
        }
        assert forall|k: int|
            0 <= k < frontier@.len() implies (exists|s0: int, s1: int|
                #[trigger] game.is_profile(s0, s1) && (#[trigger] frontier@[k])@[0] == game.payoffs@[s0]@[s1].0
                    && frontier@[k]@[1] == game.payoffs@[s0]@[s1].1) && (forall|q0: int, q1: int|
                0 <= q0 < game.n_strategies@[0] && 0 <= q1 < game.n_strategies@[1] ==> !(#[trigger] game.payoffs@[q0]@[q1].0 >= frontier@[k]@[0]
                    && game.payoffs@[q0]@[q1].1 >= frontier@[k]@[1] && (game.payoffs@[q0]@[q1].0 > frontier@[k]@[0] || game.payoffs@[q0]@[q1].1 > frontier@[k]@[1]))) by {
            let s0 = optimal@[k].profile.strategies@[0] as int;
            let s1 = optimal@[k].profile.strategies@[1] as int;
            assert(game.is_profile(s0, s1));
        }
        assert forall|s0: int, s1: int|
            #[trigger] game.is_profile(s0, s1) && (forall|q0: int, q1: int|
                0 <= q0 < game.n_strategies@[0] && 0 <= q1 < game.n_strategies@[1] ==> !(#[trigger] game.payoffs@[q0]@[q1].0 >= game.payoffs@[s0]@[s1].0
                    && game.payoffs@[q0]@[q1].1 >= game.payoffs@[s0]@[s1].1 && (game.payoffs@[q0]@[q1].0 > game.payoffs@[s0]@[s1].0 || game.payoffs@[q0]@[q1].1 > game.payoffs@[s0]@[s1].1)))
                implies exists|k: int|
                0 <= k < frontier@.len() && (#[trigger] frontier@[k])@[0] == game.payoffs@[s0]@[s1].0
                    && frontier@[k]@[1] == game.payoffs@[s0]@[s1].1 by {
            let k = choose|k: int|
                0 <= k < optimal@.len() && (#[trigger] optimal@[k]).profile.strategies@[0] == s0
                    && optimal@[k].profile.strategies@[1] == s1;
            assert(frontier@[k]@ == optimal@[k].payoffs@);
        }
    }
    frontier
}

/// Pareto dominance between payoff vectors: no player is worse off, and
/// dominance holds exactly when in addition some player is strictly better off.
pub proof fn lemma_pareto_better_direct(a: Seq<Payoff>, b: Seq<Payoff>)
    ensures
        pareto_better(a, b) ==> a[0] >= b[0] && a[1] >= b[1],
        pareto_better(a, b) <==> (a[0] >= b[0] && a[1] >= b[1] && (a[0] > b[0] || a[1] > b[1])),
{
}

/// Social welfare is the plain sum of the two payoffs of a profile.
pub proof fn lemma_welfare_is_payoff_sum(g: &NormalFormGame)
    ensures
        forall|s0: int, s1: int|
            #[trigger] welfare(g, s0, s1) == g.payoffs@[s0]@[s1].0 + g.payoffs@[s0]@[s1].1,
{
}

/// Pareto dominance is a strict partial order: no payoff vector dominates
/// itself, two vectors never dominate each other, and dominance is transitive.
pub proof fn lemma_pareto_better_strict_order(a: Seq<Payoff>, b: Seq<Payoff>, c: Seq<Payoff>)
    ensures
        !pareto_better(a, a),
        pareto_better(a, b) ==> !pareto_better(b, a),
        pareto_better(a, b) && pareto_better(b, c) ==> pareto_better(a, c),
{
}

/// A Pareto improvement strictly raises the sum of the payoffs.
pub proof fn lemma_pareto_better_raises_welfare(a: Seq<Payoff>, b: Seq<Payoff>)
    ensures
        pareto_better(a, b) ==> a[0] + a[1] > b[0] + b[1],
{
}

/// An outcome of maximal social welfare is Pareto optimal.
pub proof fn lemma_max_welfare_pareto_optimal(g: &NormalFormGame, s0: usize, s1: usize)
    requires
        forall|q0: usize, q1: usize|
            g.is_profile(q0 as int, q1 as int) ==> #[trigger] welfare(g, q0 as int, q1 as int) <= welfare(
                g,
                s0 as int,
                s1 as int,
            ),
    ensures
        pareto_optimal(g, (s0, s1)),
{
    assert forall|q0: int, q1: int| g.is_profile(q0, q1) implies !pareto_better(
        #[trigger] payoff_pair(g, q0, q1),
        payoff_pair(g, s0 as int, s1 as int),
    ) by {
        assert(welfare(g, q0 as usize as int, q1 as usize as int) <= welfare(g, s0 as int, s1 as int));
    }
}

/// Every game with at least one profile has a Pareto optimal profile.
pub proof fn lemma_pareto_optimal_exists(g: &NormalFormGame)
    requires
        g.count(0) > 0,
        g.count(1) > 0,
    ensures
        pareto_profiles(g).len() > 0,
{
    let n0 = g.n_strategies@[0];
    let n1 = g.n_strategies@[1];
    lemma_lex_profiles(n0, n1);
    let ps = g.profiles();
    assert(n0 * n1 > 0) by (nonlinear_arith)
        requires
            n0 > 0,
            n1 > 0,
    ;
    let f = |p: (usize, usize)| welfare(g, p.0 as int, p.1 as int);
    let k = lemma_argmax(ps, f);
    let best = ps[k];
    assert forall|q0: usize, q1: usize| g.is_profile(q0 as int, q1 as int) implies #[trigger] welfare(
        g,
        q0 as int,
        q1 as int,
    ) <= welfare(g, best.0 as int, best.1 as int) by {
        assert(ps.contains((q0, q1)));
        let j = choose|j: int| 0 <= j < ps.len() && ps[j] == (q0, q1);
        assert(f(ps[j]) <= f(best));
    }
    lemma_max_welfare_pareto_optimal(g, best.0, best.1);
    assert(ps.contains(best));
    lemma_filter_contains_iff(ps, |p: (usize, usize)| pareto_optimal(g, p), best);
}

/// The Pareto optimal profiles are listed in strictly increasing
/// lexicographic order, and a profile of the game is listed exactly when no
/// profile Pareto dominates it.
pub proof fn lemma_pareto_profiles_exact(g: &NormalFormGame)
    ensures
        lex_sorted(pareto_profiles(g)),
        forall|s0: usize, s1: usize|
            #[trigger] pareto_profiles(g).contains((s0, s1)) <==> (g.is_profile(s0 as int, s1 as int)
                && pareto_optimal(g, (s0, s1))),
{
    lemma_profiles_filter(
        g.n_strategies@[0],
        g.n_strategies@[1],
        |p: (usize, usize)| pareto_optimal(g, p),
    );
}

} // verus!
