//! Nash equilibrium computation for normal-form games.

use vstd::prelude::*;

use crate::dominance::{
    all_below, strictly_better, strictly_dominant, dominated_within, iesds, iesds_from, iesds_survivors, lemma_undominated_within,
    undominated,
};
use crate::game::{lemma_lex_profiles, lemma_profiles_filter, lex_sorted, NormalFormGame, Payoff, PlayerIdx, StrategyIdx};
use crate::seqs::{
    increasing, index_range, lemma_filter_contains_iff, lemma_filter_keeps_all,
    lemma_index_range_contains, lemma_index_range_increasing, vec_contains,
};
use crate::strategy::{best_replies, best_reply, best_responses, StrategyProfile};

verus! {

/// A pure-strategy Nash equilibrium.
#[derive(Clone, Debug)]
pub struct NashEquilibrium {
    pub profile: StrategyProfile,
    pub payoffs: [Payoff; 2],
}

/// The profile `(s0, s1)` of an equilibrium.
pub open spec fn equilibrium_profile(e: NashEquilibrium) -> (usize, usize) {
    (e.profile.strategies@[0], e.profile.strategies@[1])
}

/// `(s0, s1)` is a pure-strategy Nash equilibrium: a profile of the game in
/// which each player's strategy is a best response to the other's.
pub open spec fn is_pure_nash(g: &NormalFormGame, s0: usize, s1: usize) -> bool {
    &&& g.is_profile(s0 as int, s1 as int)
    &&& best_reply(g, 0, s0, s1 as int)
    &&& best_reply(g, 1, s1, s0 as int)
}

/// The pure-strategy Nash equilibria of the game, in lexicographic order.
pub open spec fn nash_profiles(g: &NormalFormGame) -> Seq<(usize, usize)> {
    g.profiles().filter(|p: (usize, usize)| is_pure_nash(g, p.0, p.1))
}

/// Every equilibrium in `es` carries the payoffs of its profile.
pub open spec fn carries_payoffs(g: &NormalFormGame, es: Seq<NashEquilibrium>) -> bool {
    forall|k: int|
        0 <= k < es.len() ==> (#[trigger] es[k]).payoffs@ == seq![
            g.entry(es[k].profile.strategies@[0] as int, es[k].profile.strategies@[1] as int).0,
            g.entry(es[k].profile.strategies@[0] as int, es[k].profile.strategies@[1] as int).1,
        ]
}

/// The profiles of a list of equilibria.
pub open spec fn equilibrium_profiles(es: Seq<NashEquilibrium>) -> Seq<(usize, usize)> {
    es.map_values(|e: NashEquilibrium| equilibrium_profile(e))
}

/// A list of equilibria that lists exactly the pure-strategy Nash equilibria,
/// each with its payoffs, states them directly in terms of the matrix: every
/// listed profile is one in which neither player can earn more by changing
/// strategy alone, every such profile is listed, and the list is in
/// lexicographic order.
pub proof fn lemma_equilibria_direct(game: &NormalFormGame, es: Seq<NashEquilibrium>)
    requires
        equilibrium_profiles(es) == nash_profiles(game),
        carries_payoffs(game, es),
    ensures
        forall|k: int|
            0 <= k < es.len() ==> {
                let s0 = (#[trigger] es[k]).profile.strategies@[0] as int;
                let s1 = es[k].profile.strategies@[1] as int;
                &&& 0 <= s0 < game.n_strategies@[0]
                &&& 0 <= s1 < game.n_strategies@[1]
                &&& es[k].payoffs@[0] == game.payoffs@[s0]@[s1].0
                &&& es[k].payoffs@[1] == game.payoffs@[s0]@[s1].1
                &&& (forall|t: int| 0 <= t < game.n_strategies@[0] ==> #[trigger] game.payoff_vs(0, t, s1) <= game.payoff_vs(0, s0, s1))
                && (forall|t: int| 0 <= t < game.n_strategies@[1] ==> #[trigger] game.payoff_vs(1, t, s0) <= game.payoff_vs(1, s1, s0))
            },
        forall|s0: int, s1: int|
            #[trigger] game.is_profile(s0, s1) && (forall|t: int| 0 <= t < game.n_strategies@[0] ==> #[trigger] game.payoff_vs(0, t, s1) <= game.payoff_vs(0, s0, s1))
                && (forall|t: int| 0 <= t < game.n_strategies@[1] ==> #[trigger] game.payoff_vs(1, t, s0) <= game.payoff_vs(1, s1, s0)) ==> exists|k: int|
                0 <= k < es.len() && (#[trigger] es[k]).profile.strategies@[0] == s0
                    && es[k].profile.strategies@[1] == s1,
        forall|i: int, j: int|
            0 <= i < j < es.len() ==> (#[trigger] es[i]).profile.strategies@[0]
                < (#[trigger] es[j]).profile.strategies@[0] || (es[i].profile.strategies@[0]
                == es[j].profile.strategies@[0] && es[i].profile.strategies@[1] < es[j].profile.strategies@[1]),
{
    let np = nash_profiles(game);
    lemma_nash_profiles_exact(game);
    game.lemma_payoffs_read_matrix();
    assert forall|k: int| 0 <= k < es.len() implies ({
        let s0 = (#[trigger] es[k]).profile.strategies@[0] as int;
        let s1 = es[k].profile.strategies@[1] as int;
        &&& 0 <= s0 < game.n_strategies@[0]
        &&& 0 <= s1 < game.n_strategies@[1]
        &&& es[k].payoffs@[0] == game.payoffs@[s0]@[s1].0
        &&& es[k].payoffs@[1] == game.payoffs@[s0]@[s1].1
        &&& (forall|t: int| 0 <= t < game.n_strategies@[0] ==> #[trigger] game.payoff_vs(0, t, s1) <= game.payoff_vs(0, s0, s1))
                && (forall|t: int| 0 <= t < game.n_strategies@[1] ==> #[trigger] game.payoff_vs(1, t, s0) <= game.payoff_vs(1, s1, s0))
    }) by {
        assert(equilibrium_profiles(es)[k] == equilibrium_profile(es[k]));
        assert(np.contains(np[k]));
    }
    assert forall|s0: int, s1: int|
        #[trigger] game.is_profile(s0, s1) && (forall|t: int| 0 <= t < game.n_strategies@[0] ==> #[trigger] game.payoff_vs(0, t, s1) <= game.payoff_vs(0, s0, s1))
                && (forall|t: int| 0 <= t < game.n_strategies@[1] ==> #[trigger] game.payoff_vs(1, t, s0) <= game.payoff_vs(1, s1, s0)) implies exists|k: int|
            0 <= k < es.len() && (#[trigger] es[k]).profile.strategies@[0] == s0
                && es[k].profile.strategies@[1] == s1 by {
        assert(is_pure_nash(game, s0 as usize, s1 as usize));
        assert(np.contains((s0 as usize, s1 as usize)));
        let k = choose|k: int| 0 <= k < np.len() && np[k] == (s0 as usize, s1 as usize);
        assert(equilibrium_profiles(es)[k] == equilibrium_profile(es[k]));
    }
    assert forall|i: int, j: int| 0 <= i < j < es.len() implies (#[trigger] es[i]).profile.strategies@[0]
        < (#[trigger] es[j]).profile.strategies@[0] || (es[i].profile.strategies@[0]
        == es[j].profile.strategies@[0] && es[i].profile.strategies@[1] < es[j].profile.strategies@[1]) by {
        assert(equilibrium_profiles(es)[i] == equilibrium_profile(es[i]));
        assert(equilibrium_profiles(es)[j] == equilibrium_profile(es[j]));
        assert(crate::game::lex_lt(np[i], np[j]));
    }
}

/// Find all pure-strategy Nash equilibria of a 2-player normal-form game.
///
/// A strategy profile is a Nash equilibrium if each player's strategy
/// is a best response to the other player's strategy.
pub fn find_pure_nash(game: &NormalFormGame) -> (equilibria: Vec<NashEquilibrium>)
    requires
        game.well_formed(),
    ensures
        equilibrium_profiles(equilibria@) == nash_profiles(game),
        carries_payoffs(game, equilibria@),
        forall|k: int|
            0 <= k < equilibria@.len() ==> {
                let s0 = (#[trigger] equilibria@[k]).profile.strategies@[0] as int;
                let s1 = equilibria@[k].profile.strategies@[1] as int;
                &&& 0 <= s0 < game.n_strategies@[0]
                &&& 0 <= s1 < game.n_strategies@[1]
                &&& equilibria@[k].payoffs@[0] == game.payoffs@[s0]@[s1].0
                &&& equilibria@[k].payoffs@[1] == game.payoffs@[s0]@[s1].1
                &&& (forall|t: int| 0 <= t < game.n_strategies@[0] ==> #[trigger] game.payoff_vs(0, t, s1) <= game.payoff_vs(0, s0, s1))
                && (forall|t: int| 0 <= t < game.n_strategies@[1] ==> #[trigger] game.payoff_vs(1, t, s0) <= game.payoff_vs(1, s1, s0))
            },
        forall|s0: int, s1: int|
            #[trigger] game.is_profile(s0, s1) && (forall|t: int| 0 <= t < game.n_strategies@[0] ==> #[trigger] game.payoff_vs(0, t, s1) <= game.payoff_vs(0, s0, s1))
                && (forall|t: int| 0 <= t < game.n_strategies@[1] ==> #[trigger] game.payoff_vs(1, t, s0) <= game.payoff_vs(1, s1, s0)) ==> exists|k: int|
                0 <= k < equilibria@.len() && (#[trigger] equilibria@[k]).profile.strategies@[0] == s0
                    && equilibria@[k].profile.strategies@[1] == s1,
        forall|i: int, j: int|
            0 <= i < j < equilibria@.len() ==> (#[trigger] equilibria@[i]).profile.strategies@[0]
                < (#[trigger] equilibria@[j]).profile.strategies@[0] || (equilibria@[i].profile.strategies@[0]
                == equilibria@[j].profile.strategies@[0] && equilibria@[i].profile.strategies@[1] < equilibria@[j].profile.strategies@[1]),
{
    proof {
        game.lemma_well_formed_readable();
        lemma_lex_profiles(game.n_strategies@[0], game.n_strategies@[1]);
    }
    let ghost is_ne = |p: (usize, usize)| is_pure_nash(game, p.0, p.1);
    let mut equilibria: Vec<NashEquilibrium> = Vec::new();
    let profiles = game.all_profiles();
    for idx in 0..profiles.len()
        invariant
            game.well_formed(),
            profiles@ == game.profiles(),
            is_ne == (|p: (usize, usize)| is_pure_nash(game, p.0, p.1)),
            forall|k: int|
                0 <= k < profiles@.len() ==> (#[trigger] profiles@[k]).0 < game.count(0)
                    && profiles@[k].1 < game.count(1),
            forall|p: int, o: int|
                0 <= p < 2 && 0 <= o < game.count(1 - p) ==> #[trigger] game.readable_against(p, o),
            equilibrium_profiles(equilibria@) == profiles@.take(idx as int).filter(is_ne),
            carries_payoffs(game, equilibria@),
    {
        let (s0, s1) = profiles[idx];
        assert(profiles@[idx as int].0 < game.count(0));
        assert(game.readable_against(0, s1 as int));
        assert(game.readable_against(1, s0 as int));
        let br0 = best_responses_for(game, 0, s1);
        let br1 = best_responses_for(game, 1, s0);
        proof {
            lemma_index_range_contains(game.n_strategies@[0], s0);
            lemma_index_range_contains(game.n_strategies@[1], s1);
            lemma_filter_contains_iff(
                index_range(game.n_strategies@[0]),
                |s: usize| best_reply(game, 0, s, s1 as int),
                s0,
            );
            lemma_filter_contains_iff(
                index_range(game.n_strategies@[1]),
                |s: usize| best_reply(game, 1, s, s0 as int),
                s1,
            );
            assert(profiles@.take(idx + 1) == profiles@.take(idx as int).push((s0, s1)));
            profiles@.take(idx as int).lemma_filter_push((s0, s1), is_ne);
        }
        if vec_contains(&br0, s0) && vec_contains(&br1, s1) {
            assert(game.has_entry(s0 as int, s1 as int));
            let (p0, p1) = game.get_payoff(s0, s1);
            let ghost before = equilibria@;
            equilibria.push(NashEquilibrium { profile: StrategyProfile::new(s0, s1), payoffs: [p0, p1] });
            proof {
                assert(equilibrium_profiles(equilibria@) == equilibrium_profiles(before).push((s0, s1)));
                assert forall|k: int| 0 <= k < equilibria@.len() implies (#[trigger] equilibria@[k]).payoffs@ == seq![
                    game.entry(equilibria@[k].profile.strategies@[0] as int, equilibria@[k].profile.strategies@[1] as int).0,
                    game.entry(equilibria@[k].profile.strategies@[0] as int, equilibria@[k].profile.strategies@[1] as int).1,
                ] by {
                    if k < before.len() {
                        assert(equilibria@[k] == before[k]);
                    }
                }
            }
        }
    }
    proof {
        assert(profiles@.take(profiles@.len() as int) == profiles@);
        lemma_equilibria_direct(game, equilibria@);
    }
    equilibria
}

/// Find best responses for a player given the opponent's strategy.
fn best_responses_for(
    game: &NormalFormGame,
    player: PlayerIdx,
    opponent_strategy: StrategyIdx,
) -> (best: Vec<StrategyIdx>)
    requires
        player < 2,
        game.readable_against(player as int, opponent_strategy as int),
    ensures
        best@ == best_replies(game, player as int, opponent_strategy as int),
{
    best_responses(game, player, opponent_strategy)
}

/// Check if a given strategy profile is a Nash equilibrium.
pub fn is_nash_equilibrium(game: &NormalFormGame, s0: StrategyIdx, s1: StrategyIdx) -> (r: bool)
    requires
        game.readable_against(0, s1 as int),
        game.readable_against(1, s0 as int),
    ensures
        r == is_pure_nash(game, s0, s1),
        r == (s0 < game.n_strategies@[0] && s1 < game.n_strategies@[1] && (forall|t: int| 0 <= t < game.n_strategies@[0] ==> #[trigger] game.payoff_vs(0, t, s1 as int) <= game.payoff_vs(0, s0 as int, s1 as int))
                && (forall|t: int| 0 <= t < game.n_strategies@[1] ==> #[trigger] game.payoff_vs(1, t, s0 as int) <= game.payoff_vs(1, s1 as int, s0 as int))),
{
    let br0 = best_responses_for(game, 0, s1);
    let br1 = best_responses_for(game, 1, s0);
    proof {
        lemma_index_range_contains(game.n_strategies@[0], s0);
        lemma_index_range_contains(game.n_strategies@[1], s1);
        lemma_filter_contains_iff(
            index_range(game.n_strategies@[0]),
            |s: usize| best_reply(game, 0, s, s1 as int),
            s0,
        );
        lemma_filter_contains_iff(
            index_range(game.n_strategies@[1]),
            |s: usize| best_reply(game, 1, s, s0 as int),
            s1,
        );
    }
    vec_contains(&br0, s0) && vec_contains(&br1, s1)
}

/// Both strategies of `p` survive iterated elimination of strictly
/// dominated strategies.
pub open spec fn survives_iesds(g: &NormalFormGame, p: (usize, usize)) -> bool {
    iesds_survivors(g).0.contains(p.0) && iesds_survivors(g).1.contains(p.1)
}

/// An equilibrium's strategies are never strictly dominated within sets
/// that hold them, so elimination from such sets keeps them.
proof fn lemma_nash_survives_from(
    g: &NormalFormGame,
    t0: Seq<usize>,
    t1: Seq<usize>,
    s0: usize,
    s1: usize,
)
    requires
        is_pure_nash(g, s0, s1),
        all_below(t0, g.count(0)),
        all_below(t1, g.count(1)),
        increasing(t0),
        increasing(t1),
        t0.contains(s0),
        t1.contains(s1),
    ensures
        iesds_from(g, t0, t1).0.contains(s0),
        iesds_from(g, t0, t1).1.contains(s1),
    decreases t0.len() + t1.len(),
{
    let u0 = undominated(g, 0, t0, t1);
    let keep0 = |c: usize| !dominated_within(g, 0, c, t0, t1);
    if dominated_within(g, 0, s0, t0, t1) {
        let k = choose|k: int|
            0 <= k < t0.len() && t0[k] != s0 && #[trigger] crate::dominance::beats_on(
                g,
                0,
                t0[k] as int,
                s0 as int,
                t1,
            );
        let j = choose|j: int| 0 <= j < t1.len() && t1[j] == s1;
        assert(t0[k] < g.count(0));
        assert(g.payoff_vs(0, t0[k] as int, t1[j] as int) > g.payoff_vs(0, s0 as int, t1[j] as int));
        assert(false);
    }
    lemma_filter_contains_iff(t0, keep0, s0);
    lemma_undominated_within(g, 0, t0, t1, g.count(0));
    let u1 = undominated(g, 1, t1, u0);
    let keep1 = |c: usize| !dominated_within(g, 1, c, t1, u0);
    if dominated_within(g, 1, s1, t1, u0) {
        let k = choose|k: int|
            0 <= k < t1.len() && t1[k] != s1 && #[trigger] crate::dominance::beats_on(
                g,
                1,
                t1[k] as int,
                s1 as int,
                u0,
            );
        let j = choose|j: int| 0 <= j < u0.len() && u0[j] == s0;
        assert(t1[k] < g.count(1));
        assert(g.payoff_vs(1, t1[k] as int, u0[j] as int) > g.payoff_vs(1, s1 as int, u0[j] as int));
        assert(false);
    }
    lemma_filter_contains_iff(t1, keep1, s1);
    lemma_undominated_within(g, 1, t1, u0, g.count(1));
    if u0.len() + u1.len() < t0.len() + t1.len() {
        lemma_nash_survives_from(g, u0, u1, s0, s1);
    }
}

/// Iterated elimination of strictly dominated strategies never removes a
/// strategy of a pure-strategy Nash equilibrium.
pub proof fn lemma_nash_survives_iesds(g: &NormalFormGame, s0: usize, s1: usize)
    requires
        is_pure_nash(g, s0, s1),
    ensures
        survives_iesds(g, (s0, s1)),
{
    let n0 = g.n_strategies@[0];
    let n1 = g.n_strategies@[1];
    lemma_index_range_increasing(n0);
    lemma_index_range_increasing(n1);
    lemma_index_range_contains(n0, s0);
    lemma_index_range_contains(n1, s1);
    lemma_nash_survives_from(g, index_range(n0), index_range(n1), s0, s1);
}

/// Filtering the pure-strategy Nash equilibria by survival of IESDS keeps
/// all of them.
pub proof fn lemma_nash_surviving_iesds_all(g: &NormalFormGame)
    ensures
        nash_profiles(g).filter(|p: (usize, usize)| survives_iesds(g, p)) == nash_profiles(g),
{
    let ne = |p: (usize, usize)| is_pure_nash(g, p.0, p.1);
    let surv = |p: (usize, usize)| survives_iesds(g, p);
    assert forall|i: int| 0 <= i < nash_profiles(g).len() implies surv(#[trigger] nash_profiles(g)[i]) by {
        g.profiles().lemma_filter_pred(ne, i);
        lemma_nash_survives_iesds(g, nash_profiles(g)[i].0, nash_profiles(g)[i].1);
    }
    lemma_filter_keeps_all(nash_profiles(g), surv);
}

/// Find Nash equilibria that survive IESDS.
///
/// These are the equilibria whose strategies survive iterated elimination
/// of strictly dominated strategies; as no equilibrium strategy is ever
/// eliminated, these are all pure-strategy Nash equilibria.
pub fn nash_surviving_iesds(game: &NormalFormGame) -> (result: Vec<NashEquilibrium>)
    requires
        game.well_formed(),
    ensures
        equilibrium_profiles(result@) == nash_profiles(game).filter(
            |p: (usize, usize)| survives_iesds(game, p),
        ),
        equilibrium_profiles(result@) == nash_profiles(game),
        carries_payoffs(game, result@),
        forall|k: int|
            0 <= k < result@.len() ==> {
                let s0 = (#[trigger] result@[k]).profile.strategies@[0] as int;
                let s1 = result@[k].profile.strategies@[1] as int;
                &&& 0 <= s0 < game.n_strategies@[0]
                &&& 0 <= s1 < game.n_strategies@[1]
                &&& result@[k].payoffs@[0] == game.payoffs@[s0]@[s1].0
                &&& result@[k].payoffs@[1] == game.payoffs@[s0]@[s1].1
                &&& (forall|t: int| 0 <= t < game.n_strategies@[0] ==> #[trigger] game.payoff_vs(0, t, s1) <= game.payoff_vs(0, s0, s1))
                && (forall|t: int| 0 <= t < game.n_strategies@[1] ==> #[trigger] game.payoff_vs(1, t, s0) <= game.payoff_vs(1, s1, s0))
            },
        forall|s0: int, s1: int|
            #[trigger] game.is_profile(s0, s1) && (forall|t: int| 0 <= t < game.n_strategies@[0] ==> #[trigger] game.payoff_vs(0, t, s1) <= game.payoff_vs(0, s0, s1))
                && (forall|t: int| 0 <= t < game.n_strategies@[1] ==> #[trigger] game.payoff_vs(1, t, s0) <= game.payoff_vs(1, s1, s0)) ==> exists|k: int|
                0 <= k < result@.len() && (#[trigger] result@[k]).profile.strategies@[0] == s0
                    && result@[k].profile.strategies@[1] == s1,
        forall|i: int, j: int|
            0 <= i < j < result@.len() ==> (#[trigger] result@[i]).profile.strategies@[0]
                < (#[trigger] result@[j]).profile.strategies@[0] || (result@[i].profile.strategies@[0]
                == result@[j].profile.strategies@[0] && result@[i].profile.strategies@[1] < result@[j].profile.strategies@[1]),
{
    let surviving = iesds(game);
    let all_nash = find_pure_nash(game);
    let ghost surv = |p: (usize, usize)| survives_iesds(game, p);
    let ghost all_profiles = equilibrium_profiles(all_nash@);
    let mut result: Vec<NashEquilibrium> = Vec::new();
    for i in 0..all_nash.len()
        invariant
            all_profiles == equilibrium_profiles(all_nash@),
            all_profiles == nash_profiles(game),
            surviving@[0]@ == iesds_survivors(game).0,
            surviving@[1]@ == iesds_survivors(game).1,
            surv == (|p: (usize, usize)| survives_iesds(game, p)),
            carries_payoffs(game, all_nash@),
            carries_payoffs(game, result@),
            equilibrium_profiles(result@) == all_profiles.take(i as int).filter(surv),
    {
        let s0 = all_nash[i].profile.strategies[0];
        let s1 = all_nash[i].profile.strategies[1];
        let payoffs = all_nash[i].payoffs;
        proof {
            assert(all_profiles[i as int] == (s0, s1));
            assert(all_profiles.take(i + 1) == all_profiles.take(i as int).push((s0, s1)));
            all_profiles.take(i as int).lemma_filter_push((s0, s1), surv);
        }
        if vec_contains(&surviving[0], s0) && vec_contains(&surviving[1], s1) {
            let ghost before = result@;
            result.push(NashEquilibrium { profile: StrategyProfile::new(s0, s1), payoffs });
            proof {
                assert(equilibrium_profiles(result@) == equilibrium_profiles(before).push((s0, s1)));
                assert(all_nash@[i as int].payoffs@ == payoffs@);
                assert forall|k: int| 0 <= k < result@.len() implies (#[trigger] result@[k]).payoffs@ == seq![
                    game.entry(result@[k].profile.strategies@[0] as int, result@[k].profile.strategies@[1] as int).0,
                    game.entry(result@[k].profile.strategies@[0] as int, result@[k].profile.strategies@[1] as int).1,
                ] by {
                    if k < before.len() {
                        assert(result@[k] == before[k]);
                    }
                }
            }
        }
    }
    proof {
        assert(all_profiles.take(all_profiles.len() as int) == all_profiles);
        lemma_nash_surviving_iesds_all(game);
        lemma_equilibria_direct(game, result@);
    }
    result
}

/// When both players have a strictly dominant strategy, the pair of those
/// strategies is the one and only pure-strategy Nash equilibrium.
pub proof fn lemma_dominant_strategies_unique_nash(g: &NormalFormGame, c0: usize, c1: usize)
    requires
        c0 < g.count(0),
        c1 < g.count(1),
        strictly_dominant(g, 0, c0 as int),
        strictly_dominant(g, 1, c1 as int),
    ensures
        forall|s0: usize, s1: usize| #[trigger] is_pure_nash(g, s0, s1) <==> (s0 == c0 && s1 == c1),
{
    assert forall|t: int| 0 <= t < g.count(0) implies g.payoff_vs(0, t, c1 as int) <= g.payoff_vs(
        0,
        c0 as int,
        c1 as int,
    ) by {
        if t != c0 {
            assert(strictly_better(g, 0, c0 as int, t));
        }
    }
    assert forall|t: int| 0 <= t < g.count(1) implies g.payoff_vs(1, t, c0 as int) <= g.payoff_vs(
        1,
        c1 as int,
        c0 as int,
    ) by {
        if t != c1 {
            assert(strictly_better(g, 1, c1 as int, t));
        }
    }
    assert(is_pure_nash(g, c0, c1));
    assert forall|s0: usize, s1: usize| #[trigger] is_pure_nash(g, s0, s1) implies (s0 == c0 && s1 == c1) by {
        if s0 != c0 {
            assert(strictly_better(g, 0, c0 as int, s0 as int));
            assert(g.payoff_vs(0, c0 as int, s1 as int) > g.payoff_vs(0, s0 as int, s1 as int));
        }
        if s1 != c1 {
            assert(strictly_better(g, 1, c1 as int, s1 as int));
            assert(g.payoff_vs(1, c1 as int, s0 as int) > g.payoff_vs(1, s1 as int, s0 as int));
        }
    }
}

/// The equilibria that `find_pure_nash` reports are listed in strictly
/// increasing lexicographic order, and a profile is listed exactly when it
/// is a pure-strategy Nash equilibrium.
pub proof fn lemma_nash_profiles_exact(g: &NormalFormGame)
    ensures
        lex_sorted(nash_profiles(g)),
        forall|s0: usize, s1: usize| #[trigger] nash_profiles(g).contains((s0, s1)) <==> is_pure_nash(g, s0, s1),
{
    lemma_profiles_filter(
        g.n_strategies@[0],
        g.n_strategies@[1],
        |p: (usize, usize)| is_pure_nash(g, p.0, p.1),
    );
}

} // verus!
