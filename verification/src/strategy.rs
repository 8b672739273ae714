//! Strategy profiles and payoff extraction.

use vstd::prelude::*;

use crate::game::{NormalFormGame, Payoff, PlayerIdx, StrategyIdx};
use crate::seqs::{
    increasing, index_range, lemma_argmax, lemma_filter_increasing, lemma_index_range_increasing, lemma_filter_contains_iff, lemma_filter_ext, lemma_filter_none,
    lemma_index_range_contains, vec_contains,
};

verus! {

/// A pure strategy profile for a 2-player game.
#[derive(Clone, Debug, PartialEq, Eq)]
pub struct StrategyProfile {
    pub strategies: [usize; 2],
}

impl StrategyProfile {
    /// Create a new strategy profile.
    pub fn new(s0: usize, s1: usize) -> (p: Self)
        ensures
            p.strategies@ == seq![s0, s1],
    {
        Self { strategies: [s0, s1] }
    }

    /// Get the strategy for a player.
    pub fn strategy(&self, player: usize) -> (s: usize)
        requires
            player < 2,
        ensures
            s == self.strategies@[player as int],
    {
        self.strategies[player]
    }
}

/// Strategy `t` of `player` earns, against the opponent's `o`, at least what
/// each of the strategies `0, ..., k - 1` earns.
pub open spec fn at_least_first(g: &NormalFormGame, player: int, o: int, k: int, t: usize) -> bool {
    forall|u: int| 0 <= u < k ==> g.payoff_vs(player, u, o) <= g.payoff_vs(player, t as int, o)
}

/// Strategy `s` is a best response of `player` to the opponent's `o`: no
/// strategy of `player` earns more against `o`.
pub open spec fn best_reply(g: &NormalFormGame, player: int, s: usize, o: int) -> bool {
    at_least_first(g, player, o, g.count(player) as int, s)
}

/// The best responses of `player` to `o`, in increasing order.
pub open spec fn best_replies(g: &NormalFormGame, player: int, o: int) -> Seq<usize> {
    index_range(g.n_strategies@[player]).filter(|s: usize| best_reply(g, player, s, o))
}

/// The best responses of `player` to `o` are exactly its strategies that no
/// other strategy of its own out-earns against `o`, in increasing order.
pub proof fn lemma_best_replies_direct(g: &NormalFormGame, player: int, o: int)
    ensures
        forall|k: int|
            0 <= k < best_replies(g, player, o).len() ==> (#[trigger] best_replies(g, player, o)[k])
                < g.n_strategies@[player] && forall|t: int|
                0 <= t < g.n_strategies@[player] ==> #[trigger] g.payoff_vs(player, t, o) <= g.payoff_vs(
                    player,
                    best_replies(g, player, o)[k] as int,
                    o,
                ),
        forall|s: usize|
            s < g.n_strategies@[player] && (forall|t: int|
                0 <= t < g.n_strategies@[player] ==> #[trigger] g.payoff_vs(player, t, o) <= g.payoff_vs(
                    player,
                    s as int,
                    o,
                )) ==> #[trigger] best_replies(g, player, o).contains(s),
        forall|i: int, j: int|
            0 <= i < j < best_replies(g, player, o).len() ==> #[trigger] best_replies(g, player, o)[i]
                < #[trigger] best_replies(g, player, o)[j],
{
    let r = index_range(g.n_strategies@[player]);
    let pred = |s: usize| best_reply(g, player, s, o);
    let b = best_replies(g, player, o);
    assert forall|k: int| 0 <= k < b.len() implies (#[trigger] b[k]) < g.n_strategies@[player] && forall|t: int|
        0 <= t < g.n_strategies@[player] ==> #[trigger] g.payoff_vs(player, t, o) <= g.payoff_vs(player, b[k] as int, o) by {
        r.lemma_filter_pred(pred, k);
        lemma_filter_contains_iff(r, pred, b[k]);
        assert(b.contains(b[k]));
        lemma_index_range_contains(g.n_strategies@[player], b[k]);
    }
    assert forall|s: usize|
        s < g.n_strategies@[player] && (forall|t: int|
            0 <= t < g.n_strategies@[player] ==> #[trigger] g.payoff_vs(player, t, o) <= g.payoff_vs(player, s as int, o))
            implies #[trigger] b.contains(s) by {
        lemma_index_range_contains(g.n_strategies@[player], s);
        lemma_filter_contains_iff(r, pred, s);
    }
    lemma_index_range_increasing(g.n_strategies@[player]);
    lemma_filter_increasing(r, pred);
}

/// A player with at least one strategy always has a best response.
pub proof fn lemma_best_replies_nonempty(g: &NormalFormGame, player: int, o: int)
    requires
        0 <= player < 2,
        g.count(player) > 0,
    ensures
        best_replies(g, player, o).len() > 0,
{
    let r = index_range(g.n_strategies@[player]);
    let f = |s: usize| g.payoff_vs(player, s as int, o);
    let k = lemma_argmax(r, f);
    let c = r[k];
    assert forall|t: int| 0 <= t < g.count(player) implies g.payoff_vs(player, t, o) <= g.payoff_vs(
        player,
        c as int,
        o,
    ) by {
        assert(f(r[t]) <= f(c));
    }
    assert(best_reply(g, player, c, o));
    assert(r.contains(c));
    lemma_filter_contains_iff(r, |s: usize| best_reply(g, player, s, o), c);
}

/// Compute the payoff for each player under a given strategy profile.
pub fn profile_payoffs(game: &NormalFormGame, profile: &StrategyProfile) -> (p: [Payoff; 2])
    requires
        game.has_entry(profile.strategies@[0] as int, profile.strategies@[1] as int),
    ensures
        p@ == seq![
            game.entry(profile.strategies@[0] as int, profile.strategies@[1] as int).0,
            game.entry(profile.strategies@[0] as int, profile.strategies@[1] as int).1,
        ],
        p@[0] == game.payoffs@[profile.strategies@[0] as int]@[profile.strategies@[1] as int].0,
        p@[1] == game.payoffs@[profile.strategies@[0] as int]@[profile.strategies@[1] as int].1,
{
    let (p0, p1) = game.get_payoff(profile.strategies[0], profile.strategies[1]);
    [p0, p1]
}

/// Compute the payoff for a single player under a given profile.
pub fn player_payoff_in_profile(
    game: &NormalFormGame,
    player: PlayerIdx,
    profile: &StrategyProfile,
) -> (p: Payoff)
    requires
        player < 2,
        game.has_entry(profile.strategies@[0] as int, profile.strategies@[1] as int),
    ensures
        p == game.payoff_at(
            player as int,
            profile.strategies@[0] as int,
            profile.strategies@[1] as int,
        ),
        player == 0 ==> p == game.payoffs@[profile.strategies@[0] as int]@[profile.strategies@[1] as int].0,
        player == 1 ==> p == game.payoffs@[profile.strategies@[0] as int]@[profile.strategies@[1] as int].1,
{
    let payoffs = profile_payoffs(game, profile);
    payoffs[player]
}

/// Find the best response for a player given the opponent's strategy.
///
/// Returns all strategies that maximize the player's payoff (may be multiple if tied),
/// in increasing order.
pub fn best_responses(
    game: &NormalFormGame,
    player: PlayerIdx,
    opponent_strategy: StrategyIdx,
) -> (best: Vec<StrategyIdx>)
    requires
        player < 2,
        game.readable_against(player as int, opponent_strategy as int),
    ensures
        best@ == best_replies(game, player as int, opponent_strategy as int),
        forall|k: int|
            0 <= k < best@.len() ==> (#[trigger] best@[k]) < game.n_strategies@[player as int] && forall|t: int|
                0 <= t < game.n_strategies@[player as int] ==> #[trigger] game.payoff_vs(
                    player as int,
                    t,
                    opponent_strategy as int,
                ) <= game.payoff_vs(player as int, best@[k] as int, opponent_strategy as int),
        forall|s: usize|
            s < game.n_strategies@[player as int] && (forall|t: int|
                0 <= t < game.n_strategies@[player as int] ==> #[trigger] game.payoff_vs(
                    player as int,
                    t,
                    opponent_strategy as int,
                ) <= game.payoff_vs(player as int, s as int, opponent_strategy as int))
                ==> #[trigger] best@.contains(s),
        forall|i: int, j: int| 0 <= i < j < best@.len() ==> #[trigger] best@[i] < #[trigger] best@[j],
{
    let _opponent: PlayerIdx = 1 - player;
    let n = game.num_strategies(player);
    let ghost o = opponent_strategy as int;
    let ghost pl = player as int;
    let mut best: Vec<StrategyIdx> = Vec::new();
    let mut best_val: Option<Payoff> = None;
    for s in 0..n
        invariant
            player < 2,
            n == game.count(pl),
            pl == player,
            o == opponent_strategy,
            game.readable_against(pl, o),
            best_val is None <==> s == 0,
            best_val matches Some(m) ==> (forall|u: int|
                0 <= u < s ==> game.payoff_vs(pl, u, o) <= m) && (exists|u: int|
                0 <= u < s && game.payoff_vs(pl, u, o) == m),
            best@ == index_range(s).filter(|t: usize| at_least_first(game, pl, o, s as int, t)),
    {
        let (s0, s1) = if player == 0 {
            (s, opponent_strategy)
        } else {
            (opponent_strategy, s)
        };
        assert(game.has_entry_vs(pl, s as int, o));
        let val = game.player_payoff(player, s0, s1);
        assert(val == game.payoff_vs(pl, s as int, o));
        let ghost prev = index_range(s);
        let ghost p_old = |t: usize| at_least_first(game, pl, o, s as int, t);
        let ghost p_new = |t: usize| at_least_first(game, pl, o, s + 1, t);
        proof {
            assert(index_range((s + 1) as usize) == prev.push(s));
            prev.lemma_filter_push(s, p_new);
        }
        let better = match best_val {
            None => true,
            Some(m) => val > m,
        };
        if better {
            proof {
                assert forall|i: int| 0 <= i < prev.len() implies !p_new(#[trigger] prev[i]) by {
                    assert(game.payoff_vs(pl, i, o) <= best_val->0);
                }
                lemma_filter_none(prev, p_new);
            }
            best_val = Some(val);
            best.clear();
            best.push(s);
        } else if best_val == Some(val) {
            proof {
                let m = best_val->0;
                assert forall|i: int| 0 <= i < prev.len() implies p_old(#[trigger] prev[i])
                    == p_new(prev[i]) by {
                    let w = choose|u: int| 0 <= u < s && game.payoff_vs(pl, u, o) == m;
                    if p_old(prev[i]) {
                        assert(game.payoff_vs(pl, w, o) <= game.payoff_vs(pl, i, o));
                    }
                }
                lemma_filter_ext(prev, p_old, p_new);
            }
            best.push(s);
        } else {
            proof {
                let m = best_val->0;
                assert forall|i: int| 0 <= i < prev.len() implies p_old(#[trigger] prev[i])
                    == p_new(prev[i]) by {
                    let w = choose|u: int| 0 <= u < s && game.payoff_vs(pl, u, o) == m;
                    if p_old(prev[i]) {
                        assert(game.payoff_vs(pl, w, o) <= game.payoff_vs(pl, i, o));
                    }
                }
                lemma_filter_ext(prev, p_old, p_new);
                let w = choose|u: int| 0 <= u < s && game.payoff_vs(pl, u, o) == m;
                assert(!p_new(s));
            }
        }
    }
    proof {
        let p_fin = |t: usize| at_least_first(game, pl, o, n as int, t);
        let p_best = |t: usize| best_reply(game, pl, t, o);
        lemma_filter_ext(index_range(n), p_fin, p_best);
        lemma_best_replies_direct(game, pl, o);
    }
    best
}

/// Check if a strategy is a best response to the opponent's play.
pub fn is_best_response(
    game: &NormalFormGame,
    player: PlayerIdx,
    strategy: StrategyIdx,
    opponent_strategy: StrategyIdx,
) -> (r: bool)
    requires
        player < 2,
        game.readable_against(player as int, opponent_strategy as int),
    ensures
        r == (strategy < game.count(player as int) && best_reply(
            game,
            player as int,
            strategy,
            opponent_strategy as int,
        )),
        r == (strategy < game.n_strategies@[player as int] && forall|t: int|
            0 <= t < game.n_strategies@[player as int] ==> #[trigger] game.payoff_vs(
                player as int,
                t,
                opponent_strategy as int,
            ) <= game.payoff_vs(player as int, strategy as int, opponent_strategy as int)),
{
    let best = best_responses(game, player, opponent_strategy);
    proof {
        lemma_index_range_contains(game.n_strategies@[player as int], strategy);
        lemma_filter_contains_iff(
            index_range(game.n_strategies@[player as int]),
            |s: usize| best_reply(game, player as int, s, opponent_strategy as int),
            strategy,
        );
    }
    vec_contains(&best, strategy)
}

} // verus!
