//! Dominant strategy detection and Iterated Elimination of Strictly Dominated Strategies.

use vstd::prelude::*;

use crate::game::{NormalFormGame, PlayerIdx, StrategyIdx};
use crate::seqs::{
    increasing, index_range, lemma_argmax, lemma_increasing_singleton, lemma_filter_contains_iff, lemma_filter_increasing,
    lemma_filter_keeps_all, lemma_index_range_increasing, strategy_indices,
};

verus! {

/// Strategy `a` of `player` earns strictly more than strategy `b` against
/// every strategy of the opponent.
pub open spec fn strictly_better(g: &NormalFormGame, player: int, a: int, b: int) -> bool {
    forall|o: int|
        0 <= o < g.count(1 - player) ==> #[trigger] g.payoff_vs(player, a, o) > g.payoff_vs(
            player,
            b,
            o,
        )
}

/// Strategy `a` of `player` earns at least as much as strategy `b` against
/// every strategy of the opponent, and strictly more against at least one.
pub open spec fn weakly_better(g: &NormalFormGame, player: int, a: int, b: int) -> bool {
    &&& forall|o: int|
        0 <= o < g.count(1 - player) ==> #[trigger] g.payoff_vs(player, a, o) >= g.payoff_vs(
            player,
            b,
            o,
        )
    &&& exists|o: int|
        0 <= o < g.count(1 - player) && #[trigger] g.payoff_vs(player, a, o) > g.payoff_vs(
            player,
            b,
            o,
        )
}

/// Strategy `c` of `player` strictly dominates every other strategy of `player`.
pub open spec fn strictly_dominant(g: &NormalFormGame, player: int, c: int) -> bool {
    forall|d: int| 0 <= d < g.count(player) && d != c ==> #[trigger] strictly_better(g, player, c, d)
}

/// Strategy `a` of `player` earns strictly more than `b` against every
/// opponent strategy listed in `opp`.
pub open spec fn beats_on(g: &NormalFormGame, player: int, a: int, b: int, opp: Seq<usize>) -> bool {
    forall|j: int|
        0 <= j < opp.len() ==> #[trigger] g.payoff_vs(player, a, opp[j] as int) > g.payoff_vs(
            player,
            b,
            opp[j] as int,
        )
}

/// Strategy `c` is strictly dominated, for `player`, by another strategy of
/// `mine` over the opponent strategies `opp`.
pub open spec fn dominated_within(
    g: &NormalFormGame,
    player: int,
    c: usize,
    mine: Seq<usize>,
    opp: Seq<usize>,
) -> bool {
    exists|k: int|
        0 <= k < mine.len() && mine[k] != c && #[trigger] beats_on(
            g,
            player,
            mine[k] as int,
            c as int,
            opp,
        )
}

/// The strategies of `mine` that no other strategy of `mine` strictly
/// dominates over `opp`, in their order in `mine`.
pub open spec fn undominated(g: &NormalFormGame, player: int, mine: Seq<usize>, opp: Seq<usize>) -> Seq<
    usize,
> {
    mine.filter(|c: usize| !dominated_within(g, player, c, mine, opp))
}

/// Iterated elimination from the surviving sets `s0` and `s1`: one round
/// removes player 0's strictly dominated strategies, then player 1's against
/// what is left of player 0's; rounds repeat until one removes nothing.
pub open spec fn iesds_from(g: &NormalFormGame, s0: Seq<usize>, s1: Seq<usize>) -> (Seq<usize>, Seq<usize>)
    decreases s0.len() + s1.len(),
{
    let t0 = undominated(g, 0, s0, s1);
    let t1 = undominated(g, 1, s1, t0);
    if t0.len() + t1.len() >= s0.len() + s1.len() {
        (s0, s1)
    } else {
        iesds_from(g, t0, t1)
    }
}

/// The strategy sets that survive iterated elimination of strictly dominated
/// strategies, starting from all strategies of both players.
pub open spec fn iesds_survivors(g: &NormalFormGame) -> (Seq<usize>, Seq<usize>) {
    iesds_from(g, index_range(g.n_strategies@[0]), index_range(g.n_strategies@[1]))
}

/// Check if strategy `a` strictly dominates strategy `b` for a given player.
///
/// Strategy `a` strictly dominates `b` if `a` yields a strictly higher payoff
/// than `b` for every possible opponent strategy.
pub fn strictly_dominates(
    game: &NormalFormGame,
    player: PlayerIdx,
    a: StrategyIdx,
    b: StrategyIdx,
) -> (r: bool)
    requires
        player < 2,
        game.readable_row(player as int, a as int),
        game.readable_row(player as int, b as int),
    ensures
        r == strictly_better(game, player as int, a as int, b as int),
        r == forall|o: int|
            0 <= o < game.n_strategies@[1 - player] ==> #[trigger] game.payoff_vs(player as int, a as int, o)
                > game.payoff_vs(player as int, b as int, o),
{
    let opp: PlayerIdx = 1 - player;
    let n_opp = game.num_strategies(opp);
    let mut all_better = true;
    for os in 0..n_opp
        invariant
            player < 2,
            opp == 1 - player,
            n_opp == game.count(opp as int),
            game.readable_row(player as int, a as int),
            game.readable_row(player as int, b as int),
            all_better == (forall|o: int|
                0 <= o < os ==> #[trigger] game.payoff_vs(player as int, a as int, o)
                    > game.payoff_vs(player as int, b as int, o)),
    {
        let (s_a_0, s_a_1) = if player == 0 {
            (a, os)
        } else {
            (os, a)
        };
        let (s_b_0, s_b_1) = if player == 0 {
            (b, os)
        } else {
            (os, b)
        };
        assert(game.has_entry_vs(player as int, a as int, os as int));
        assert(game.has_entry_vs(player as int, b as int, os as int));
        let val_a = game.player_payoff(player, s_a_0, s_a_1);
        let val_b = game.player_payoff(player, s_b_0, s_b_1);
        assert(val_a == game.payoff_vs(player as int, a as int, os as int));
        assert(val_b == game.payoff_vs(player as int, b as int, os as int));
        if val_a <= val_b {
            all_better = false;
            return all_better;
        }
    }
    all_better
}

/// Check if strategy `a` weakly dominates strategy `b` for a given player.
///
/// Strategy `a` weakly dominates `b` if `a` yields at least as high a payoff
/// as `b` for every opponent strategy, and strictly higher for at least one.
pub fn weakly_dominates(
    game: &NormalFormGame,
    player: PlayerIdx,
    a: StrategyIdx,
    b: StrategyIdx,
) -> (r: bool)
    requires
        player < 2,
        game.readable_row(player as int, a as int),
        game.readable_row(player as int, b as int),
    ensures
        r == weakly_better(game, player as int, a as int, b as int),
        r ==> forall|o: int|
            0 <= o < game.n_strategies@[1 - player] ==> #[trigger] game.payoff_vs(player as int, a as int, o)
                >= game.payoff_vs(player as int, b as int, o),
        r == ((forall|o: int|
            0 <= o < game.n_strategies@[1 - player] ==> #[trigger] game.payoff_vs(player as int, a as int, o)
                >= game.payoff_vs(player as int, b as int, o)) && (exists|o: int|
            0 <= o < game.n_strategies@[1 - player] && #[trigger] game.payoff_vs(player as int, a as int, o)
                > game.payoff_vs(player as int, b as int, o))),
{
    let opp: PlayerIdx = 1 - player;
    let n_opp = game.num_strategies(opp);
    let mut all_geq = true;
    let mut some_gt = false;
    for os in 0..n_opp
        invariant
            player < 2,
            opp == 1 - player,
            n_opp == game.count(opp as int),
            game.readable_row(player as int, a as int),
            game.readable_row(player as int, b as int),
            all_geq == (forall|o: int|
                0 <= o < os ==> #[trigger] game.payoff_vs(player as int, a as int, o)
                    >= game.payoff_vs(player as int, b as int, o)),
            some_gt == (exists|o: int|
                0 <= o < os && #[trigger] game.payoff_vs(player as int, a as int, o)
                    > game.payoff_vs(player as int, b as int, o)),
    {
        let (s_a_0, s_a_1) = if player == 0 {
            (a, os)
        } else {
            (os, a)
        };
        let (s_b_0, s_b_1) = if player == 0 {
            (b, os)
        } else {
            (os, b)
        };
        assert(game.has_entry_vs(player as int, a as int, os as int));
        assert(game.has_entry_vs(player as int, b as int, os as int));
        let val_a = game.player_payoff(player, s_a_0, s_a_1);
        let val_b = game.player_payoff(player, s_b_0, s_b_1);
        assert(val_a == game.payoff_vs(player as int, a as int, os as int));
        assert(val_b == game.payoff_vs(player as int, b as int, os as int));
        if val_a < val_b {
            all_geq = false;
            return all_geq && some_gt;
        }
        if val_a > val_b {
            some_gt = true;
        }
    }
    all_geq && some_gt
}

/// Strategy `c` is strictly dominant exactly when it earns strictly more than
/// every other strategy of its player against every opponent strategy; it is
/// not exactly when some other strategy earns at least as much as it against
/// some opponent strategy.
pub proof fn lemma_strictly_dominant_direct(g: &NormalFormGame, player: int, c: int)
    ensures
        strictly_dominant(g, player, c) <==> forall|d: int, o: int|
                #![trigger g.payoff_vs(player, d, o)]
                0 <= d < g.n_strategies@[player] && d != c && 0 <= o < g.n_strategies@[1 - player] ==> g.payoff_vs(player, c, o) > g.payoff_vs(player, d, o),
        !strictly_dominant(g, player, c) <==> exists|d: int, o: int|
                #![trigger g.payoff_vs(player, d, o)]
                0 <= d < g.n_strategies@[player] && d != c && 0 <= o < g.n_strategies@[1 - player] && g.payoff_vs(player, c, o) <= g.payoff_vs(player, d, o),
{
    let n = g.n_strategies@[player];
    let no = g.n_strategies@[1 - player];
    if strictly_dominant(g, player, c) {
        assert forall|d: int, o: int|
            #![trigger g.payoff_vs(player, d, o)]
            0 <= d < n && d != c && 0 <= o < no implies g.payoff_vs(player, c, o) > g.payoff_vs(player, d, o) by {
            assert(strictly_better(g, player, c, d));
        }
    } else {
        let d = choose|d: int| 0 <= d < g.count(player) && d != c && !#[trigger] strictly_better(g, player, c, d);
        let o = choose|o: int|
            0 <= o < g.count(1 - player) && !(#[trigger] g.payoff_vs(player, c, o) > g.payoff_vs(player, d, o));
        assert(0 <= d < n && d != c && 0 <= o < no && g.payoff_vs(player, c, o) <= g.payoff_vs(player, d, o));
    }
}

/// Find the strictly dominant strategy of a player, if there is one.
///
/// A strategy is strictly dominant if it strictly dominates every other
/// strategy; the search returns the first such strategy.
pub fn find_strictly_dominant(game: &NormalFormGame, player: PlayerIdx) -> (r: Option<StrategyIdx>)
    requires
        player < 2,
        forall|s: int| 0 <= s < game.count(player as int) ==> #[trigger] game.readable_row(player as int, s),
    ensures
        match r {
            Some(c) => c < game.count(player as int) && strictly_dominant(game, player as int, c as int)
                && forall|d: int| 0 <= d < c ==> !#[trigger] strictly_dominant(game, player as int, d),
            None => forall|c: int|
                0 <= c < game.count(player as int) ==> !#[trigger] strictly_dominant(game, player as int, c),
        },
        r matches Some(c) ==> c < game.n_strategies@[player as int] && forall|d: int, o: int|
                #![trigger game.payoff_vs(player as int, d, o)]
                0 <= d < game.n_strategies@[player as int] && d != c as int && 0 <= o < game.n_strategies@[1 - player] ==> game.payoff_vs(player as int, c as int, o) > game.payoff_vs(player as int, d, o),
        r matches Some(c) ==> forall|e: int|
            #[trigger] game.is_strategy(player as int, e) && e < c ==> exists|d: int, o: int|
                #![trigger game.payoff_vs(player as int, d, o)]
                0 <= d < game.n_strategies@[player as int] && d != e && 0 <= o < game.n_strategies@[1 - player] && game.payoff_vs(player as int, e, o) <= game.payoff_vs(player as int, d, o),
        r is None ==> forall|e: int|
            #[trigger] game.is_strategy(player as int, e) ==> exists|d: int, o: int|
                #![trigger game.payoff_vs(player as int, d, o)]
                0 <= d < game.n_strategies@[player as int] && d != e && 0 <= o < game.n_strategies@[1 - player] && game.payoff_vs(player as int, e, o) <= game.payoff_vs(player as int, d, o),
{
    let n = game.num_strategies(player);
    for candidate in 0..n
        invariant
            player < 2,
            n == game.count(player as int),
            forall|s: int| 0 <= s < game.count(player as int) ==> #[trigger] game.readable_row(player as int, s),
            forall|d: int| 0 <= d < candidate ==> !#[trigger] strictly_dominant(game, player as int, d),
    {
        let mut dominant = true;
        for other in 0..n
            invariant
                player < 2,
                candidate < n,
                n == game.count(player as int),
                forall|s: int| 0 <= s < game.count(player as int) ==> #[trigger] game.readable_row(player as int, s),
                dominant == forall|d: int|
                    0 <= d < other && d != candidate ==> #[trigger] strictly_better(
                        game,
                        player as int,
                        candidate as int,
                        d,
                    ),
        {
            if dominant && other != candidate {
                assert(game.readable_row(player as int, candidate as int));
                assert(game.readable_row(player as int, other as int));
                if !strictly_dominates(game, player, candidate, other) {
                    dominant = false;
                }
            }
        }
        if dominant {
            proof {
                lemma_strictly_dominant_direct(game, player as int, candidate as int);
                assert forall|e: int| 0 <= e < candidate implies #[trigger] strictly_dominant(game, player as int, e) == false by {}
                assert forall|e: int|
                    #[trigger] game.is_strategy(player as int, e) && e < candidate implies exists|d: int, o: int|
                #![trigger game.payoff_vs(player as int, d, o)]
                0 <= d < game.n_strategies@[player as int] && d != e && 0 <= o < game.n_strategies@[1 - player] && game.payoff_vs(player as int, e, o) <= game.payoff_vs(player as int, d, o) by {
                    lemma_strictly_dominant_direct(game, player as int, e);
                }
            }
            return Some(candidate);
        }
    }
    proof {
        assert forall|e: int|
            #[trigger] game.is_strategy(player as int, e) implies exists|d: int, o: int|
                #![trigger game.payoff_vs(player as int, d, o)]
                0 <= d < game.n_strategies@[player as int] && d != e && 0 <= o < game.n_strategies@[1 - player] && game.payoff_vs(player as int, e, o) <= game.payoff_vs(player as int, d, o) by {
            lemma_strictly_dominant_direct(game, player as int, e);
        }
    }
    None
}

/// Whether strategy `a` of `player` earns strictly more than `b` against
/// every opponent strategy in `opp`.
fn beats_against(
    game: &NormalFormGame,
    player: PlayerIdx,
    a: StrategyIdx,
    b: StrategyIdx,
    opp: &Vec<StrategyIdx>,
) -> (r: bool)
    requires
        player < 2,
        game.readable_row(player as int, a as int),
        game.readable_row(player as int, b as int),
        forall|j: int| 0 <= j < opp@.len() ==> #[trigger] opp@[j] < game.count(1 - player),
    ensures
        r == beats_on(game, player as int, a as int, b as int, opp@),
{
    for j in 0..opp.len()
        invariant
            player < 2,
            game.readable_row(player as int, a as int),
            game.readable_row(player as int, b as int),
            forall|j: int| 0 <= j < opp@.len() ==> #[trigger] opp@[j] < game.count(1 - player),
            forall|i: int|
                0 <= i < j ==> #[trigger] game.payoff_vs(player as int, a as int, opp@[i] as int)
                    > game.payoff_vs(player as int, b as int, opp@[i] as int),
    {
        let os = opp[j];
        let (s_a_0, s_a_1) = if player == 0 {
            (a, os)
        } else {
            (os, a)
        };
        let (s_b_0, s_b_1) = if player == 0 {
            (b, os)
        } else {
            (os, b)
        };
        assert(opp@[j as int] < game.count(1 - player));
        assert(game.has_entry_vs(player as int, a as int, os as int));
        assert(game.has_entry_vs(player as int, b as int, os as int));
        let val_a = game.player_payoff(player, s_a_0, s_a_1);
        let val_b = game.player_payoff(player, s_b_0, s_b_1);
        assert(val_a == game.payoff_vs(player as int, a as int, os as int));
        assert(val_b == game.payoff_vs(player as int, b as int, os as int));
        if val_a <= val_b {
            return false;
        }
    }
    true
}

/// The strategies of `my_strats` that no other strategy of `my_strats`
/// strictly dominates for `player` over the opponent strategies `opp_strats`.
fn undominated_strategies(
    game: &NormalFormGame,
    player: PlayerIdx,
    my_strats: &Vec<StrategyIdx>,
    opp_strats: &Vec<StrategyIdx>,
) -> (kept: Vec<StrategyIdx>)
    requires
        player < 2,
        game.well_formed(),
        forall|j: int| 0 <= j < my_strats@.len() ==> #[trigger] my_strats@[j] < game.count(player as int),
        forall|j: int| 0 <= j < opp_strats@.len() ==> #[trigger] opp_strats@[j] < game.count(1 - player),
    ensures
        kept@ == undominated(game, player as int, my_strats@, opp_strats@),
{
    proof {
        game.lemma_well_formed_readable();
    }
    let ghost mine = my_strats@;
    let ghost keep = |c: usize| !dominated_within(game, player as int, c, mine, opp_strats@);
    let mut kept: Vec<StrategyIdx> = Vec::new();
    for i in 0..my_strats.len()
        invariant
            player < 2,
            mine == my_strats@,
            keep == (|c: usize| !dominated_within(game, player as int, c, mine, opp_strats@)),
            forall|j: int| 0 <= j < my_strats@.len() ==> #[trigger] my_strats@[j] < game.count(player as int),
            forall|j: int| 0 <= j < opp_strats@.len() ==> #[trigger] opp_strats@[j] < game.count(1 - player),
            forall|p: int, s: int|
                0 <= p < 2 && 0 <= s < game.count(p) ==> #[trigger] game.readable_row(p, s),
            kept@ == mine.take(i as int).filter(keep),
    {
        let candidate = my_strats[i];
        let mut dominated = false;
        for k in 0..my_strats.len()
            invariant
                player < 2,
                i < my_strats@.len(),
                candidate == my_strats@[i as int],
                forall|j: int| 0 <= j < my_strats@.len() ==> #[trigger] my_strats@[j] < game.count(player as int),
                forall|j: int| 0 <= j < opp_strats@.len() ==> #[trigger] opp_strats@[j] < game.count(1 - player),
                forall|p: int, s: int|
                    0 <= p < 2 && 0 <= s < game.count(p) ==> #[trigger] game.readable_row(p, s),
                dominated == exists|q: int|
                    0 <= q < k && my_strats@[q] != candidate && #[trigger] beats_on(
                        game,
                        player as int,
                        my_strats@[q] as int,
                        candidate as int,
                        opp_strats@,
                    ),
        {
            let other = my_strats[k];
            if !dominated && other != candidate {
                assert(my_strats@[k as int] < game.count(player as int));
                assert(my_strats@[i as int] < game.count(player as int));
                if beats_against(game, player, other, candidate, opp_strats) {
                    dominated = true;
                }
            }
        }
        proof {
            assert(mine.take(i + 1) == mine.take(i as int).push(candidate));
            mine.take(i as int).lemma_filter_push(candidate, keep);
        }
        if !dominated {
            kept.push(candidate);
        }
    }
    proof {
        assert(mine.take(mine.len() as int) == mine);
    }
    kept
}

/// Iterated Elimination of Strictly Dominated Strategies (IESDS).
///
/// Repeatedly removes strictly dominated strategies until none remain.
/// Returns the surviving strategy sets for each player.
pub fn iesds(game: &NormalFormGame) -> (surviving: [Vec<StrategyIdx>; 2])
    requires
        game.well_formed(),
    ensures
        surviving@[0]@ == iesds_survivors(game).0,
        surviving@[1]@ == iesds_survivors(game).1,
        forall|j: int| 0 <= j < surviving@[0]@.len() ==> #[trigger] surviving@[0]@[j] < game.n_strategies@[0],
        forall|i: int, j: int| 0 <= i < j < surviving@[0]@.len() ==> #[trigger] surviving@[0]@[i] < #[trigger] surviving@[0]@[j],
        forall|i: int, k: int|
            0 <= i < surviving@[0]@.len() && 0 <= k < surviving@[0]@.len() && #[trigger] surviving@[0]@[k] != #[trigger] surviving@[0]@[i] ==> exists|j: int|
                0 <= j < surviving@[1]@.len() && #[trigger] game.payoff_vs(0, surviving@[0]@[k] as int, surviving@[1]@[j] as int)
                    <= game.payoff_vs(0, surviving@[0]@[i] as int, surviving@[1]@[j] as int),
        forall|c: int, d: int|
            #[trigger] game.is_strategy(0, c) && #[trigger] game.is_strategy(0, d) && d != c && (forall|o: int|
                0 <= o < game.n_strategies@[1] ==> #[trigger] game.payoff_vs(0, d, o) > game.payoff_vs(0, c, o))
                ==> !surviving@[0]@.contains(c as usize),
        forall|c: int|
            #[trigger] game.is_strategy(0, c) && game.n_strategies@[0] > 0 && game.n_strategies@[1] > 0 && (forall|d: int, o: int|
                #![trigger game.payoff_vs(0, d, o)]
                0 <= d < game.n_strategies@[0] && d != c && 0 <= o < game.n_strategies@[1] ==> game.payoff_vs(0, c, o) > game.payoff_vs(0, d, o))
                ==> surviving@[0]@ == seq![c as usize],
        game.n_strategies@[0] > 0 && game.n_strategies@[1] > 0 ==> surviving@[0]@.len() > 0,
        forall|j: int| 0 <= j < surviving@[1]@.len() ==> #[trigger] surviving@[1]@[j] < game.n_strategies@[1],
        forall|i: int, j: int| 0 <= i < j < surviving@[1]@.len() ==> #[trigger] surviving@[1]@[i] < #[trigger] surviving@[1]@[j],
        forall|i: int, k: int|
            0 <= i < surviving@[1]@.len() && 0 <= k < surviving@[1]@.len() && #[trigger] surviving@[1]@[k] != #[trigger] surviving@[1]@[i] ==> exists|j: int|
                0 <= j < surviving@[0]@.len() && #[trigger] game.payoff_vs(1, surviving@[1]@[k] as int, surviving@[0]@[j] as int)
                    <= game.payoff_vs(1, surviving@[1]@[i] as int, surviving@[0]@[j] as int),
        forall|c: int, d: int|
            #[trigger] game.is_strategy(1, c) && #[trigger] game.is_strategy(1, d) && d != c && (forall|o: int|
                0 <= o < game.n_strategies@[0] ==> #[trigger] game.payoff_vs(1, d, o) > game.payoff_vs(1, c, o))
                ==> !surviving@[1]@.contains(c as usize),
        forall|c: int|
            #[trigger] game.is_strategy(1, c) && game.n_strategies@[0] > 0 && game.n_strategies@[1] > 0 && (forall|d: int, o: int|
                #![trigger game.payoff_vs(1, d, o)]
                0 <= d < game.n_strategies@[1] && d != c && 0 <= o < game.n_strategies@[0] ==> game.payoff_vs(1, c, o) > game.payoff_vs(1, d, o))
                ==> surviving@[1]@ == seq![c as usize],
        game.n_strategies@[0] > 0 && game.n_strategies@[1] > 0 ==> surviving@[1]@.len() > 0,
        forall|c: int, o: usize|
            #[trigger] game.is_strategy(0, c) && #[trigger] surviving@[1]@.contains(o) && (forall|t: int|
                0 <= t < game.n_strategies@[0] ==> #[trigger] game.payoff_vs(0, t, o as int) <= game.payoff_vs(0, c, o as int))
                ==> surviving@[0]@.contains(c as usize),
        forall|c: int, o: usize|
            #[trigger] game.is_strategy(1, c) && #[trigger] surviving@[0]@.contains(o) && (forall|t: int|
                0 <= t < game.n_strategies@[1] ==> #[trigger] game.payoff_vs(1, t, o as int) <= game.payoff_vs(1, c, o as int))
                ==> surviving@[1]@.contains(c as usize),
{
    let mut surviving_0 = strategy_indices(game.n_strategies[0]);
    let mut surviving_1 = strategy_indices(game.n_strategies[1]);
    proof {
        assert forall|j: int| 0 <= j < surviving_0@.len() implies #[trigger] surviving_0@[j]
            < game.count(0) by {}
        assert forall|j: int| 0 <= j < surviving_1@.len() implies #[trigger] surviving_1@[j]
            < game.count(1) by {}
    }
    loop
        invariant
            game.well_formed(),
            forall|j: int| 0 <= j < surviving_0@.len() ==> #[trigger] surviving_0@[j] < game.count(0),
            forall|j: int| 0 <= j < surviving_1@.len() ==> #[trigger] surviving_1@[j] < game.count(1),
            iesds_from(game, surviving_0@, surviving_1@) == iesds_survivors(game),
        ensures
            surviving_0@ == iesds_survivors(game).0,
            surviving_1@ == iesds_survivors(game).1,
        decreases surviving_0@.len() + surviving_1@.len(),
    {
        let mut eliminated = false;
        let ghost old_0 = surviving_0@;
        let ghost old_1 = surviving_1@;

        let kept_0 = undominated_strategies(game, 0, &surviving_0, &surviving_1);
        proof {
            let keep = |c: usize| !dominated_within(game, 0, c, old_0, old_1);
            lemma_filter_keeps_all(old_0, keep);
            assert forall|j: int| 0 <= j < kept_0@.len() implies #[trigger] kept_0@[j]
                < game.count(0) by {
                lemma_filter_contains_iff(old_0, keep, kept_0@[j]);
                assert(kept_0@.contains(kept_0@[j]));
            }
        }
        if kept_0.len() < surviving_0.len() {
            eliminated = true;
        }
        surviving_0 = kept_0;

        let kept_1 = undominated_strategies(game, 1, &surviving_1, &surviving_0);
        proof {
            let keep = |c: usize| !dominated_within(game, 1, c, old_1, surviving_0@);
            lemma_filter_keeps_all(old_1, keep);
            assert forall|j: int| 0 <= j < kept_1@.len() implies #[trigger] kept_1@[j]
                < game.count(1) by {
                lemma_filter_contains_iff(old_1, keep, kept_1@[j]);
                assert(kept_1@.contains(kept_1@[j]));
            }
        }
        if kept_1.len() < surviving_1.len() {
            eliminated = true;
        }
        surviving_1 = kept_1;

        if !eliminated {
            break;
        }
    }
    proof {
        lemma_iesds_direct(game);
        lemma_iesds_keeps_best_responses(game);
    }
    [surviving_0, surviving_1]
}

/// When the opponent has at least one strategy, a player has at most one
/// strictly dominant strategy.
pub proof fn lemma_strictly_dominant_unique(g: &NormalFormGame, player: int, c: int, d: int)
    requires
        0 <= player < 2,
        g.count(1 - player) > 0,
        0 <= c < g.count(player),
        0 <= d < g.count(player),
        strictly_dominant(g, player, c),
        strictly_dominant(g, player, d),
    ensures
        c == d,
{
    if c != d {
        assert(strictly_better(g, player, c, d));
        assert(strictly_better(g, player, d, c));
        assert(g.payoff_vs(player, c, 0) > g.payoff_vs(player, d, 0));
    }
}

/// Weak dominance, stated over the payoffs: `a` weakly dominates `b` exactly
/// when `a` earns at least as much as `b` against every opponent strategy and
/// strictly more against at least one of them, whichever one it is.
pub proof fn lemma_weakly_better_direct(g: &NormalFormGame, player: int, a: int, b: int)
    ensures
        weakly_better(g, player, a, b) <==> ((forall|o: int|
            0 <= o < g.n_strategies@[1 - player] ==> #[trigger] g.payoff_vs(player, a, o) >= g.payoff_vs(player, b, o))
            && (exists|o: int|
            0 <= o < g.n_strategies@[1 - player] && #[trigger] g.payoff_vs(player, a, o) > g.payoff_vs(player, b, o))),
{
}

/// Weak dominance is irreflexive and transitive.
pub proof fn lemma_weakly_better_order(g: &NormalFormGame, player: int, a: int, b: int, c: int)
    ensures
        !weakly_better(g, player, a, a),
        weakly_better(g, player, a, b) && weakly_better(g, player, b, c) ==> weakly_better(g, player, a, c),
{
    if weakly_better(g, player, a, b) && weakly_better(g, player, b, c) {
        let o = choose|o: int| 0 <= o < g.count(1 - player) && #[trigger] g.payoff_vs(player, a, o) > g.payoff_vs(player, b, o);
        assert(g.payoff_vs(player, b, o) >= g.payoff_vs(player, c, o));
        assert forall|p: int| 0 <= p < g.count(1 - player) implies #[trigger] g.payoff_vs(player, a, p) >= g.payoff_vs(player, c, p) by {
            assert(g.payoff_vs(player, a, p) >= g.payoff_vs(player, b, p));
            assert(g.payoff_vs(player, b, p) >= g.payoff_vs(player, c, p));
        }
    }
}

/// Strict dominance implies weak dominance whenever the opponent has a strategy.
pub proof fn lemma_strict_implies_weak(g: &NormalFormGame, player: int, a: int, b: int)
    requires
        g.count(1 - player) > 0,
        strictly_better(g, player, a, b),
    ensures
        weakly_better(g, player, a, b),
{
    assert(g.payoff_vs(player, a, 0) > g.payoff_vs(player, b, 0));
}

/// Every element of `s` lies below `n`.
pub open spec fn all_below(s: Seq<usize>, n: nat) -> bool {
    forall|j: int| 0 <= j < s.len() ==> #[trigger] s[j] < n
}

/// What survives a filter of `s` is drawn from `s`.
pub proof fn lemma_undominated_within(g: &NormalFormGame, player: int, mine: Seq<usize>, opp: Seq<usize>, n: nat)
    requires
        all_below(mine, n),
        increasing(mine),
    ensures
        all_below(undominated(g, player, mine, opp), n),
        increasing(undominated(g, player, mine, opp)),
        undominated(g, player, mine, opp).len() <= mine.len(),
{
    let keep = |c: usize| !dominated_within(g, player, c, mine, opp);
    let t = undominated(g, player, mine, opp);
    lemma_filter_increasing(mine, keep);
    lemma_filter_keeps_all(mine, keep);
    assert forall|j: int| 0 <= j < t.len() implies #[trigger] t[j] < n by {
        lemma_filter_contains_iff(mine, keep, t[j]);
        assert(t.contains(t[j]));
    }
}

/// The survivors of iterated elimination are strictly increasing lists of
/// each player's strategies, drawn from the lists elimination started from.
proof fn lemma_iesds_from_shape(g: &NormalFormGame, s0: Seq<usize>, s1: Seq<usize>)
    requires
        all_below(s0, g.count(0)),
        all_below(s1, g.count(1)),
        increasing(s0),
        increasing(s1),
    ensures
        all_below(iesds_from(g, s0, s1).0, g.count(0)),
        all_below(iesds_from(g, s0, s1).1, g.count(1)),
        increasing(iesds_from(g, s0, s1).0),
        increasing(iesds_from(g, s0, s1).1),
    decreases s0.len() + s1.len(),
{
    let t0 = undominated(g, 0, s0, s1);
    lemma_undominated_within(g, 0, s0, s1, g.count(0));
    let t1 = undominated(g, 1, s1, t0);
    lemma_undominated_within(g, 1, s1, t0, g.count(1));
    if t0.len() + t1.len() < s0.len() + s1.len() {
        lemma_iesds_from_shape(g, t0, t1);
    }
}

/// The strategies that survive IESDS are, for each player, a strictly
/// increasing list of that player's strategies.
pub proof fn lemma_iesds_survivors_are_strategies(g: &NormalFormGame)
    ensures
        all_below(iesds_survivors(g).0, g.count(0)),
        all_below(iesds_survivors(g).1, g.count(1)),
        increasing(iesds_survivors(g).0),
        increasing(iesds_survivors(g).1),
{
    lemma_index_range_increasing(g.n_strategies@[0]);
    lemma_index_range_increasing(g.n_strategies@[1]);
    lemma_iesds_from_shape(g, index_range(g.n_strategies@[0]), index_range(g.n_strategies@[1]));
}

/// When elimination stops, no survivor is strictly dominated by another
/// survivor against the opponent's survivors.
proof fn lemma_iesds_from_stable(g: &NormalFormGame, s0: Seq<usize>, s1: Seq<usize>)
    ensures
        ({
            let (r0, r1) = iesds_from(g, s0, s1);
            &&& forall|i: int| 0 <= i < r0.len() ==> !dominated_within(g, 0, #[trigger] r0[i], r0, r1)
            &&& forall|i: int| 0 <= i < r1.len() ==> !dominated_within(g, 1, #[trigger] r1[i], r1, r0)
        }),
    decreases s0.len() + s1.len(),
{
    let keep0 = |c: usize| !dominated_within(g, 0, c, s0, s1);
    let t0 = undominated(g, 0, s0, s1);
    lemma_filter_keeps_all(s0, keep0);
    let keep1 = |c: usize| !dominated_within(g, 1, c, s1, t0);
    let t1 = undominated(g, 1, s1, t0);
    lemma_filter_keeps_all(s1, keep1);
    if t0.len() + t1.len() < s0.len() + s1.len() {
        lemma_iesds_from_stable(g, t0, t1);
        assert(iesds_from(g, s0, s1) == iesds_from(g, t0, t1));
    } else {
        assert forall|i: int| 0 <= i < s0.len() implies keep0(#[trigger] s0[i]) by {}
        assert(t0 == s0);
        assert forall|i: int| 0 <= i < s1.len() implies keep1(#[trigger] s1[i]) by {}
        assert(iesds_from(g, s0, s1) == (s0, s1));
        assert forall|i: int| 0 <= i < s0.len() implies !dominated_within(g, 0, #[trigger] s0[i], s0, s1) by {
            assert(keep0(s0[i]));
        }
        assert forall|i: int| 0 <= i < s1.len() implies !dominated_within(g, 1, #[trigger] s1[i], s1, s0) by {
            assert(keep1(s1[i]));
        }
    }
}

/// IESDS stops only when nothing is left to eliminate: no surviving strategy
/// is strictly dominated by another surviving strategy of the same player
/// against the opponent's surviving strategies.
pub proof fn lemma_iesds_survivors_undominated(g: &NormalFormGame)
    ensures
        ({
            let (r0, r1) = iesds_survivors(g);
            &&& forall|i: int| 0 <= i < r0.len() ==> !dominated_within(g, 0, #[trigger] r0[i], r0, r1)
            &&& forall|i: int| 0 <= i < r1.len() ==> !dominated_within(g, 1, #[trigger] r1[i], r1, r0)
        }),
{
    lemma_iesds_from_stable(g, index_range(g.n_strategies@[0]), index_range(g.n_strategies@[1]));
}

/// Among a nonempty list of strategies, played against a nonempty list of
/// opponent strategies, at least one is not strictly dominated.
proof fn lemma_undominated_nonempty(g: &NormalFormGame, player: int, mine: Seq<usize>, opp: Seq<usize>)
    requires
        mine.len() > 0,
        opp.len() > 0,
    ensures
        undominated(g, player, mine, opp).len() > 0,
{
    let f = |c: usize| g.payoff_vs(player, c as int, opp[0] as int);
    let k = lemma_argmax(mine, f);
    let c = mine[k];
    if dominated_within(g, player, c, mine, opp) {
        let q = choose|q: int|
            0 <= q < mine.len() && mine[q] != c && #[trigger] beats_on(g, player, mine[q] as int, c as int, opp);
        assert(g.payoff_vs(player, mine[q] as int, opp[0] as int) > g.payoff_vs(player, c as int, opp[0] as int));
        assert(f(mine[q]) <= f(c));
    }
    assert(mine.contains(c));
    lemma_filter_contains_iff(mine, |x: usize| !dominated_within(g, player, x, mine, opp), c);
}

proof fn lemma_iesds_from_nonempty(g: &NormalFormGame, s0: Seq<usize>, s1: Seq<usize>)
    requires
        s0.len() > 0,
        s1.len() > 0,
    ensures
        iesds_from(g, s0, s1).0.len() > 0,
        iesds_from(g, s0, s1).1.len() > 0,
    decreases s0.len() + s1.len(),
{
    let t0 = undominated(g, 0, s0, s1);
    lemma_undominated_nonempty(g, 0, s0, s1);
    let t1 = undominated(g, 1, s1, t0);
    lemma_undominated_nonempty(g, 1, s1, t0);
    if t0.len() + t1.len() < s0.len() + s1.len() {
        lemma_iesds_from_nonempty(g, t0, t1);
    }
}

/// When both players have strategies, IESDS leaves each player at least one.
pub proof fn lemma_iesds_survivors_nonempty(g: &NormalFormGame)
    requires
        g.count(0) > 0,
        g.count(1) > 0,
    ensures
        iesds_survivors(g).0.len() > 0,
        iesds_survivors(g).1.len() > 0,
{
    lemma_iesds_from_nonempty(g, index_range(g.n_strategies@[0]), index_range(g.n_strategies@[1]));
}

/// A single surviving strategy of player 0 is never eliminated.
proof fn lemma_single_row_stays(g: &NormalFormGame, c: usize, s1: Seq<usize>)
    ensures
        iesds_from(g, seq![c], s1).0 == seq![c],
    decreases s1.len(),
{
    let s0 = seq![c];
    let keep0 = |x: usize| !dominated_within(g, 0, x, s0, s1);
    assert(keep0(s0[0]));
    lemma_filter_keeps_all(s0, keep0);
    let t0 = undominated(g, 0, s0, s1);
    assert(t0 == s0);
    let t1 = undominated(g, 1, s1, t0);
    lemma_filter_keeps_all(s1, |x: usize| !dominated_within(g, 1, x, s1, t0));
    if t0.len() + t1.len() < s0.len() + s1.len() {
        lemma_single_row_stays(g, c, t1);
    }
}

/// A single surviving strategy of player 1 is never eliminated.
proof fn lemma_single_column_stays(g: &NormalFormGame, s0: Seq<usize>, c: usize)
    ensures
        iesds_from(g, s0, seq![c]).1 == seq![c],
    decreases s0.len(),
{
    let s1 = seq![c];
    let t0 = undominated(g, 0, s0, s1);
    lemma_filter_keeps_all(s0, |x: usize| !dominated_within(g, 0, x, s0, s1));
    let keep1 = |x: usize| !dominated_within(g, 1, x, s1, t0);
    assert(keep1(s1[0]));
    lemma_filter_keeps_all(s1, keep1);
    let t1 = undominated(g, 1, s1, t0);
    assert(t1 == s1);
    if t0.len() + t1.len() < s0.len() + s1.len() {
        lemma_single_column_stays(g, t0, c);
    }
}

/// Against a nonempty list of opponent strategies, eliminating from all of
/// a player's strategies leaves exactly its strictly dominant strategy.
proof fn lemma_dominant_sole_undominated(g: &NormalFormGame, player: int, c: usize, opp: Seq<usize>)
    requires
        0 <= player < 2,
        c < g.count(player),
        strictly_dominant(g, player, c as int),
        opp.len() > 0,
        all_below(opp, g.count(1 - player)),
    ensures
        undominated(g, player, index_range(g.n_strategies@[player]), opp) == seq![c],
{
    let mine = index_range(g.n_strategies@[player]);
    let keep = |x: usize| !dominated_within(g, player, x, mine, opp);
    let t = undominated(g, player, mine, opp);
    assert forall|i: int| 0 <= i < mine.len() implies keep(#[trigger] mine[i]) == (mine[i] == c) by {
        let x = mine[i];
        if x == c {
            if dominated_within(g, player, c, mine, opp) {
                let q = choose|q: int|
                    0 <= q < mine.len() && mine[q] != c && #[trigger] beats_on(g, player, mine[q] as int, c as int, opp);
                assert(g.payoff_vs(player, mine[q] as int, opp[0] as int) > g.payoff_vs(player, c as int, opp[0] as int));
                assert(strictly_better(g, player, c as int, mine[q] as int));
                assert(opp[0] < g.count(1 - player));
                assert(g.payoff_vs(player, c as int, opp[0] as int) > g.payoff_vs(player, mine[q] as int, opp[0] as int));
            }
        } else {
            assert(strictly_better(g, player, c as int, x as int));
            assert forall|j: int| 0 <= j < opp.len() implies #[trigger] g.payoff_vs(player, c as int, opp[j] as int)
                > g.payoff_vs(player, x as int, opp[j] as int) by {
                assert(opp[j] < g.count(1 - player));
            }
            assert(beats_on(g, player, mine[c as int] as int, x as int, opp));
        }
    }
    assert forall|i: int| 0 <= i < t.len() implies #[trigger] t[i] == c by {
        mine.lemma_filter_pred(keep, i);
        lemma_filter_contains_iff(mine, keep, t[i]);
        assert(t.contains(t[i]));
        let k = choose|k: int| 0 <= k < mine.len() && mine[k] == t[i];
        assert(keep(mine[k]));
    }
    assert(mine[c as int] == c);
    assert(keep(mine[c as int]));
    lemma_filter_contains_iff(mine, keep, c);
    lemma_index_range_increasing(g.n_strategies@[player]);
    lemma_filter_increasing(mine, keep);
    lemma_increasing_singleton(t, c);
}

/// A strictly dominant strategy is the only strategy of its player that
/// survives IESDS (when both players have strategies).
pub proof fn lemma_iesds_keeps_only_dominant(g: &NormalFormGame, player: int, c: usize)
    requires
        0 <= player < 2,
        g.count(0) > 0,
        g.count(1) > 0,
        c < g.count(player),
        strictly_dominant(g, player, c as int),
    ensures
        player == 0 ==> iesds_survivors(g).0 == seq![c],
        player == 1 ==> iesds_survivors(g).1 == seq![c],
{
    let s0 = index_range(g.n_strategies@[0]);
    let s1 = index_range(g.n_strategies@[1]);
    lemma_index_range_increasing(g.n_strategies@[0]);
    lemma_index_range_increasing(g.n_strategies@[1]);
    let t0 = undominated(g, 0, s0, s1);
    lemma_undominated_within(g, 0, s0, s1, g.count(0));
    lemma_undominated_nonempty(g, 0, s0, s1);
    let t1 = undominated(g, 1, s1, t0);
    lemma_undominated_within(g, 1, s1, t0, g.count(1));
    if player == 0 {
        assert(all_below(s1, g.count(1)));
        lemma_dominant_sole_undominated(g, 0, c, s1);
        if t0.len() + t1.len() < s0.len() + s1.len() {
            lemma_single_row_stays(g, c, t1);
        } else {
            assert(s0.len() == 1);
            assert(s0 =~= seq![c]);
        }
    } else {
        lemma_dominant_sole_undominated(g, 1, c, t0);
        if t0.len() + t1.len() < s0.len() + s1.len() {
            lemma_single_column_stays(g, t0, c);
        } else {
            assert(s1.len() == 1);
            assert(s1 =~= seq![c]);
        }
    }
}

/// Each survivor of elimination from `s0`, `s1` already survives the first round.
proof fn lemma_iesds_from_first_round(g: &NormalFormGame, s0: Seq<usize>, s1: Seq<usize>)
    ensures
        forall|x: usize| #[trigger] iesds_from(g, s0, s1).0.contains(x) ==> undominated(g, 0, s0, s1).contains(x),
        forall|x: usize|
            #[trigger] iesds_from(g, s0, s1).1.contains(x) ==> undominated(g, 1, s1, undominated(g, 0, s0, s1)).contains(x),
    decreases s0.len() + s1.len(),
{
    let keep0 = |c: usize| !dominated_within(g, 0, c, s0, s1);
    let t0 = undominated(g, 0, s0, s1);
    lemma_filter_keeps_all(s0, keep0);
    let keep1 = |c: usize| !dominated_within(g, 1, c, s1, t0);
    let t1 = undominated(g, 1, s1, t0);
    lemma_filter_keeps_all(s1, keep1);
    if t0.len() + t1.len() < s0.len() + s1.len() {
        lemma_iesds_from_first_round(g, t0, t1);
        let u0 = undominated(g, 0, t0, t1);
        let u1 = undominated(g, 1, t1, u0);
        assert(iesds_from(g, s0, s1) == iesds_from(g, t0, t1));
        assert forall|x: usize| #[trigger] iesds_from(g, s0, s1).0.contains(x) implies t0.contains(x) by {
            assert(iesds_from(g, t0, t1).0.contains(x));
            assert(u0.contains(x));
            lemma_filter_contains_iff(t0, |c: usize| !dominated_within(g, 0, c, t0, t1), x);
        }
        assert forall|x: usize| #[trigger] iesds_from(g, s0, s1).1.contains(x) implies t1.contains(x) by {
            assert(iesds_from(g, t0, t1).1.contains(x));
            assert(u1.contains(x));
            lemma_filter_contains_iff(t1, |c: usize| !dominated_within(g, 1, c, t1, u0), x);
        }
    } else {
        assert forall|i: int| 0 <= i < s0.len() implies keep0(#[trigger] s0[i]) by {}
        assert forall|i: int| 0 <= i < s1.len() implies keep1(#[trigger] s1[i]) by {}
        assert(iesds_from(g, s0, s1) == (s0, s1));
    }
}

/// A strategy of player 0 that is a best response to an opponent strategy
/// surviving elimination is never eliminated itself.
proof fn lemma_best_response_survives_0(g: &NormalFormGame, s0: Seq<usize>, s1: Seq<usize>, c: usize, o: usize)
    requires
        s0.contains(c),
        all_below(s0, g.count(0)),
        increasing(s0),
        all_below(s1, g.count(1)),
        increasing(s1),
        iesds_from(g, s0, s1).1.contains(o),
        forall|t: int| 0 <= t < g.n_strategies@[0] ==> #[trigger] g.payoff_vs(0, t, o as int) <= g.payoff_vs(0, c as int, o as int),
    ensures
        iesds_from(g, s0, s1).0.contains(c),
    decreases s0.len() + s1.len(),
{
    lemma_iesds_from_first_round(g, s0, s1);
    let t0 = undominated(g, 0, s0, s1);
    let t1 = undominated(g, 1, s1, t0);
    lemma_filter_contains_iff(s1, |x: usize| !dominated_within(g, 1, x, s1, t0), o);
    if dominated_within(g, 0, c, s0, s1) {
        let k = choose|k: int| 0 <= k < s0.len() && s0[k] != c && #[trigger] beats_on(g, 0, s0[k] as int, c as int, s1);
        let j = choose|j: int| 0 <= j < s1.len() && s1[j] == o;
        assert(g.payoff_vs(0, s0[k] as int, s1[j] as int) > g.payoff_vs(0, c as int, s1[j] as int));
        assert(s0[k] < g.count(0));
        assert(g.payoff_vs(0, s0[k] as int, o as int) <= g.payoff_vs(0, c as int, o as int));
    }
    lemma_filter_contains_iff(s0, |x: usize| !dominated_within(g, 0, x, s0, s1), c);
    lemma_undominated_within(g, 0, s0, s1, g.count(0));
    lemma_undominated_within(g, 1, s1, t0, g.count(1));
    if t0.len() + t1.len() < s0.len() + s1.len() {
        assert(iesds_from(g, s0, s1) == iesds_from(g, t0, t1));
        lemma_best_response_survives_0(g, t0, t1, c, o);
    }
}

/// A strategy of player 1 that is a best response to an opponent strategy
/// surviving elimination is never eliminated itself.
proof fn lemma_best_response_survives_1(g: &NormalFormGame, s0: Seq<usize>, s1: Seq<usize>, c: usize, o: usize)
    requires
        s1.contains(c),
        all_below(s0, g.count(0)),
        increasing(s0),
        all_below(s1, g.count(1)),
        increasing(s1),
        iesds_from(g, s0, s1).0.contains(o),
        forall|t: int| 0 <= t < g.n_strategies@[1] ==> #[trigger] g.payoff_vs(1, t, o as int) <= g.payoff_vs(1, c as int, o as int),
    ensures
        iesds_from(g, s0, s1).1.contains(c),
    decreases s0.len() + s1.len(),
{
    lemma_iesds_from_first_round(g, s0, s1);
    let t0 = undominated(g, 0, s0, s1);
    let t1 = undominated(g, 1, s1, t0);
    if dominated_within(g, 1, c, s1, t0) {
        let k = choose|k: int| 0 <= k < s1.len() && s1[k] != c && #[trigger] beats_on(g, 1, s1[k] as int, c as int, t0);
        let j = choose|j: int| 0 <= j < t0.len() && t0[j] == o;
        assert(g.payoff_vs(1, s1[k] as int, t0[j] as int) > g.payoff_vs(1, c as int, t0[j] as int));
        assert(s1[k] < g.count(1));
        assert(g.payoff_vs(1, s1[k] as int, o as int) <= g.payoff_vs(1, c as int, o as int));
    }
    lemma_filter_contains_iff(s1, |x: usize| !dominated_within(g, 1, x, s1, t0), c);
    lemma_undominated_within(g, 0, s0, s1, g.count(0));
    lemma_undominated_within(g, 1, s1, t0, g.count(1));
    if t0.len() + t1.len() < s0.len() + s1.len() {
        assert(iesds_from(g, s0, s1) == iesds_from(g, t0, t1));
        lemma_best_response_survives_1(g, t0, t1, c, o);
    }
}

/// A strategy that is a best response to some surviving strategy of the
/// opponent survives IESDS.
pub proof fn lemma_iesds_keeps_best_responses(g: &NormalFormGame)
    ensures
        forall|c: int, o: usize|
            #[trigger] g.is_strategy(0, c) && #[trigger] iesds_survivors(g).1.contains(o) && (forall|t: int|
                0 <= t < g.n_strategies@[0] ==> #[trigger] g.payoff_vs(0, t, o as int) <= g.payoff_vs(0, c, o as int))
                ==> iesds_survivors(g).0.contains(c as usize),
        forall|c: int, o: usize|
            #[trigger] g.is_strategy(1, c) && #[trigger] iesds_survivors(g).0.contains(o) && (forall|t: int|
                0 <= t < g.n_strategies@[1] ==> #[trigger] g.payoff_vs(1, t, o as int) <= g.payoff_vs(1, c, o as int))
                ==> iesds_survivors(g).1.contains(c as usize),
{
    let n0 = g.n_strategies@[0];
    let n1 = g.n_strategies@[1];
    lemma_index_range_increasing(n0);
    lemma_index_range_increasing(n1);
    assert forall|c: int, o: usize|
        #[trigger] g.is_strategy(0, c) && #[trigger] iesds_survivors(g).1.contains(o) && (forall|t: int|
            0 <= t < n0 ==> #[trigger] g.payoff_vs(0, t, o as int) <= g.payoff_vs(0, c, o as int))
            implies iesds_survivors(g).0.contains(c as usize) by {
        assert(index_range(n0)[c] == c as usize);
        lemma_best_response_survives_0(g, index_range(n0), index_range(n1), c as usize, o);
    }
    assert forall|c: int, o: usize|
        #[trigger] g.is_strategy(1, c) && #[trigger] iesds_survivors(g).0.contains(o) && (forall|t: int|
            0 <= t < n1 ==> #[trigger] g.payoff_vs(1, t, o as int) <= g.payoff_vs(1, c, o as int))
            implies iesds_survivors(g).1.contains(c as usize) by {
        assert(index_range(n1)[c] == c as usize);
        lemma_best_response_survives_1(g, index_range(n0), index_range(n1), c as usize, o);
    }
}

/// What IESDS leaves, stated over the payoff matrix: each player's survivors
/// are an increasing list of its strategies; no survivor is out-earned by
/// another survivor against every surviving opponent strategy; a strategy
/// that another strategy out-earns against every opponent strategy of the
/// whole game never survives; a strictly dominant strategy is all that
/// survives of its player; and when both players have strategies, both keep
/// at least one.
pub proof fn lemma_iesds_direct(g: &NormalFormGame)
    ensures
        forall|j: int| 0 <= j < iesds_survivors(g).0.len() ==> #[trigger] iesds_survivors(g).0[j] < g.n_strategies@[0],
        forall|i: int, j: int| 0 <= i < j < iesds_survivors(g).0.len() ==> #[trigger] iesds_survivors(g).0[i] < #[trigger] iesds_survivors(g).0[j],
        forall|i: int, k: int|
            0 <= i < iesds_survivors(g).0.len() && 0 <= k < iesds_survivors(g).0.len() && #[trigger] iesds_survivors(g).0[k] != #[trigger] iesds_survivors(g).0[i] ==> exists|j: int|
                0 <= j < iesds_survivors(g).1.len() && #[trigger] g.payoff_vs(0, iesds_survivors(g).0[k] as int, iesds_survivors(g).1[j] as int)
                    <= g.payoff_vs(0, iesds_survivors(g).0[i] as int, iesds_survivors(g).1[j] as int),
        forall|c: int, d: int|
            #[trigger] g.is_strategy(0, c) && #[trigger] g.is_strategy(0, d) && d != c && (forall|o: int|
                0 <= o < g.n_strategies@[1] ==> #[trigger] g.payoff_vs(0, d, o) > g.payoff_vs(0, c, o))
                ==> !iesds_survivors(g).0.contains(c as usize),
        forall|c: int|
            #[trigger] g.is_strategy(0, c) && g.n_strategies@[0] > 0 && g.n_strategies@[1] > 0 && (forall|d: int, o: int|
                #![trigger g.payoff_vs(0, d, o)]
                0 <= d < g.n_strategies@[0] && d != c && 0 <= o < g.n_strategies@[1] ==> g.payoff_vs(0, c, o) > g.payoff_vs(0, d, o))
                ==> iesds_survivors(g).0 == seq![c as usize],
        g.n_strategies@[0] > 0 && g.n_strategies@[1] > 0 ==> iesds_survivors(g).0.len() > 0,
        forall|j: int| 0 <= j < iesds_survivors(g).1.len() ==> #[trigger] iesds_survivors(g).1[j] < g.n_strategies@[1],
        forall|i: int, j: int| 0 <= i < j < iesds_survivors(g).1.len() ==> #[trigger] iesds_survivors(g).1[i] < #[trigger] iesds_survivors(g).1[j],
        forall|i: int, k: int|
            0 <= i < iesds_survivors(g).1.len() && 0 <= k < iesds_survivors(g).1.len() && #[trigger] iesds_survivors(g).1[k] != #[trigger] iesds_survivors(g).1[i] ==> exists|j: int|
                0 <= j < iesds_survivors(g).0.len() && #[trigger] g.payoff_vs(1, iesds_survivors(g).1[k] as int, iesds_survivors(g).0[j] as int)
                    <= g.payoff_vs(1, iesds_survivors(g).1[i] as int, iesds_survivors(g).0[j] as int),
        forall|c: int, d: int|
            #[trigger] g.is_strategy(1, c) && #[trigger] g.is_strategy(1, d) && d != c && (forall|o: int|
                0 <= o < g.n_strategies@[0] ==> #[trigger] g.payoff_vs(1, d, o) > g.payoff_vs(1, c, o))
                ==> !iesds_survivors(g).1.contains(c as usize),
        forall|c: int|
            #[trigger] g.is_strategy(1, c) && g.n_strategies@[0] > 0 && g.n_strategies@[1] > 0 && (forall|d: int, o: int|
                #![trigger g.payoff_vs(1, d, o)]
                0 <= d < g.n_strategies@[1] && d != c && 0 <= o < g.n_strategies@[0] ==> g.payoff_vs(1, c, o) > g.payoff_vs(1, d, o))
                ==> iesds_survivors(g).1 == seq![c as usize],
        g.n_strategies@[0] > 0 && g.n_strategies@[1] > 0 ==> iesds_survivors(g).1.len() > 0,
{
    let (r0, r1) = iesds_survivors(g);
    let n0 = g.n_strategies@[0];
    let n1 = g.n_strategies@[1];
    let s0 = index_range(n0);
    let s1 = index_range(n1);
    lemma_iesds_survivors_are_strategies(g);
    lemma_iesds_survivors_undominated(g);
    lemma_iesds_from_first_round(g, s0, s1);
    lemma_index_range_increasing(n0);
    lemma_index_range_increasing(n1);
    let t0 = undominated(g, 0, s0, s1);
    lemma_undominated_within(g, 0, s0, s1, g.count(0));
    assert forall|i: int, k: int|
        0 <= i < r0.len() && 0 <= k < r0.len() && #[trigger] r0[k] != #[trigger] r0[i] implies exists|j: int|
            0 <= j < r1.len() && #[trigger] g.payoff_vs(0, r0[k] as int, r1[j] as int)
                <= g.payoff_vs(0, r0[i] as int, r1[j] as int) by {
        assert(!dominated_within(g, 0, r0[i], r0, r1));
        assert(!beats_on(g, 0, r0[k] as int, r0[i] as int, r1));
    }
    assert forall|i: int, k: int|
        0 <= i < r1.len() && 0 <= k < r1.len() && #[trigger] r1[k] != #[trigger] r1[i] implies exists|j: int|
            0 <= j < r0.len() && #[trigger] g.payoff_vs(1, r1[k] as int, r0[j] as int)
                <= g.payoff_vs(1, r1[i] as int, r0[j] as int) by {
        assert(!dominated_within(g, 1, r1[i], r1, r0));
        assert(!beats_on(g, 1, r1[k] as int, r1[i] as int, r0));
    }
    assert forall|c: int, d: int|
        #[trigger] g.is_strategy(0, c) && #[trigger] g.is_strategy(0, d) && d != c && (forall|o: int|
            0 <= o < n1 ==> #[trigger] g.payoff_vs(0, d, o) > g.payoff_vs(0, c, o))
            implies !r0.contains(c as usize) by {
        assert(s0[d] == d as usize);
        assert(beats_on(g, 0, s0[d] as int, c as usize as int, s1));
        assert(dominated_within(g, 0, c as usize, s0, s1));
        lemma_filter_contains_iff(s0, |x: usize| !dominated_within(g, 0, x, s0, s1), c as usize);
    }
    assert forall|c: int, d: int|
        #[trigger] g.is_strategy(1, c) && #[trigger] g.is_strategy(1, d) && d != c && (forall|o: int|
            0 <= o < n0 ==> #[trigger] g.payoff_vs(1, d, o) > g.payoff_vs(1, c, o))
            implies !r1.contains(c as usize) by {
        assert(s1[d] == d as usize);
        assert forall|j: int| 0 <= j < t0.len() implies #[trigger] g.payoff_vs(1, s1[d] as int, t0[j] as int)
            > g.payoff_vs(1, c as usize as int, t0[j] as int) by {
            assert(t0[j] < n0);
        }
        assert(beats_on(g, 1, s1[d] as int, c as usize as int, t0));
        assert(dominated_within(g, 1, c as usize, s1, t0));
        lemma_filter_contains_iff(s1, |x: usize| !dominated_within(g, 1, x, s1, t0), c as usize);
    }
    assert forall|c: int|
        #[trigger] g.is_strategy(0, c) && n0 > 0 && n1 > 0 && (forall|d: int, o: int|
            #![trigger g.payoff_vs(0, d, o)]
            0 <= d < n0 && d != c && 0 <= o < n1 ==> g.payoff_vs(0, c, o) > g.payoff_vs(0, d, o))
            implies r0 == seq![c as usize] by {
        lemma_strictly_dominant_direct(g, 0, c);
        lemma_iesds_keeps_only_dominant(g, 0, c as usize);
    }
    assert forall|c: int|
        #[trigger] g.is_strategy(1, c) && n0 > 0 && n1 > 0 && (forall|d: int, o: int|
            #![trigger g.payoff_vs(1, d, o)]
            0 <= d < n1 && d != c && 0 <= o < n0 ==> g.payoff_vs(1, c, o) > g.payoff_vs(1, d, o))
            implies r1 == seq![c as usize] by {
        lemma_strictly_dominant_direct(g, 1, c);
        lemma_iesds_keeps_only_dominant(g, 1, c as usize);
    }
    if n0 > 0 && n1 > 0 {
        lemma_iesds_survivors_nonempty(g);
    }
}

} // verus!
