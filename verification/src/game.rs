//! Core game types and construction.

use vstd::prelude::*;

use crate::text::{
    decimal, push_decimal, push_right_aligned, push_signed_decimal, right_aligned, signed_decimal,
};

verus! {

/// A payoff for a player in a game outcome.
pub type Payoff = i64;

/// A strategy index for a player.
pub type StrategyIdx = usize;

/// A player index.
pub type PlayerIdx = usize;

/// A strategy profile: one strategy per player.
pub type Profile = Vec<StrategyIdx>;

/// A payoff vector: one payoff per player.
pub type PayoffVector = Vec<Payoff>;

/// Lexicographic order on pure profiles `(s0, s1)`: by the row player's
/// strategy first, then by the column player's.
pub open spec fn lex_lt(a: (usize, usize), b: (usize, usize)) -> bool {
    a.0 < b.0 || (a.0 == b.0 && a.1 < b.1)
}

/// The profiles `(s0, 0), ..., (s0, n1 - 1)` of one row.
pub open spec fn row_profiles(s0: usize, n1: usize) -> Seq<(usize, usize)> {
    Seq::new(n1 as nat, |j: int| (s0, j as usize))
}

/// All profiles `(s0, s1)` with `s0 < n0` and `s1 < n1`, row by row.
pub open spec fn lex_profiles(n0: usize, n1: usize) -> Seq<(usize, usize)>
    decreases n0,
{
    if n0 == 0 {
        Seq::empty()
    } else {
        lex_profiles((n0 - 1) as usize, n1) + row_profiles((n0 - 1) as usize, n1)
    }
}

/// A sequence of profiles in strictly increasing lexicographic order.
pub open spec fn lex_sorted(s: Seq<(usize, usize)>) -> bool {
    forall|i: int, j: int| 0 <= i < j < s.len() ==> lex_lt(#[trigger] s[i], #[trigger] s[j])
}

/// `lex_profiles(n0, n1)` lists every profile below `(n0, n1)` exactly once,
/// in strictly increasing lexicographic order.
pub proof fn lemma_lex_profiles(n0: usize, n1: usize)
    ensures
        lex_profiles(n0, n1).len() == n0 * n1,
        lex_sorted(lex_profiles(n0, n1)),
        forall|k: int|
            0 <= k < lex_profiles(n0, n1).len() ==> (#[trigger] lex_profiles(n0, n1)[k]).0 < n0
                && lex_profiles(n0, n1)[k].1 < n1,
        forall|s0: usize, s1: usize|
            s0 < n0 && s1 < n1 ==> #[trigger] lex_profiles(n0, n1).contains((s0, s1)),
    decreases n0,
{
    if n0 > 0 {
        let m = (n0 - 1) as usize;
        lemma_lex_profiles(m, n1);
        let a = lex_profiles(m, n1);
        let b = row_profiles(m, n1);
        let s = lex_profiles(n0, n1);
        assert(s == a + b);
        assert(n0 * n1 == m * n1 + n1) by (nonlinear_arith)
            requires
                m == n0 - 1,
        ;
        assert forall|i: int, j: int| 0 <= i < j < s.len() implies lex_lt(
            #[trigger] s[i],
            #[trigger] s[j],
        ) by {
            if j < a.len() {
                assert(s[i] == a[i] && s[j] == a[j]);
            } else if i < a.len() {
                assert(s[i] == a[i]);
                assert(s[j] == b[j - a.len()]);
            } else {
                assert(s[i] == b[i - a.len()]);
                assert(s[j] == b[j - a.len()]);
            }
        }
        assert forall|s0: usize, s1: usize| s0 < n0 && s1 < n1 implies #[trigger] s.contains(
            (s0, s1),
        ) by {
            if s0 < m {
                assert(a.contains((s0, s1)));
                let k = choose|k: int| 0 <= k < a.len() && a[k] == (s0, s1);
                assert(s[k] == (s0, s1));
            } else {
                assert(s[a.len() + s1] == (s0, s1));
            }
        }
    }
}

/// The contents of a payoff matrix, row by row.
pub open spec fn matrix_view(rows: Seq<Vec<(Payoff, Payoff)>>) -> Seq<Seq<(Payoff, Payoff)>> {
    rows.map_values(|r: Vec<(Payoff, Payoff)>| r@)
}

/// The texts of a list of owned strings.
pub open spec fn texts(labels: Seq<String>) -> Seq<Seq<char>> {
    labels.map_values(|l: String| l@)
}

/// The texts of a list of string slices.
pub open spec fn str_texts(labels: Seq<&str>) -> Seq<Seq<char>> {
    labels.map_values(|l: &str| l@)
}

/// The default labels `S0, S1, ..., S{n-1}`.
pub open spec fn default_labels(n: nat) -> Seq<Seq<char>> {
    Seq::new(n, |i: int| seq!['S'] + decimal(i as nat))
}

/// The number of columns of a matrix, read off its first row (0 when empty).
pub open spec fn first_row_len(rows: Seq<Vec<(Payoff, Payoff)>>) -> usize {
    if rows.len() > 0 {
        rows[0].len() as usize
    } else {
        0
    }
}

/// The labels `S0, S1, ..., S{n-1}` as owned strings.
fn default_label_list(n: usize) -> (labels: Vec<String>)
    ensures
        texts(labels@) == default_labels(n as nat),
{
    let mut labels: Vec<String> = Vec::new();
    for i in 0..n
        invariant
            texts(labels@) == default_labels(i as nat),
    {
        let mut label = String::from_str("S");
        proof {
            reveal_strlit("S");
        }
        push_decimal(&mut label, i as u64);
        assert(label@ =~= seq!['S'] + decimal(i as nat));
        let ghost before = labels@;
        labels.push(label);
        proof {
            assert(texts(labels@) == texts(before).push(label@));
            assert(default_labels((i + 1) as nat) == default_labels(i as nat).push(
                seq!['S'] + decimal(i as nat),
            ));
        }
    }
    labels
}

/// Owned copies of a list of labels.
fn owned_labels(labels: &Vec<&str>) -> (owned: Vec<String>)
    ensures
        texts(owned@) == str_texts(labels@),
{
    let mut owned: Vec<String> = Vec::new();
    for i in 0..labels.len()
        invariant
            texts(owned@) == str_texts(labels@.take(i as int)),
    {
        let ghost before = owned@;
        owned.push(String::from_str(labels[i]));
        proof {
            assert(texts(owned@) == texts(before).push(labels@[i as int]@));
            assert(labels@.take(i + 1) == labels@.take(i as int).push(labels@[i as int]));
            assert(str_texts(labels@.take(i + 1)) == str_texts(labels@.take(i as int)).push(
                labels@[i as int]@,
            ));
        }
    }
    proof {
        assert(labels@.take(labels@.len() as int) == labels@);
    }
    owned
}

/// Width of a column in the textual form of a game.
pub const COLUMN_WIDTH: usize = 12;

/// The column headings: each label right-aligned in its column.
pub open spec fn label_cells(labels: Seq<Seq<char>>) -> Seq<char>
    decreases labels.len(),
{
    if labels.len() == 0 {
        Seq::empty()
    } else {
        label_cells(labels.drop_last()) + right_aligned(labels.last(), COLUMN_WIDTH as nat)
    }
}

/// The entries of one matrix row, each written ` (payoff_0, payoff_1)`.
pub open spec fn payoff_cells(row: Seq<(Payoff, Payoff)>) -> Seq<char>
    decreases row.len(),
{
    if row.len() == 0 {
        Seq::empty()
    } else {
        payoff_cells(row.drop_last()) + " ("@ + signed_decimal(row.last().0 as int) + ", "@
            + signed_decimal(row.last().1 as int) + ")"@
    }
}

/// One line per matrix row: the row's label right-aligned in its column,
/// followed by the row's entries.
pub open spec fn row_lines(labels: Seq<Seq<char>>, rows: Seq<Seq<(Payoff, Payoff)>>) -> Seq<char>
    decreases rows.len(),
{
    if rows.len() == 0 {
        Seq::empty()
    } else {
        row_lines(labels, rows.drop_last()) + right_aligned(
            labels[rows.len() - 1],
            COLUMN_WIDTH as nat,
        ) + payoff_cells(rows.last()) + "\n"@
    }
}

/// The textual form of a game: a heading with its dimensions, a line of
/// column labels, then one line per row of the matrix.
pub open spec fn game_text(g: &NormalFormGame) -> Seq<char> {
    "Normal-Form Game ("@ + decimal(g.n_strategies@[0] as nat) + "x"@ + decimal(
        g.n_strategies@[1] as nat,
    ) + "):\n"@ + right_aligned(""@, COLUMN_WIDTH as nat) + label_cells(texts(g.labels_1@))
        + "\n"@ + row_lines(texts(g.labels_0@), matrix_view(g.payoffs@))
}

/// Filtering the profiles of a game keeps them in strictly increasing
/// lexicographic order and keeps exactly the profiles that pass.
pub proof fn lemma_profiles_filter(n0: usize, n1: usize, p: spec_fn((usize, usize)) -> bool)
    ensures
        lex_sorted(lex_profiles(n0, n1).filter(p)),
        forall|s0: usize, s1: usize|
            #[trigger] lex_profiles(n0, n1).filter(p).contains((s0, s1)) <==> (s0 < n0 && s1 < n1
                && p((s0, s1))),
{
    lemma_lex_profiles(n0, n1);
    let ps = lex_profiles(n0, n1);
    lemma_filter_lex_sorted(ps, p);
    assert forall|s0: usize, s1: usize|
        #[trigger] ps.filter(p).contains((s0, s1)) <==> (s0 < n0 && s1 < n1 && p((s0, s1))) by {
        crate::seqs::lemma_filter_contains_iff(ps, p, (s0, s1));
        if ps.contains((s0, s1)) {
            let k = choose|k: int| 0 <= k < ps.len() && ps[k] == (s0, s1);
            assert(ps[k].0 < n0 && ps[k].1 < n1);
        }
    }
}

/// Filtering keeps a lexicographically sorted sequence sorted.
pub proof fn lemma_filter_lex_sorted(s: Seq<(usize, usize)>, p: spec_fn((usize, usize)) -> bool)
    requires
        lex_sorted(s),
    ensures
        lex_sorted(s.filter(p)),
    decreases s.len(),
{
    reveal(Seq::filter);
    if s.len() > 0 {
        let t = s.drop_last();
        assert(lex_sorted(t)) by {
            assert forall|i: int, j: int| 0 <= i < j < t.len() implies lex_lt(
                #[trigger] t[i],
                #[trigger] t[j],
            ) by {
                assert(t[i] == s[i] && t[j] == s[j]);
            }
        }
        lemma_filter_lex_sorted(t, p);
        let f = t.filter(p);
        if p(s.last()) {
            assert forall|i: int| 0 <= i < f.len() implies lex_lt(#[trigger] f[i], s.last()) by {
                crate::seqs::lemma_filter_contains_iff(t, p, f[i]);
                assert(f.contains(f[i]));
                let k = choose|k: int| 0 <= k < t.len() && t[k] == f[i];
                assert(s[k] == t[k]);
            }
            let g = f.push(s.last());
            assert forall|i: int, j: int| 0 <= i < j < g.len() implies lex_lt(
                #[trigger] g[i],
                #[trigger] g[j],
            ) by {
                if j == g.len() - 1 {
                    assert(g[i] == f[i]);
                } else {
                    assert(g[i] == f[i] && g[j] == f[j]);
                }
            }
        }
    }
}

/// How the textual form of a game is assembled: the heading with the
/// dimensions, twelve spaces, each column label right-aligned in twelve
/// characters, a newline, then per matrix row its label right-aligned in
/// twelve characters, each entry as ` (payoff_0, payoff_1)`, and a newline.
pub proof fn lemma_game_text_layout(
    g: &NormalFormGame,
    labels: Seq<Seq<char>>,
    l: Seq<char>,
    row: Seq<(Payoff, Payoff)>,
    e: (Payoff, Payoff),
    rows: Seq<Seq<(Payoff, Payoff)>>,
)
    ensures
        label_cells(Seq::empty()) == Seq::<char>::empty(),
        label_cells(labels.push(l)) == label_cells(labels) + right_aligned(l, 12),
        payoff_cells(Seq::empty()) == Seq::<char>::empty(),
        payoff_cells(row.push(e)) == payoff_cells(row) + " ("@ + signed_decimal(e.0 as int) + ", "@
            + signed_decimal(e.1 as int) + ")"@,
        row_lines(labels, Seq::empty()) == Seq::<char>::empty(),
        rows.len() < labels.len() ==> row_lines(labels, rows.push(row)) == row_lines(labels, rows)
            + right_aligned(labels[rows.len() as int], 12) + payoff_cells(row) + "\n"@,
        game_text(g) == "Normal-Form Game ("@ + decimal(g.n_strategies@[0] as nat) + "x"@ + decimal(
            g.n_strategies@[1] as nat,
        ) + "):\n"@ + Seq::new(12, |i: int| ' ') + label_cells(g.labels_1@.map_values(|t: String| t@))
            + "\n"@ + row_lines(
            g.labels_0@.map_values(|t: String| t@),
            g.payoffs@.map_values(|r: Vec<(Payoff, Payoff)>| r@),
        ),
{
    assert(labels.push(l).drop_last() == labels);
    assert(row.push(e).drop_last() == row);
    assert(rows.push(row).drop_last() == rows);
    reveal_strlit("");
    assert(right_aligned(""@, 12) =~= Seq::new(12, |i: int| ' '));
}

/// The default labels are `S` followed by the decimal form of the strategy's index.
pub proof fn lemma_default_labels(n: nat)
    ensures
        default_labels(n).len() == n,
        forall|i: int|
            0 <= i < n ==> (#[trigger] default_labels(n)[i])[0] == 'S' && default_labels(n)[i].drop_first()
                == decimal(i as nat),
{
    assert forall|i: int| 0 <= i < n implies (#[trigger] default_labels(n)[i])[0] == 'S'
        && default_labels(n)[i].drop_first() == decimal(i as nat) by {
        assert(default_labels(n)[i].drop_first() =~= decimal(i as nat));
    }
}

/// The views of matrices and label lists are taken element by element.
pub proof fn lemma_views(rows: Seq<Vec<(Payoff, Payoff)>>, labels: Seq<String>, strs: Seq<&str>)
    ensures
        matrix_view(rows).len() == rows.len(),
        forall|i: int| 0 <= i < rows.len() ==> #[trigger] matrix_view(rows)[i] == rows[i]@,
        texts(labels).len() == labels.len(),
        forall|i: int| 0 <= i < labels.len() ==> #[trigger] texts(labels)[i] == labels[i]@,
        str_texts(strs).len() == strs.len(),
        forall|i: int| 0 <= i < strs.len() ==> #[trigger] str_texts(strs)[i] == strs[i]@,
        first_row_len(rows) == if rows.len() > 0 { rows[0].len() } else { 0 },
{
}

/// A 2-player normal-form game represented as a payoff matrix.
///
/// The matrix is indexed as `[row_player_strategy][col_player_strategy]`
/// where each entry is `(row_payoff, col_payoff)`.
#[derive(Clone, Debug)]
pub struct NormalFormGame {
    /// Number of strategies for player 0 (row player) and player 1 (column player).
    pub n_strategies: [usize; 2],
    /// Payoff matrix: `payoffs[s0][s1] = (payoff_0, payoff_1)`.
    pub payoffs: Vec<Vec<(Payoff, Payoff)>>,
    /// Strategy labels for player 0.
    pub labels_0: Vec<String>,
    /// Strategy labels for player 1.
    pub labels_1: Vec<String>,
}

impl NormalFormGame {
    /// Number of strategies of `player` (0 or 1).
    pub open spec fn count(&self, player: int) -> nat {
        self.n_strategies@[player] as nat
    }

    /// The matrix holds an entry at `[s0][s1]`.
    pub open spec fn has_entry(&self, s0: int, s1: int) -> bool {
        0 <= s0 < self.payoffs@.len() && 0 <= s1 < self.payoffs@[s0]@.len()
    }

    /// The matrix entry at `[s0][s1]`.
    pub open spec fn entry(&self, s0: int, s1: int) -> (Payoff, Payoff) {
        self.payoffs@[s0]@[s1]
    }

    /// The payoff of `player` at profile `(s0, s1)`: the first component for
    /// player 0, the second for any other player index.
    pub open spec fn payoff_at(&self, player: int, s0: int, s1: int) -> int {
        if player == 0 {
            self.entry(s0, s1).0 as int
        } else {
            self.entry(s0, s1).1 as int
        }
    }

    /// The payoff of `player` when it plays `s` and its opponent plays `o`.
    pub open spec fn payoff_vs(&self, player: int, s: int, o: int) -> int {
        if player == 0 {
            self.payoff_at(0, s, o)
        } else {
            self.payoff_at(1, o, s)
        }
    }

    /// The matrix holds the entry read when `player` plays `s` against `o`.
    pub open spec fn has_entry_vs(&self, player: int, s: int, o: int) -> bool {
        if player == 0 {
            self.has_entry(s, o)
        } else {
            self.has_entry(o, s)
        }
    }

    /// Every strategy of `player` can be read against the opponent's strategy `o`.
    pub open spec fn readable_against(&self, player: int, o: int) -> bool {
        forall|s: int| 0 <= s < self.count(player) ==> #[trigger] self.has_entry_vs(player, s, o)
    }

    /// Strategy `s` of `player` can be read against every opponent strategy.
    pub open spec fn readable_row(&self, player: int, s: int) -> bool {
        forall|o: int| 0 <= o < self.count(1 - player) ==> #[trigger] self.has_entry_vs(player, s, o)
    }

    /// `s` is a strategy of `player`.
    pub open spec fn is_strategy(&self, player: int, s: int) -> bool {
        0 <= s < self.n_strategies@[player]
    }

    /// `(s0, s1)` is a profile of the game: each strategy is below its player's count.
    pub open spec fn is_profile(&self, s0: int, s1: int) -> bool {
        0 <= s0 < self.count(0) && 0 <= s1 < self.count(1)
    }

    /// Every profile of the game has an entry in the matrix.
    pub open spec fn well_formed(&self) -> bool {
        forall|s0: int, s1: int| self.is_profile(s0, s1) ==> #[trigger] self.has_entry(s0, s1)
    }

    /// In a well-formed game every strategy can be read against every
    /// opponent strategy.
    pub proof fn lemma_well_formed_readable(&self)
        requires
            self.well_formed(),
        ensures
            forall|player: int, o: int|
                0 <= player < 2 && 0 <= o < self.count(1 - player) ==> #[trigger] self.readable_against(
                    player,
                    o,
                ),
            forall|player: int, s: int|
                0 <= player < 2 && 0 <= s < self.count(player) ==> #[trigger] self.readable_row(
                    player,
                    s,
                ),
    {
        assert forall|player: int, o: int|
            0 <= player < 2 && 0 <= o < self.count(1 - player) implies #[trigger] self.readable_against(
            player,
            o,
        ) by {
            assert forall|s: int| 0 <= s < self.count(player) implies #[trigger] self.has_entry_vs(
                player,
                s,
                o,
            ) by {
                if player == 0 {
                    assert(self.has_entry(s, o));
                } else {
                    assert(self.has_entry(o, s));
                }
            }
        }
        assert forall|player: int, s: int|
            0 <= player < 2 && 0 <= s < self.count(player) implies #[trigger] self.readable_row(
            player,
            s,
        ) by {
            assert forall|o: int| 0 <= o < self.count(1 - player) implies #[trigger] self.has_entry_vs(
                player,
                s,
                o,
            ) by {
                if player == 0 {
                    assert(self.has_entry(s, o));
                } else {
                    assert(self.has_entry(o, s));
                }
            }
        }
    }

    /// All profiles of the game in lexicographic order.
    pub open spec fn profiles(&self) -> Seq<(usize, usize)> {
        lex_profiles(self.n_strategies@[0], self.n_strategies@[1])
    }

    /// Create a new 2-player normal-form game from a 2x2 payoff matrix.
    pub fn new_2x2(payoffs: [[(Payoff, Payoff); 2]; 2]) -> (g: Self)
        ensures
            g.n_strategies@ == seq![2usize, 2usize],
            matrix_view(g.payoffs@) == seq![payoffs@[0]@, payoffs@[1]@],
            texts(g.labels_0@) == default_labels(2),
            texts(g.labels_1@) == default_labels(2),
    {
        let row_0 = vec![payoffs[0][0], payoffs[0][1]];
        let row_1 = vec![payoffs[1][0], payoffs[1][1]];
        assert(row_0@ =~= payoffs@[0]@);
        assert(row_1@ =~= payoffs@[1]@);
        let ghost r0 = row_0;
        let ghost r1 = row_1;
        let rows = vec![row_0, row_1];
        assert(rows@ =~= seq![r0, r1]);
        let g = Self {
            n_strategies: [2, 2],
            payoffs: rows,
            labels_0: default_label_list(2),
            labels_1: default_label_list(2),
        };
        assert(matrix_view(g.payoffs@) =~= seq![payoffs@[0]@, payoffs@[1]@]);
        g
    }

    /// Create a game from an arbitrary-sized payoff matrix.
    ///
    /// Player 0 has one strategy per row; player 1 has as many strategies as
    /// the first row has entries.
    pub fn new(payoffs: Vec<Vec<(Payoff, Payoff)>>) -> (g: Self)
        ensures
            g.n_strategies@ == seq![payoffs@.len() as usize, first_row_len(payoffs@)],
            g.payoffs@ == payoffs@,
            texts(g.labels_0@) == default_labels(payoffs@.len()),
            texts(g.labels_1@) == default_labels(first_row_len(payoffs@) as nat),
    {
        let n0 = payoffs.len();
        let n1 = if n0 > 0 {
            payoffs[0].len()
        } else {
            0
        };
        Self {
            n_strategies: [n0, n1],
            payoffs,
            labels_0: default_label_list(n0),
            labels_1: default_label_list(n1),
        }
    }

    /// Create a game with labeled strategies.
    pub fn with_labels(
        payoffs: Vec<Vec<(Payoff, Payoff)>>,
        labels_0: Vec<&str>,
        labels_1: Vec<&str>,
    ) -> (g: Self)
        ensures
            g.n_strategies@ == seq![payoffs@.len() as usize, first_row_len(payoffs@)],
            g.payoffs@ == payoffs@,
            texts(g.labels_0@) == str_texts(labels_0@),
            texts(g.labels_1@) == str_texts(labels_1@),
    {
        let n0 = payoffs.len();
        let n1 = if n0 > 0 {
            payoffs[0].len()
        } else {
            0
        };
        Self {
            n_strategies: [n0, n1],
            payoffs,
            labels_0: owned_labels(&labels_0),
            labels_1: owned_labels(&labels_1),
        }
    }

    /// The game as text: a heading with its dimensions, the column player's
    /// labels, and one line per matrix row with the row player's label and
    /// the row's entries.
    pub fn to_string(&self) -> (text: String)
        requires
            self.payoffs@.len() <= self.labels_0@.len(),
        ensures
            text@ == game_text(self),
    {
        let mut out = String::new();
        out.append("Normal-Form Game (");
        push_decimal(&mut out, self.n_strategies[0] as u64);
        out.append("x");
        push_decimal(&mut out, self.n_strategies[1] as u64);
        out.append("):\n");
        push_right_aligned(&mut out, "", COLUMN_WIDTH);
        let ghost header = out@;
        let ghost l1 = texts(self.labels_1@);
        for k in 0..self.labels_1.len()
            invariant
                l1 == texts(self.labels_1@),
                out@ == header + label_cells(l1.take(k as int)),
        {
            push_right_aligned(&mut out, self.labels_1[k].as_str(), COLUMN_WIDTH);
            assert(l1.take(k + 1).drop_last() =~= l1.take(k as int));
        }
        assert(l1.take(l1.len() as int) =~= l1);
        out.append("\n");
        let ghost body = out@;
        let ghost l0 = texts(self.labels_0@);
        let ghost m = matrix_view(self.payoffs@);
        for i in 0..self.payoffs.len()
            invariant
                self.payoffs@.len() <= self.labels_0@.len(),
                l0 == texts(self.labels_0@),
                m == matrix_view(self.payoffs@),
                out@ == body + row_lines(l0, m.take(i as int)),
        {
            push_right_aligned(&mut out, self.labels_0[i].as_str(), COLUMN_WIDTH);
            let ghost line = out@;
            let row = &self.payoffs[i];
            let ghost r = row@;
            for j in 0..row.len()
                invariant
                    r == row@,
                    out@ == line + payoff_cells(r.take(j as int)),
            {
                let (p0, p1) = row[j];
                out.append(" (");
                push_signed_decimal(&mut out, p0);
                out.append(", ");
                push_signed_decimal(&mut out, p1);
                out.append(")");
                assert(r.take(j + 1).drop_last() =~= r.take(j as int));
                assert(out@ =~= line + payoff_cells(r.take(j + 1)));
            }
            assert(r.take(r.len() as int) =~= r);
            out.append("\n");
            assert(m.take(i + 1).drop_last() =~= m.take(i as int));
            assert(m[i as int] == r);
            assert(out@ =~= body + row_lines(l0, m.take(i + 1)));
        }
        assert(m.take(m.len() as int) =~= m);
        assert(out@ =~= game_text(self));
        out
    }

    /// Get the payoff for a given strategy profile.
    pub fn get_payoff(&self, s0: StrategyIdx, s1: StrategyIdx) -> (p: (Payoff, Payoff))
        requires
            self.has_entry(s0 as int, s1 as int),
        ensures
            p == self.entry(s0 as int, s1 as int),
            p == self.payoffs@[s0 as int]@[s1 as int],
    {
        self.payoffs[s0][s1]
    }

    /// Get the payoff for a player given a strategy profile.
    pub fn player_payoff(&self, player: PlayerIdx, s0: StrategyIdx, s1: StrategyIdx) -> (p: Payoff)
        requires
            self.has_entry(s0 as int, s1 as int),
        ensures
            p == self.payoff_at(player as int, s0 as int, s1 as int),
            player == 0 ==> p == self.payoffs@[s0 as int]@[s1 as int].0,
            player != 0 ==> p == self.payoffs@[s0 as int]@[s1 as int].1,
    {
        let (p0, p1) = self.payoffs[s0][s1];
        if player == 0 {
            p0
        } else {
            p1
        }
    }

    /// Number of strategies for a given player.
    pub fn num_strategies(&self, player: PlayerIdx) -> (n: usize)
        requires
            player < 2,
        ensures
            n == self.count(player as int),
            n == self.n_strategies@[player as int],
    {
        self.n_strategies[player]
    }

    /// The payoffs of a game are read straight off its matrix: the first
    /// component of entry `[s0][s1]` is player 0's payoff and the second is
    /// player 1's, whichever strategy of the other player is fixed.
    pub proof fn lemma_payoffs_read_matrix(&self)
        ensures
            forall|s0: int, s1: int| #[trigger] self.entry(s0, s1) == self.payoffs@[s0]@[s1],
            forall|s: int, o: int|
                #[trigger] self.payoff_vs(0, s, o) == self.payoffs@[s]@[o].0 as int,
            forall|s: int, o: int|
                #[trigger] self.payoff_vs(1, s, o) == self.payoffs@[o]@[s].1 as int,
            forall|s0: int, s1: int|
                #[trigger] self.is_profile(s0, s1) <==> (0 <= s0 < self.n_strategies@[0] && 0 <= s1
                    < self.n_strategies@[1]),
            forall|p: int, s: int| #[trigger] self.is_strategy(p, s) <==> 0 <= s < self.n_strategies@[p],
            forall|p: int| #[trigger] self.count(p) == self.n_strategies@[p] as nat,
            forall|s0: int, s1: int|
                #[trigger] self.has_entry(s0, s1) <==> (0 <= s0 < self.payoffs@.len() && 0 <= s1
                    < self.payoffs@[s0]@.len()),
    {
    }

    /// All strategy profiles, row by row.
    pub fn all_profiles(&self) -> (profiles: Vec<(StrategyIdx, StrategyIdx)>)
        ensures
            profiles@ == self.profiles(),
            profiles@.len() == self.n_strategies@[0] * self.n_strategies@[1],
            forall|k: int|
                0 <= k < profiles@.len() ==> (#[trigger] profiles@[k]).0 < self.n_strategies@[0]
                    && profiles@[k].1 < self.n_strategies@[1],
            forall|s0: usize, s1: usize|
                s0 < self.n_strategies@[0] && s1 < self.n_strategies@[1] ==> #[trigger] profiles@.contains(
                    (s0, s1),
                ),
            forall|i: int, j: int|
                0 <= i < j < profiles@.len() ==> (#[trigger] profiles@[i]).0 < (#[trigger] profiles@[j]).0
                    || (profiles@[i].0 == profiles@[j].0 && profiles@[i].1 < profiles@[j].1),
    {
        proof {
            lemma_lex_profiles(self.n_strategies@[0], self.n_strategies@[1]);
        }
        let n0 = self.n_strategies[0];
        let n1 = self.n_strategies[1];
        let mut profiles: Vec<(usize, usize)> = Vec::new();
        for s0 in 0..n0
            invariant
                n1 == self.count(1),
                n0 == self.count(0),
                profiles@ == lex_profiles(s0, n1),
        {
            for s1 in 0..n1
                invariant
                    n1 == self.count(1),
                    s0 < n0,
                    profiles@ == lex_profiles(s0, n1) + row_profiles(
                        s0,
                        s1,
                    ),
            {
                profiles.push((s0, s1));
                assert(row_profiles(s0, (s1 + 1) as usize) == row_profiles(s0, s1).push((s0, s1)));
            }
            assert(lex_profiles((s0 + 1) as usize, n1) == lex_profiles(s0, n1)
                + row_profiles(s0 , n1));
        }
        profiles
    }
}


/// Prisoner's Dilemma: classic 2x2 game.
pub fn prisoners_dilemma() -> (g: NormalFormGame)
    ensures
        g.n_strategies@ == seq![2usize, 2usize],
        matrix_view(g.payoffs@) == seq![
            seq![(-1i64, -1i64), (-3i64, 0i64)],
            seq![(0i64, -3i64), (-2i64, -2i64)],
        ],
        texts(g.labels_0@) == seq!["Cooperate"@, "Defect"@],
        texts(g.labels_1@) == seq!["Cooperate"@, "Defect"@],
        g.well_formed(),
{
    let row_0: Vec<(Payoff, Payoff)> = vec![(-1, -1), (-3, 0)];
    let row_1: Vec<(Payoff, Payoff)> = vec![(0, -3), (-2, -2)];
    let ghost v0 = row_0@;
    let ghost v1 = row_1@;
    let ghost rows = seq![row_0, row_1];
    let labels_0: Vec<&str> = vec!["Cooperate", "Defect"];
    let labels_1: Vec<&str> = vec!["Cooperate", "Defect"];
    let g = NormalFormGame::with_labels(vec![row_0, row_1], labels_0, labels_1);
    assert(g.payoffs@[0]@ == v0 && g.payoffs@[1]@ == v1);
    assert(matrix_view(g.payoffs@) =~= seq![v0, v1]);
    g
}

/// Battle of the Sexes: coordination game.
pub fn battle_of_sexes() -> (g: NormalFormGame)
    ensures
        g.n_strategies@ == seq![2usize, 2usize],
        matrix_view(g.payoffs@) == seq![
            seq![(3i64, 2i64), (0i64, 0i64)],
            seq![(0i64, 0i64), (2i64, 3i64)],
        ],
        texts(g.labels_0@) == seq!["Opera"@, "Football"@],
        texts(g.labels_1@) == seq!["Opera"@, "Football"@],
        g.well_formed(),
{
    let row_0: Vec<(Payoff, Payoff)> = vec![(3, 2), (0, 0)];
    let row_1: Vec<(Payoff, Payoff)> = vec![(0, 0), (2, 3)];
    let ghost v0 = row_0@;
    let ghost v1 = row_1@;
    let ghost rows = seq![row_0, row_1];
    let labels_0: Vec<&str> = vec!["Opera", "Football"];
    let labels_1: Vec<&str> = vec!["Opera", "Football"];
    let g = NormalFormGame::with_labels(vec![row_0, row_1], labels_0, labels_1);
    assert(g.payoffs@[0]@ == v0 && g.payoffs@[1]@ == v1);
    assert(matrix_view(g.payoffs@) =~= seq![v0, v1]);
    g
}

/// Matching Pennies: zero-sum game.
pub fn matching_pennies() -> (g: NormalFormGame)
    ensures
        g.n_strategies@ == seq![2usize, 2usize],
        matrix_view(g.payoffs@) == seq![
            seq![(1i64, -1i64), (-1i64, 1i64)],
            seq![(-1i64, 1i64), (1i64, -1i64)],
        ],
        texts(g.labels_0@) == seq!["Heads"@, "Tails"@],
        texts(g.labels_1@) == seq!["Heads"@, "Tails"@],
        g.well_formed(),
{
    let row_0: Vec<(Payoff, Payoff)> = vec![(1, -1), (-1, 1)];
    let row_1: Vec<(Payoff, Payoff)> = vec![(-1, 1), (1, -1)];
    let ghost v0 = row_0@;
    let ghost v1 = row_1@;
    let ghost rows = seq![row_0, row_1];
    let labels_0: Vec<&str> = vec!["Heads", "Tails"];
    let labels_1: Vec<&str> = vec!["Heads", "Tails"];
    let g = NormalFormGame::with_labels(vec![row_0, row_1], labels_0, labels_1);
    assert(g.payoffs@[0]@ == v0 && g.payoffs@[1]@ == v1);
    assert(matrix_view(g.payoffs@) =~= seq![v0, v1]);
    g
}

/// Stag Hunt: assurance game.
pub fn stag_hunt() -> (g: NormalFormGame)
    ensures
        g.n_strategies@ == seq![2usize, 2usize],
        matrix_view(g.payoffs@) == seq![
            seq![(4i64, 4i64), (0i64, 3i64)],
            seq![(3i64, 0i64), (2i64, 2i64)],
        ],
        texts(g.labels_0@) == seq!["Stag"@, "Hare"@],
        texts(g.labels_1@) == seq!["Stag"@, "Hare"@],
        g.well_formed(),
{
    let row_0: Vec<(Payoff, Payoff)> = vec![(4, 4), (0, 3)];
    let row_1: Vec<(Payoff, Payoff)> = vec![(3, 0), (2, 2)];
    let ghost v0 = row_0@;
    let ghost v1 = row_1@;
    let ghost rows = seq![row_0, row_1];
    let labels_0: Vec<&str> = vec!["Stag", "Hare"];
    let labels_1: Vec<&str> = vec!["Stag", "Hare"];
    let g = NormalFormGame::with_labels(vec![row_0, row_1], labels_0, labels_1);
    assert(g.payoffs@[0]@ == v0 && g.payoffs@[1]@ == v1);
    assert(matrix_view(g.payoffs@) =~= seq![v0, v1]);
    g
}

/// Chicken (Hawk-Dove): anti-coordination game.
pub fn chicken() -> (g: NormalFormGame)
    ensures
        g.n_strategies@ == seq![2usize, 2usize],
        matrix_view(g.payoffs@) == seq![
            seq![(0i64, 0i64), (-1i64, 1i64)],
            seq![(1i64, -1i64), (-10i64, -10i64)],
        ],
        texts(g.labels_0@) == seq!["Swerve"@, "Straight"@],
        texts(g.labels_1@) == seq!["Swerve"@, "Straight"@],
        g.well_formed(),
{
    let row_0: Vec<(Payoff, Payoff)> = vec![(0, 0), (-1, 1)];
    let row_1: Vec<(Payoff, Payoff)> = vec![(1, -1), (-10, -10)];
    let ghost v0 = row_0@;
    let ghost v1 = row_1@;
    let ghost rows = seq![row_0, row_1];
    let labels_0: Vec<&str> = vec!["Swerve", "Straight"];
    let labels_1: Vec<&str> = vec!["Swerve", "Straight"];
    let g = NormalFormGame::with_labels(vec![row_0, row_1], labels_0, labels_1);
    assert(g.payoffs@[0]@ == v0 && g.payoffs@[1]@ == v1);
    assert(matrix_view(g.payoffs@) =~= seq![v0, v1]);
    g
}

} // verus!
