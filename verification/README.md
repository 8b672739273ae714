# normal_form

A verified library for two-player normal-form (strategic) games, written in
Verus.

- `game`: the `NormalFormGame` payoff matrix, its constructors, the classic
  2x2 games, the list of all pure profiles, and its textual form.
- `strategy`: strategy profiles, payoff extraction and best responses.
- `dominance`: strict and weak dominance, strictly dominant strategies and
  iterated elimination of strictly dominated strategies (IESDS).
- `nash`: pure-strategy Nash equilibria, and those that survive IESDS.
- `pareto`: Pareto dominance, Pareto optimal outcomes, the Pareto frontier and
  the outcome of maximal social welfare.
- `seqs`, `text`: facts about filtered sequences, decimal rendering and
  column alignment.

Payoffs are `i64` integers, so every comparison the analyses make is exact.
Each public function states its result over spec functions of the game
(`best_replies`, `iesds_survivors`, `nash_profiles`, `pareto_profiles`, ...),
and proof functions state the laws that relate them, for example that no
pure Nash equilibrium strategy is ever eliminated by IESDS.
