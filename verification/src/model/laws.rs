//! What holds of every solver, stated for its users.
use vstd::prelude::*;
use crate::census::{count_true, lemma_count_one, lemma_tally_bounds, lemma_tally_same, log_sum};
use crate::census::{tally, weight_sum};
use crate::config::{Config, spec_pairs};
use crate::entropy::spec_entropy;
use crate::grid::spec_opposite;
use crate::model::{Heuristic, no_gap, SimpleTiled};
use crate::text::spec_label;
use crate::tile::{expands, variant_matches};

verus! {

impl SimpleTiled {
    /// The sums that the solver records for a cell are those of the variants that are
    /// possible there: their number, the sum of their weights, the sum of their weights
    /// times the logarithms of the weights, and the entropy that the two sums give.
    pub proof fn lemma_sums_are_right(&self, i: int)
        requires
            self.wf(),
            self.counts_ok(),
            0 <= i < self.cells(),
        ensures
            self.options(i) == count_true(self.row(i), self.count()),
            self.weight(i) == weight_sum(self.variants(), self.row(i), self.count()),
            self.weighted_logs(i) == log_sum(self.logs(), self.row(i), self.count()),
            self.entropy(i) == spec_entropy(self.weight(i), self.weighted_logs(i)),
            self.contradicted() ==> exists|j: int| 0 <= j < self.cells() && self.options(j) == 0,
            self.options(i) == 0 ==> self.contradicted(),
    {
        assert(self.cell_counted(i));
        if self.contradiction {
            let j = choose|j: int| 0 <= j < self.cells() && #[trigger] self.sums_of_ones[j] == 0;
            assert(self.options(j) == 0);
        }
    }

    /// While no removal waits, the counter of a variant that is possible at a cell holds,
    /// for each direction, the number of its supporters: the variants that may lie next to
    /// it in the opposite direction and are possible at the cell that the cell is the
    /// neighbour of. Where there is no such cell, the counter holds the length of the list.
    pub proof fn lemma_counters_are_right(&self, i: int, t: int, d: int)
        requires
            self.wf(),
            self.support_ok(no_gap()),
            self.bans().len() == 0,
            0 <= i < self.cells(),
            0 <= t < self.count(),
            0 <= d < 4,
            self.live(i, t),
        ensures
            self.counter(i, t, d) == match self.source(i, d) {
                Some(j) => tally(
                    self.list(spec_opposite(d), t),
                    self.row(j),
                    self.list(spec_opposite(d), t).len() as int,
                ),
                None => self.list(spec_opposite(d), t).len() as int,
            },
            self.source(i, d) == self.neighbor(i, spec_opposite(d)),
    {
        assert(self.entry_ok(no_gap(), i, t, d));
        self.lemma_source_in_grid(i, d);
        let list = self.list(spec_opposite(d), t);
        assert(crate::propagator::ascending(
            self.propagator.lists[spec_opposite(d)][t]@,
            self.count(),
        ));
        match self.source(i, d) {
            Some(j) => {
                assert forall|k: int| 0 <= k < list.len() implies self.present_row(j)[#[trigger] list[k] as int]
                    == self.row(j)[list[k] as int] by {
                    assert(list[k] < self.count());
                }
                lemma_tally_same(list, self.present_row(j), self.row(j), list.len() as int);
            },
            None => {},
        }
    }

    /// The adjacency relation of each direction is the converse of that of the opposite
    /// direction.
    pub proof fn lemma_adjacency_is_symmetric(&self, d: int, t1: int, t2: int)
        requires
            self.wf(),
            0 <= d < 4,
            0 <= t1 < self.count(),
            0 <= t2 < self.count(),
        ensures
            self.permits(d, t1, t2) <==> self.permits(spec_opposite(d), t2, t1),
    {
    }

    /// The first symmetry of the square, the turn by nothing, leaves every variant as it is.
    pub proof fn lemma_identity_fixes_variants(&self, t: int)
        requires
            self.wf(),
            0 <= t < self.count(),
        ensures
            self.action_table()[t][0] == t,
    {
    }

    /// In a solution every cell was observed to hold a variant that is possible there.
    pub proof fn lemma_solution_is_observed(&self, i: int)
        requires
            self.solved(),
            0 <= i < self.cells(),
        ensures
            self.observations()[i] is Some,
            self.observations()[i]->0 < self.count(),
            self.live(i, self.observations()[i]->0 as int),
            self.options(i) == 1,
    {
        assert(self.sums_of_ones[i] == 1);
    }

    /// In a solution every cell and its neighbour in any direction hold variants that may
    /// lie next to each other in that direction.
    pub proof fn lemma_solution_respects_adjacency(&self, i: int, j: int, d: int)
        requires
            self.solved(),
            0 <= i < self.cells(),
            0 <= d < 4,
            self.neighbor(i, d) == Some(j),
        ensures
            0 <= j < self.cells(),
            self.permits(d, self.observations()[i]->0 as int, self.observations()[j]->0 as int),
    {
        crate::grid::lemma_neighbor_in_grid(
            self.width as int,
            self.height as int,
            self.periodic,
            i,
            d,
        );
        self.lemma_solution_is_observed(i);
        self.lemma_solution_is_observed(j);
        let ti = self.observed[i]->0 as int;
        let tj = self.observed[j]->0 as int;
        self.lemma_source_in_grid(j, d);
        assert(self.source(j, d) == Some(i));
        assert(self.compatible[j][tj][d] >= 1);
        self.lemma_counters_are_right(j, tj, d);
        let o = spec_opposite(d);
        let list = self.list(o, tj);
        lemma_tally_bounds(list, self.row(i), list.len() as int);
        let k = choose|k: int| 0 <= k < list.len() && self.row(i)[#[trigger] list[k] as int];
        assert(crate::propagator::ascending(self.propagator.lists[o][tj]@, self.count()));
        assert(list[k] < self.count());
        assert(self.cell_counted(i));
        lemma_count_one(self.row(i), ti, self.count());
        assert(list[k] == ti);
        assert(list.contains(ti as usize));
        assert(self.propagator.permits(o, tj, ti));
    }

    /// Two cleared solvers with the same rules are in the same state: clearing twice gives
    /// what clearing once gives.
    pub proof fn lemma_cleared_is_unique(&self, other: &SimpleTiled)
        requires
            self.wf(),
            other.wf(),
            self.same_rules(other),
            self.is_cleared(),
            other.is_cleared(),
        ensures
            self.same_state(other),
    {
        assert forall|i: int, t: int| 0 <= i < self.cells() && 0 <= t < self.count() implies #[trigger] self.live(
            i,
            t,
        ) == other.live(i, t) by {
            assert(self.cell_cleared(i));
            assert(other.cell_cleared(i));
        }
        assert forall|i: int, t: int, d: int|
            0 <= i < self.cells() && 0 <= t < self.count() && 0 <= d < 4 implies #[trigger] self.counter(
            i,
            t,
            d,
        ) == other.counter(i, t, d) by {
            assert(self.cell_cleared(i));
            assert(other.cell_cleared(i));
        }
        assert forall|i: int| 0 <= i < self.cells() implies self.observed@[i] == other.observed@[i]
            && self.sums_of_ones@[i] == other.sums_of_ones@[i] && self.sums_of_weights@[i]
            == other.sums_of_weights@[i] && self.sums_of_weight_log_weights@[i]
            == other.sums_of_weight_log_weights@[i] && self.entropies@[i] == other.entropies@[i] by {
            assert(self.cell_cleared(i));
            assert(other.cell_cleared(i));
        }
        assert(self.observed@ =~= other.observed@);
        assert(self.sums_of_ones@ =~= other.sums_of_ones@);
        assert(self.sums_of_weights@ =~= other.sums_of_weights@);
        assert(self.sums_of_weight_log_weights@ =~= other.sums_of_weight_log_weights@);
        assert(self.entropies@ =~= other.entropies@);
        assert(self.stack@ =~= other.stack@);
    }

    /// Two solvers made of the same configuration with the same keys, for the same grid and
    /// with the same heuristic, are made for the same.
    pub proof fn lemma_same_making(
        &self,
        other: &SimpleTiled,
        config: Config,
        keys: Seq<Seq<char>>,
        width: usize,
        height: usize,
        periodic: bool,
        heuristic: Heuristic,
    )
        requires
            self.wf(),
            other.wf(),
            self.made_of(config, keys, width, height, periodic, heuristic),
            other.made_of(config, keys, width, height, periodic, heuristic),
        ensures
            self.rules() == other.rules(),
    {
        let tiles = config.tiles@;
        assert forall|t: int| 0 <= t < self.tiles.len() implies self.tiles@[t] == other.tiles@[t]
            && self.action@[t] == other.action@[t] by {
            assert(variant_matches(self.action@, self.tiles@, tiles, t));
            assert(variant_matches(other.action@, other.tiles@, tiles, t));
            let a = self.tiles@[t];
            let b = other.tiles@[t];
            let j = a.source as int;
            let m = b.source as int;
            crate::tile::lemma_base_grows(tiles, j, tiles.len() as int);
            crate::tile::lemma_base_grows(tiles, m, tiles.len() as int);
            if j < m {
                crate::tile::lemma_base_grows(tiles, j, m);
            } else if m < j {
                crate::tile::lemma_base_grows(tiles, m, j);
            }
            assert(j == m);
            assert(a.orientation() == b.orientation());
            assert(a.turns == b.turns && a.mirrored == b.mirrored);
            assert(self.action@[t] =~= other.action@[t]);
        }
        assert(self.tiles@ =~= other.tiles@);
        assert(self.action@ =~= other.action@);
        assert forall|t: int| 0 <= t < self.weight_log_weights.len() implies self.weight_log_weights@[t]
            == other.weight_log_weights@[t] by {
            assert(self.tiles@[t] == other.tiles@[t]);
        }
        assert(self.weight_log_weights@ =~= other.weight_log_weights@);
        let pairs = spec_pairs(tiles, keys, config.neighbors@);
        assert forall|d: int, t: int| 0 <= d < 4 && 0 <= t < self.count() implies self.propagator.lists[d][t]@
            == other.propagator.lists[d][t]@ by {
            let first = self.propagator.lists[d][t]@;
            let second = other.propagator.lists[d][t]@;
            assert(crate::propagator::ascending(first, self.count()));
            assert(crate::propagator::ascending(second, self.count()));
            assert forall|x: usize| first.contains(x) <==> second.contains(x) by {
                if first.contains(x) {
                    let k = choose|k: int| 0 <= k < first.len() && first[k] == x;
                    assert(first[k] < self.count());
                    assert(self.propagator.permits(d, t, x as int));
                    assert(other.propagator.permits(d, t, x as int));
                }
                if second.contains(x) {
                    let k = choose|k: int| 0 <= k < second.len() && second[k] == x;
                    assert(second[k] < self.count());
                    assert(other.propagator.permits(d, t, x as int));
                    assert(self.propagator.permits(d, t, x as int));
                }
            }
            crate::propagator::lemma_ascending_same(first, second, self.count());
        }
        assert(self.rules().lists =~~= other.rules().lists);
    }

    /// Two solvers that are made for the same come to the same end when they are run with
    /// the same seed and the same limit, and observe the same.
    pub proof fn lemma_same_rules_same_run(&self, other: &SimpleTiled, seed: u64, limit: nat)
        requires
            self.rules() == other.rules(),
        ensures
            self.rules().run(seed, limit) == other.rules().run(seed, limit),
            self.rules().observed(self.rules().run(seed, limit)) == other.rules().observed(
                other.rules().run(seed, limit),
            ),
    {
    }

    /// What it means that a solver is cleared: every variant is possible at every cell,
    /// every counter holds the length of its list, every cell has all options and is not
    /// observed, no removal waits and no contradiction was found.
    pub proof fn lemma_cleared_means(&self, i: int, t: int, d: int)
        requires
            self.wf(),
            self.is_cleared(),
            0 <= i < self.cells(),
            0 <= t < self.count(),
            0 <= d < 4,
        ensures
            self.live(i, t),
            self.counter(i, t, d) == self.list(spec_opposite(d), t).len(),
            self.options(i) == self.count(),
            self.observations()[i] is None,
            self.bans().len() == 0,
            self.pointer() == 0,
            !self.contradicted(),
    {
        assert(self.cell_cleared(i));
    }

    /// What a removal changes: the variant is no longer possible at the cell, its four
    /// counters are 0 and the removal waits; nothing else about the wave, the counters and
    /// the observations changes.
    pub proof fn lemma_banned_means(&self, after: &SimpleTiled, i: int, t: int, j: int, u: int, d: int)
        requires
            self.banned(after, i, t),
            0 <= j < self.cells(),
            0 <= u < self.count(),
            0 <= d < 4,
        ensures
            after.live(j, u) == (self.live(j, u) && !(j == i && u == t)),
            after.counter(j, u, d) == if j == i && u == t {
                0
            } else {
                self.counter(j, u, d)
            },
            after.bans() == self.bans().push((i as usize, t as usize)),
            after.observations() == self.observations(),
            after.pointer() == self.pointer(),
            after.same_rules(self),
    {
    }

    /// What it means that two solvers have the same rules: the same grid, the same variants
    /// and labels, the same action table, the same adjacency lists and the same heuristic.
    pub proof fn lemma_same_rules_means(&self, other: &SimpleTiled, d: int, t: int)
        requires
            self.same_rules(other),
        ensures
            self.spec_width() == other.spec_width(),
            self.spec_height() == other.spec_height(),
            self.cells() == other.cells(),
            self.wraps() == other.wraps(),
            self.rule() == other.rule(),
            self.count() == other.count(),
            self.variants() == other.variants(),
            self.labels() == other.labels(),
            self.logs() == other.logs(),
            self.action_table() == other.action_table(),
            self.list(d, t) == other.list(d, t),
            self.rules() == other.rules(),
    {
        assert(self.rules().lists =~~= other.rules().lists);
    }

    /// What the rules of a solver hold: its grid, its variants and its adjacency lists.
    pub proof fn lemma_rules_mean(&self, d: int, t: int)
        requires
            self.wf(),
            0 <= d < 4,
            0 <= t < self.count(),
        ensures
            self.rules().width == self.spec_width(),
            self.rules().height == self.spec_height(),
            self.rules().periodic == self.wraps(),
            self.rules().heuristic == self.rule(),
            self.rules().tiles == self.variants(),
            self.rules().logs == self.logs(),
            self.rules().lists[d][t] == self.list(d, t),
            self.cells() == self.spec_width() * self.spec_height(),
            self.count() == self.variants().len(),
            self.rows().len() == self.cells(),
    {
    }

    /// What it means that a solver is made of a configuration: its action table and its
    /// variants are those of the tiles, its adjacency lists hold what the declared pairs
    /// allow, and its labels are the keys with the numbers of the orientations.
    pub proof fn lemma_made_of_means(
        &self,
        config: Config,
        keys: Seq<Seq<char>>,
        width: usize,
        height: usize,
        periodic: bool,
        heuristic: Heuristic,
    )
        requires
            self.wf(),
            self.made_of(config, keys, width, height, periodic, heuristic),
        ensures
            self.spec_width() == width,
            self.spec_height() == height,
            self.wraps() == periodic,
            self.rule() == heuristic,
            expands(self.action_table(), self.variants(), config.tiles@),
            forall|d: int, t1: int, t2: int|
                0 <= d < 4 && 0 <= t1 < self.count() && 0 <= t2 < self.count() ==> (
                #[trigger] self.permits(d, t1, t2) <==> crate::propagator::spec_allowed(
                    self.action_table(),
                    spec_pairs(config.tiles@, keys, config.neighbors@),
                    d,
                    t1,
                    t2,
                )),
            forall|t: int|
                0 <= t < self.count() ==> (#[trigger] self.labels()[t])@ == spec_label(
                    keys[self.variants()[t].source as int],
                    self.variants()[t].orientation(),
                ),
    {
        assert forall|d: int, t1: int, t2: int|
            0 <= d < 4 && 0 <= t1 < self.count() && 0 <= t2 < self.count() implies (
        #[trigger] self.permits(d, t1, t2) <==> crate::propagator::spec_allowed(
            self.action_table(),
            spec_pairs(config.tiles@, keys, config.neighbors@),
            d,
            t1,
            t2,
        )) by {
            assert(self.propagator.permits(d, t1, t2) == self.permits(d, t1, t2));
        }
    }

    /// On a grid without cells there is nothing to contradict.
    pub proof fn lemma_empty_grid_is_consistent(&self)
        requires
            self.wf(),
            self.counts_ok(),
            self.cells() == 0,
        ensures
            !self.contradicted(),
            self.observations().len() == 0,
    {
    }
}

} // verus!
