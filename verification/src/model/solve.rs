//! Choosing a cell, collapsing it, and the run that does so cell by cell.
use vstd::prelude::*;
use crate::census::{count_true, lemma_census_bounds, lemma_census_same, lemma_count_at_most_one};
use crate::census::lemma_undecided_shrinks;
use crate::model::{Heuristic, Model, no_gap, SimpleTiled};
use crate::random::{draw, generator_state, random_from_distr, seeded, spec_draw, spec_drawn};
use crate::random::spec_random_from_distr;
use crate::rules::first_marked;
use crate::select::{candidate, lemma_first_candidate, lemma_scan_finds_least, Pick};
use crate::select::{spec_first_candidate, spec_scan};
use rand_chacha::ChaCha8Rng;

verus! {

impl SimpleTiled {
    /// The cell to collapse next, by the heuristic of the solver; none if no cell has more
    /// than one possible variant left.
    pub fn next_unobserved_node(&mut self, rng: &mut ChaCha8Rng) -> (node: Option<usize>)
        requires
            old(self).wf(),
            old(self).counts_ok(),
        ensures
            old(self).agrees(final(self)),
            final(self).observations() == old(self).observations(),
            old(self).scans_in_line() ==> {
                &&& node is Some == old(self).first_candidate() is Some
                &&& node matches Some(i) ==> i == old(self).first_candidate()->0
                &&& node matches Some(i) ==> final(self).pointer() == i + 1
                &&& node is None ==> final(self).pointer() == old(self).pointer()
                &&& generator_state(*final(rng)) == generator_state(*old(rng))
            },
            !old(self).scans_in_line() ==> {
                let found = old(self).scan(generator_state(*old(rng)));
                &&& node is Some == found.0 is Some
                &&& node matches Some(i) ==> i == found.0->0.cell
                &&& final(self).pointer() == old(self).pointer()
                &&& generator_state(*final(rng)) == found.1
            },
            node matches Some(i) ==> i < old(self).cells() && old(self).options(i as int) > 1,
            node is None ==> forall|j: int|
                (if old(self).scans_in_line() {
                    old(self).pointer()
                } else {
                    0
                }) <= j < old(self).cells() ==> old(self).options(j) <= 1,
    {
        let ghost before = *self;
        let cells = self.wave.len();
        if self.heuristic == Heuristic::ScanLine {
            let mut i: usize = self.observed_so_far;
            proof {
                lemma_first_candidate(
                    self.width as int,
                    self.height as int,
                    self.periodic,
                    self.sums_of_ones@,
                    self.observed_so_far as int,
                );
                if self.first_candidate() is None {
                    assert forall|j: int|
                        self.observed_so_far <= j < self.cells() implies self.sums_of_ones[j]
                        <= 1 by {
                        crate::grid::lemma_cell_coordinates(self.width as int, self.height as int, j);
                        assert(!candidate(
                            self.width as int,
                            self.height as int,
                            self.periodic,
                            self.sums_of_ones@,
                            j,
                        ));
                    }
                }
            }
            while i < cells
                invariant
                    *self == before,
                    before == *old(self),
                    *rng == *old(rng),
                    self.wf(),
                    self.heuristic == Heuristic::ScanLine,
                    cells == self.cells(),
                    self.observed_so_far <= i,
                    self.first_candidate() is None ==> forall|j: int|
                        self.observed_so_far <= j < self.cells() ==> self.sums_of_ones[j] <= 1,
                    self.first_candidate() == spec_first_candidate(
                        self.width as int,
                        self.height as int,
                        self.periodic,
                        self.sums_of_ones@,
                        i as int,
                    ),
                decreases cells - i,
            {
                if crate::grid::eligible(self.width, self.height, self.periodic, i)
                    && self.sums_of_ones[i] > 1 {
                    self.observed_so_far = i + 1;
                    return Some(i);
                }
                i = i + 1;
            }
            None
        } else {
            let ghost start = generator_state(*rng);
            let ghost mut pick: Option<Pick> = None;
            let mut best: Option<(i64, u64, usize)> = None;
            let mut i: usize = 0;
            proof {
                lemma_scan_finds_least(
                    self.heuristic,
                    self.width as int,
                    self.height as int,
                    self.periodic,
                    self.sums_of_ones@,
                    self.entropies@,
                    0,
                    None,
                    start,
                );
                if self.scan(start).0 is None {
                    assert forall|j: int| 0 <= j < self.cells() implies self.sums_of_ones[j]
                        <= 1 by {
                        crate::grid::lemma_cell_coordinates(self.width as int, self.height as int, j);
                        assert(!candidate(
                            self.width as int,
                            self.height as int,
                            self.periodic,
                            self.sums_of_ones@,
                            j,
                        ));
                    }
                }
            }
            while i < cells
                invariant
                    *self == before,
                    before == *old(self),
                    self.wf(),
                    self.counts_ok(),
                    self.heuristic != Heuristic::ScanLine,
                    cells == self.cells(),
                    i <= cells,
                    self.scan(start).0 is None ==> forall|j: int|
                        0 <= j < self.cells() ==> self.sums_of_ones[j] <= 1,
                    self.scan(start).0 matches Some(p) ==> 0 <= p.cell < self.cells()
                        && self.sums_of_ones[p.cell] > 1,
                    self.scan(start) == spec_scan(
                        self.heuristic,
                        self.width as int,
                        self.height as int,
                        self.periodic,
                        self.sums_of_ones@,
                        self.entropies@,
                        i as int,
                        pick,
                        generator_state(*rng),
                    ),
                    best is Some == pick is Some,
                    best matches Some(b) ==> b.0 == pick->0.score && b.1 == pick->0.noise && b.2
                        == pick->0.cell,
                decreases cells - i,
            {
                proof {
                    assert(self.cell_counted(i as int));
                    lemma_census_bounds(
                        self.tiles@,
                        self.weight_log_weights@,
                        self.wave[i as int]@,
                        self.count(),
                    );
                }
                let score: i64 = if self.heuristic == Heuristic::Entropy {
                    self.entropies[i]
                } else {
                    self.sums_of_ones[i] as i64
                };
                let in_reach = match best {
                    None => true,
                    Some(b) => score <= b.0,
                };
                if crate::grid::eligible(self.width, self.height, self.periodic, i)
                    && self.sums_of_ones[i] > 1 && in_reach {
                    let noise = draw(rng);
                    let wins = match best {
                        None => true,
                        Some(b) => score < b.0 || (score == b.0 && noise < b.1),
                    };
                    if wins {
                        best = Some((score, noise, i));
                        proof {
                            pick = Some(Pick { score: score as int, noise: noise as int, cell: i as int });
                        }
                    }
                }
                i = i + 1;
            }
            match best {
                Some(b) => Some(b.2),
                None => None,
            }
        }
    }

    /// Collapses cell `node`: draws one of its possible variants by weight and removes the
    /// others.
    pub fn observe(&mut self, node: usize, rng: &mut ChaCha8Rng)
        requires
            old(self).wf(),
            old(self).counts_ok(),
            old(self).stack_ok(),
            old(self).support_ok(no_gap()),
            old(self).nourished(),
            node < old(self).cells(),
        ensures
            final(self).wf(),
            final(self).same_rules(old(self)),
            final(self).counts_ok(),
            final(self).stack_ok(),
            final(self).support_ok(no_gap()),
            final(self).nourished(),
            final(self).observations() == old(self).observations(),
            final(self).pointer() == old(self).pointer(),
            generator_state(*final(rng)) == spec_drawn(generator_state(*old(rng))),
            ({
                let r = spec_draw(generator_state(*old(rng)));
                let k = spec_random_from_distr(old(self).distribution(old(self).row(node as int)), r);
                forall|t: int|
                    0 <= t < old(self).count() ==> #[trigger] final(self).live(node as int, t) == (old(
                        self,
                    ).live(node as int, t) && t == k)
            }),
            forall|j: int, t: int|
                0 <= j < old(self).cells() && j != node && 0 <= t < old(self).count()
                    ==> #[trigger] final(self).live(j, t) == old(self).live(j, t),
            final(self).within(old(self)),
            final(self).options(node as int) <= 1,
            forall|j: int|
                0 <= j < old(self).cells() && j != node ==> final(self).options(j) == old(self).options(
                    j,
                ),
    {
        let ghost before = *self;
        let ghost row = self.wave[node as int]@;
        let mut distribution: Vec<u32> = Vec::new();
        let mut t: usize = 0;
        while t < self.num_tiles
            invariant
                *self == before,
                self.wf(),
                node < self.cells(),
                row == self.wave[node as int]@,
                t <= self.num_tiles,
                distribution.len() == t,
                forall|u: int|
                    0 <= u < t ==> #[trigger] distribution[u] == if row[u] {
                        self.tiles[u].weight
                    } else {
                        0u32
                    },
            decreases self.num_tiles - t,
        {
            distribution.push(
                if self.wave[node][t] {
                    self.tiles[t].weight
                } else {
                    0
                },
            );
            t = t + 1;
        }
        assert(distribution@ =~= self.distribution(row));
        let r = draw(rng);
        let k = random_from_distr(&distribution, r);
        proof {
            self.lemma_agreement(self, no_gap());
        }
        let mut t: usize = 0;
        while t < self.num_tiles
            invariant
                before == *old(self),
                before.wf(),
                node < self.cells(),
                t <= self.num_tiles,
                self.wf(),
                self.same_rules(&before),
                self.within(&before),
                self.counts_ok(),
                self.stack_ok(),
                self.support_ok(no_gap()),
                self.nourished(),
                self.observed@ == before.observed@,
                self.observed_so_far == before.observed_so_far,
                forall|u: int|
                    0 <= u < t ==> #[trigger] self.live(node as int, u) == (before.live(node as int, u)
                        && u == k),
                forall|u: int|
                    t <= u < self.count() ==> #[trigger] self.live(node as int, u) == before.live(
                        node as int,
                        u,
                    ),
                forall|j: int, u: int|
                    0 <= j < self.cells() && j != node && 0 <= u < self.count()
                        ==> #[trigger] self.live(j, u) == before.live(j, u),
                forall|j: int|
                    0 <= j < self.cells() && j != node ==> self.options(j) == before.options(j),
            decreases self.num_tiles - t,
        {
            if self.wave[node][t] && t != k {
                let ghost step = *self;
                self.ban(node, t);
                proof {
                    step.lemma_ban_keeps_support(self, no_gap(), node as int, t as int);
                    step.lemma_banned_within(self, &before, node as int, t as int);
                    assert forall|j: int, u: int, e: int|
                        0 <= j < self.cells() && 0 <= u < self.count() && 0 <= e < 4
                            && self.wave[j][u] && self.source(j, e) is Some implies #[trigger] self.compatible[j][u][e]
                        >= 1 by {
                        assert(step.wave[j][u]);
                        assert(self.compatible[j][u][e] == step.compatible[j][u][e]);
                    }
                    assert forall|u: int| 0 <= u < t + 1 implies #[trigger] self.live(node as int, u)
                        == (before.live(node as int, u) && u == k) by {
                        assert(self.wave[node as int][u] == (step.wave[node as int][u] && !(u == t)));
                        assert(step.live(node as int, u) == step.wave[node as int][u]);
                    }
                    assert forall|u: int| t + 1 <= u < self.count() implies #[trigger] self.live(
                        node as int,
                        u,
                    ) == before.live(node as int, u) by {
                        assert(self.wave[node as int][u] == (step.wave[node as int][u] && !(u == t)));
                        assert(step.live(node as int, u) == step.wave[node as int][u]);
                    }
                    assert forall|j: int, u: int|
                        0 <= j < self.cells() && j != node && 0 <= u < self.count() implies #[trigger] self.live(
                        j,
                        u,
                    ) == before.live(j, u) by {
                        assert(self.wave[j][u] == (step.wave[j][u] && !(j == node && u == t)));
                        assert(step.live(j, u) == step.wave[j][u]);
                    }
                }
            }
            t = t + 1;
        }
        proof {
            assert(self.cell_counted(node as int));
            assert forall|u: int| 0 <= u < self.count() && self.wave[node as int]@[u] implies u
                == k by {
                assert(self.live(node as int, u));
            }
            lemma_count_at_most_one(self.wave[node as int]@, k as int, self.count());
        }
    }

    /// Records for every cell the first variant that is possible there.
    fn record(&mut self)
        requires
            old(self).wf(),
            old(self).counts_ok(),
            forall|i: int| 0 <= i < old(self).cells() ==> old(self).options(i) == 1,
        ensures
            old(self).agrees(final(self)),
            final(self).pointer() == old(self).pointer(),
            final(self).complete(),
            forall|i: int|
                0 <= i < old(self).cells() ==> #[trigger] final(self).observations()[i] == Some(
                    first_marked(old(self).row(i), 0) as usize,
                ),
    {
        let ghost before = *self;
        let cells = self.wave.len();
        let mut i: usize = 0;
        while i < cells
            invariant
                before == *old(self),
                before.wf(),
                before.counts_ok(),
                forall|j: int| 0 <= j < before.cells() ==> before.options(j) == 1,
                i <= cells,
                cells == self.cells(),
                before.agrees(self),
                self.observed_so_far == before.observed_so_far,
                forall|j: int|
                    0 <= j < i ==> {
                        &&& (#[trigger] self.observed[j]) is Some
                        &&& self.observed[j]->0 < self.num_tiles
                        &&& self.wave[j][self.observed[j]->0 as int]
                        &&& self.observed[j]->0 == first_marked(self.wave[j]@, 0)
                    },
            decreases cells - i,
        {
            let mut t: usize = 0;
            proof {
                assert(before.cell_counted(i as int));
                assert(before.options(i as int) == 1);
            }
            while t < self.num_tiles && !self.wave[i][t]
                invariant
                    i < cells,
                    cells == self.cells(),
                    before.agrees(self),
                    before.wf(),
                    t <= self.num_tiles,
                    count_true(self.wave[i as int]@, self.count()) == 1,
                    forall|u: int| 0 <= u < t ==> !self.wave[i as int]@[u],
                    first_marked(self.wave[i as int]@, 0) == first_marked(self.wave[i as int]@, t as int),
                decreases self.num_tiles - t,
            {
                t = t + 1;
            }
            proof {
                if t == self.num_tiles {
                    lemma_census_same(
                        self.tiles@,
                        self.weight_log_weights@,
                        self.wave[i as int]@,
                        Seq::new(self.count() as nat, |u: int| false),
                        self.count(),
                    );
                    Self::lemma_empty_count(self.count(), self.count());
                }
            }
            self.observed[i] = Some(t);
            i = i + 1;
        }
        proof {
            assert forall|j: int| 0 <= j < self.cells() implies {
                &&& #[trigger] self.sums_of_ones[j] == 1
                &&& self.observed[j] is Some
                &&& self.observed[j]->0 < self.num_tiles
                &&& self.wave[j][self.observed[j]->0 as int]
            } by {
                assert(before.options(j) == 1);
            }
        }
    }
}

impl Model for SimpleTiled {
    open spec fn ready(&self) -> bool {
        self.wf()
    }

    /// Clears the solver, removes what can have no neighbour, and then collapses cell after
    /// cell, propagating after each, until no cell has more than one possible variant left,
    /// a cell has none, or `limit` cells were collapsed.
    fn run(&mut self, seed: u64, limit: usize) -> (success: bool)
        ensures
            final(self).same_rules(old(self)),
            final(self).counts_ok(),
            final(self).stack_ok(),
            success == !final(self).contradicted(),
            success ==> final(self).support_ok(no_gap()),
            success ==> final(self).nourished(),
            success ==> final(self).bans().len() == 0,
            success ==> final(self).solved() || (final(self).unobserved() && final(self).open_cells()
                + limit <= final(self).cells()),
            success && limit > old(self).cells() ==> final(self).solved(),
            !success ==> final(self).unobserved(),
            final(self).open_cells() >= 0,
            final(self).observed_ok(),
            success == old(self).rules().run(seed, limit as nat).success,
            final(self).observations() == old(self).rules().observed(
                old(self).rules().run(seed, limit as nat),
            ),
            success ==> final(self).rows() == old(self).rules().run(seed, limit as nat).wave,
    {
        let ghost before = *self;
        let ghost rules = self.rules();
        let ghost outcome = rules.run(seed, limit as nat);
        self.clear();
        let ghost cleared = *self;
        let mut rng = seeded(seed);
        proof {
            before.lemma_same_rules(self);
            self.lemma_cleared_rows();
        }
        proof {
            lemma_undecided_shrinks(
                self.sums_of_ones@,
                self.sums_of_ones@,
                0,
                self.sums_of_ones.len() as int,
            );
        }
        if !self.ban_unsupported() {
            proof {
                before.lemma_same_rules(self);
                self.lemma_nothing_observed(outcome);
                lemma_undecided_shrinks(
                    self.sums_of_ones@,
                    self.sums_of_ones@,
                    0,
                    self.sums_of_ones.len() as int,
                );
            }
            return false;
        }
        let ghost weeded = *self;
        proof {
            before.lemma_same_rules(self);
            self.lemma_within_rows(&cleared);
            self.lemma_kernel_within_rows(cleared.rows());
            crate::grid::lemma_cells_nonnegative(self.width as int, self.height as int);
            self.lemma_rules_agree();
            rules.lemma_kernel_between(cleared.rows(), self.rows());
        }
        if !self.propagate() {
            proof {
                before.lemma_same_rules(self);
                self.lemma_nothing_observed(outcome);
                lemma_undecided_shrinks(
                    self.sums_of_ones@,
                    self.sums_of_ones@,
                    0,
                    self.sums_of_ones.len() as int,
                );
            }
            return false;
        }
        proof {
            lemma_undecided_shrinks(
                self.sums_of_ones@,
                self.sums_of_ones@,
                0,
                self.sums_of_ones.len() as int,
            );
        }
        proof {
            before.lemma_same_rules(self);
        }
        let mut steps: usize = 0;
        while steps < limit
            invariant
                before == *old(self),
                rules == before.rules(),
                rules == self.rules(),
                outcome == rules.run(seed, limit as nat),
                outcome == rules.run_from(
                    self.rows(),
                    generator_state(rng),
                    (limit - steps) as nat,
                ),
                steps <= limit,
                self.wf(),
                self.same_rules(&before),
                self.counts_ok(),
                self.stack_ok(),
                self.support_ok(no_gap()),
                self.nourished(),
                self.stack.len() == 0,
                !self.contradiction,
                self.unobserved(),
                self.heuristic == Heuristic::ScanLine ==> forall|j: int|
                    0 <= j < self.observed_so_far && j < self.cells() ==> self.sums_of_ones[j] <= 1,
                0 <= self.open_cells(),
                self.open_cells() + steps <= self.cells(),
            decreases limit - steps,
        {
            let ghost top = *self;
            let ghost drawn = generator_state(rng);
            let next = self.next_unobserved_node(&mut rng);
            let ghost chosen = *self;
            proof {
                top.lemma_agreement(self, no_gap());
                top.lemma_same_rows(self);
                top.lemma_choice_matches(drawn);
            }
            match next {
                None => {
                    proof {
                        assert forall|i: int| 0 <= i < self.cells() implies self.options(i) == 1 by {
                            assert(top.options(i) <= 1);
                            assert(self.sums_of_ones[i] != 0);
                        }
                    }
                    self.record();
                    proof {
                        chosen.lemma_same_rows(self);
                        self.lemma_rules_agree();
                        assert(self.observed@ =~= rules.observed(outcome)) by {
                            assert forall|i: int| 0 <= i < self.cells() implies self.observed@[i]
                                == rules.observed(outcome)[i] by {
                                assert(self.observations()[i] == Some(
                                    first_marked(chosen.row(i), 0) as usize,
                                ));
                            }
                        }
                        assert forall|i: int| 0 <= i < self.observed.len() implies ((
                        #[trigger] self.observed[i]) matches Some(k) ==> k < self.num_tiles) by {
                            assert(self.sums_of_ones[i] == 1);
                        }
                        chosen.lemma_agreement(self, no_gap());
                        lemma_undecided_shrinks(
                            self.sums_of_ones@,
                            self.sums_of_ones@,
                            0,
                            self.sums_of_ones.len() as int,
                        );
                    }
                    return true;
                },
                Some(node) => {
                    let ghost at = generator_state(rng);
                    self.observe(node, &mut rng);
                    let ghost collapsed = *self;
                    let fine = self.propagate();
                    proof {
                        let r = spec_draw(at);
                        let k = spec_random_from_distr(chosen.distribution(chosen.row(node as int)), r);
                        chosen.lemma_collapse_matches(&collapsed, node as int, k);
                        chosen.lemma_same_rules(&collapsed);
                        chosen.lemma_same_rules(self);
                        if !fine {
                            self.lemma_nothing_observed(outcome);
                        }
                        self.lemma_within_chain(&collapsed, &chosen);
                        lemma_undecided_shrinks(
                            self.sums_of_ones@,
                            self.sums_of_ones@,
                            0,
                            self.sums_of_ones.len() as int,
                        );
                    }
                    if !fine {
                        return false;
                    }
                    proof {
                        collapsed.lemma_within_options(&chosen);
                        self.lemma_within_options(&collapsed);
                        assert forall|j: int| 0 <= j < self.cells() implies self.sums_of_ones[j]
                            <= top.sums_of_ones[j] by {
                            assert(self.options(j) <= collapsed.options(j));
                            assert(collapsed.options(j) <= chosen.options(j));
                        }
                        lemma_undecided_shrinks(
                            top.sums_of_ones@,
                            self.sums_of_ones@,
                            node as int,
                            self.sums_of_ones.len() as int,
                        );
                        if self.heuristic == Heuristic::ScanLine {
                            lemma_first_candidate(
                                top.width as int,
                                top.height as int,
                                top.periodic,
                                top.sums_of_ones@,
                                top.observed_so_far as int,
                            );
                            assert forall|j: int|
                                0 <= j < self.observed_so_far && j < self.cells() implies self.sums_of_ones[j]
                                <= 1 by {
                                crate::grid::lemma_cell_coordinates(
                                    self.width as int,
                                    self.height as int,
                                    j,
                                );
                                if top.observed_so_far <= j < node {
                                    assert(!candidate(
                                        top.width as int,
                                        top.height as int,
                                        top.periodic,
                                        top.sums_of_ones@,
                                        j,
                                    ));
                                }
                                assert(self.sums_of_ones[j] <= top.sums_of_ones[j]);
                            }
                        }
                    }
                },
            }
            steps = steps + 1;
        }
        true
    }
}

} // verus!
