//! Removing variants and propagating the removals.
use vstd::prelude::*;
use crate::census::{lemma_census_bounds, lemma_census_unmark, lemma_push_contains};
use crate::census::{lemma_total_nonnegative, lemma_total_update};
use crate::entropy::{entropy, ONE};
use crate::grid::spec_opposite;
use crate::model::{Gap, no_gap, SimpleTiled};

verus! {

impl SimpleTiled {
    /// Removes variant `t` from the variants that are possible at cell `i`.
    pub fn ban(&mut self, i: usize, t: usize)
        requires
            old(self).wf(),
            old(self).counts_ok(),
            old(self).stack_ok(),
            i < old(self).cells(),
            t < old(self).count(),
            old(self).live(i as int, t as int),
        ensures
            final(self).wf(),
            final(self).counts_ok(),
            final(self).stack_ok(),
            old(self).banned(final(self), i as int, t as int),
            final(self).options(i as int) == old(self).options(i as int) - 1,
            forall|j: int|
                0 <= j < old(self).cells() && j != i ==> final(self).options(j) == old(self).options(
                    j,
                ),
            final(self).remaining() == old(self).remaining() - 1,
            final(self).contradicted() == (old(self).contradicted() || final(self).options(i as int)
                == 0),
    {
        let ghost before = *self;
        let ghost count = self.num_tiles as int;
        let ghost row = self.wave[i as int]@;
        proof {
            assert(self.cell_counted(i as int));
            lemma_census_unmark(self.tiles@, self.weight_log_weights@, row, t as int, count);
            lemma_census_bounds(
                self.tiles@,
                self.weight_log_weights@,
                row.update(t as int, false),
                count,
            );
        }
        proof {
            lemma_total_update(
                self.sums_of_ones@,
                i as int,
                (self.sums_of_ones[i as int] - 1) as usize,
                self.sums_of_ones.len() as int,
            );
        }
        self.wave[i][t] = false;
        self.compatible[i][t][0] = 0;
        self.compatible[i][t][1] = 0;
        self.compatible[i][t][2] = 0;
        self.compatible[i][t][3] = 0;
        self.stack.push((i, t));
        self.sums_of_ones[i] = self.sums_of_ones[i] - 1;
        self.sums_of_weights[i] = self.sums_of_weights[i] - self.tiles[t].weight as u64;
        self.sums_of_weight_log_weights[i] = self.sums_of_weight_log_weights[i]
            - self.weight_log_weights[t] as u128;
        assert(self.sums_of_weight_log_weights[i as int] <= self.sums_of_weights[i as int] * (64
            * ONE));
        self.entropies[i] = entropy(self.sums_of_weights[i], self.sums_of_weight_log_weights[i]);
        if self.sums_of_ones[i] == 0 {
            self.contradiction = true;
        }
        proof {
            assert(self.wave[i as int]@ =~= row.update(t as int, false));
            assert forall|j: int| 0 <= j < self.cells() implies #[trigger] self.cell_counted(j) by {
                if j != i {
                    assert(before.cell_counted(j));
                    assert(self.wave[j] == before.wave[j]);
                }
            }
            assert forall|k: int| 0 <= k < self.stack.len() implies {
                let entry = #[trigger] self.stack[k];
                &&& entry.0 < self.cells()
                &&& entry.1 < self.num_tiles
                &&& !self.wave[entry.0 as int][entry.1 as int]
            } by {
                if k < before.stack.len() {
                    assert(self.stack[k] == before.stack[k]);
                }
            }
            assert(self.stack@.no_duplicates()) by {
                assert forall|a: int, b: int|
                    0 <= a < self.stack.len() && 0 <= b < self.stack.len() && a != b implies self.stack[a]
                    != self.stack[b] by {
                    if a < before.stack.len() && b < before.stack.len() {
                        assert(before.stack[a] != before.stack[b]);
                    } else if a < before.stack.len() {
                        assert(!before.wave[before.stack[a].0 as int][before.stack[a].1 as int]);
                    } else {
                        assert(!before.wave[before.stack[b].0 as int][before.stack[b].1 as int]);
                    }
                }
            }
            if before.contradiction {
                let j = choose|j: int| 0 <= j < before.cells() && #[trigger] before.sums_of_ones[j] == 0;
                assert(j != i);
                assert(self.sums_of_ones[j] == 0);
            }
            if self.contradiction && !before.contradiction {
                assert(self.sums_of_ones[i as int] == 0);
            }
        }
    }

    /// Makes every variant possible at every cell again and forgets what was observed.
    pub fn clear(&mut self)
        requires
            old(self).wf(),
        ensures
            final(self).wf(),
            final(self).same_rules(old(self)),
            final(self).is_cleared(),
            final(self).counts_ok(),
            final(self).stack_ok(),
            final(self).support_ok(no_gap()),
            final(self).unobserved(),
            final(self).observed_ok(),
    {
        let ghost before = *self;
        let cells = self.wave.len();
        let mut i: usize = 0;
        while i < cells
            invariant
                i <= cells,
                cells == self.cells(),
                self.wf(),
                self.same_rules(&before),
                forall|j: int| 0 <= j < i ==> #[trigger] self.cell_cleared(j),
            decreases cells - i,
        {
            let mut t: usize = 0;
            while t < self.num_tiles
                invariant
                    i < cells,
                    cells == self.cells(),
                    t <= self.num_tiles,
                    self.wf(),
                    self.same_rules(&before),
                    forall|j: int| 0 <= j < i ==> #[trigger] self.cell_cleared(j),
                    forall|u: int| 0 <= u < t ==> #[trigger] self.wave[i as int][u],
                    forall|u: int, d: int|
                        0 <= u < t && 0 <= d < 4 ==> #[trigger] self.compatible[i as int][u][d]
                            == self.propagator.list(spec_opposite(d), u).len(),
                decreases self.num_tiles - t,
            {
                let ghost inner = *self;
                self.wave[i][t] = true;
                proof {
                    assert forall|j: int| 0 <= j < i implies #[trigger] self.cell_cleared(j) by {
                        assert(inner.cell_cleared(j));
                        assert(self.wave[j] == inner.wave[j]);
                    }
                }
                let mut d: usize = 0;
                while d < 4
                    invariant
                        i < cells,
                        cells == self.cells(),
                        t < self.num_tiles,
                        d <= 4,
                        self.wf(),
                        self.same_rules(&before),
                        self.wave[i as int][t as int],
                        forall|j: int| 0 <= j < i ==> #[trigger] self.cell_cleared(j),
                        forall|u: int| 0 <= u < t ==> #[trigger] self.wave[i as int][u],
                        forall|u: int, e: int|
                            0 <= u < t && 0 <= e < 4 ==> #[trigger] self.compatible[i as int][u][e]
                                == self.propagator.list(spec_opposite(e), u).len(),
                        forall|e: int|
                            0 <= e < d ==> #[trigger] self.compatible[i as int][t as int][e]
                                == self.propagator.list(spec_opposite(e), t as int).len(),
                    decreases 4 - d,
                {
                    let ghost step = *self;
                    let opp = crate::grid::opposite(d);
                    let supporters = self.propagator.lists[opp][t].len();
                    proof {
                        assert(crate::propagator::ascending(
                            self.propagator.lists[opp as int][t as int]@,
                            self.count(),
                        ));
                        crate::propagator::lemma_ascending_short(
                            self.propagator.lists[opp as int][t as int]@,
                            self.count(),
                        );
                    }
                    self.compatible[i][t][d] = supporters as i64;
                    proof {
                        assert forall|j: int| 0 <= j < i implies #[trigger] self.cell_cleared(j) by {
                            assert(step.cell_cleared(j));
                            assert(self.compatible[j] == step.compatible[j]);
                        }
                    }
                    d = d + 1;
                }
                proof {
                    assert forall|j: int| 0 <= j < i implies #[trigger] self.cell_cleared(j) by {
                        assert(inner.cell_cleared(j));
                    }
                }
                t = t + 1;
            }
            let ghost inner = *self;
            self.sums_of_ones[i] = self.num_tiles;
            self.sums_of_weights[i] = self.sum_of_weights;
            self.sums_of_weight_log_weights[i] = self.sum_of_weight_log_weights;
            self.entropies[i] = self.starting_entropy;
            self.observed[i] = None;
            proof {
                assert forall|j: int| 0 <= j < i + 1 implies #[trigger] self.cell_cleared(j) by {
                    if j < i {
                        assert(inner.cell_cleared(j));
                    }
                }
            }
            i = i + 1;
        }
        let ghost filled = *self;
        self.stack.clear();
        self.observed_so_far = 0;
        self.contradiction = false;
        proof {
            assert forall|j: int| 0 <= j < self.cells() implies #[trigger] self.cell_cleared(j) by {
                assert(filled.cell_cleared(j));
            }
            self.lemma_cleared_is_consistent();
            assert forall|j: int| 0 <= j < self.cells() implies (#[trigger] self.observed[j]) is None by {
                assert(self.cell_cleared(j));
            }
        }
    }

    /// Whether the three loops of the search for unsupported variants have passed the counter
    /// of variant `u` at cell `j` for direction `e` when they stand at `i`, `t` and `d`.
    pub closed spec fn passed(i: int, t: int, d: int, j: int, u: int, e: int) -> bool {
        j < i || (j == i && (u < t || (u == t && e < d)))
    }

    /// Removes every variant that cannot have a neighbour in some direction from the cells
    /// that have a neighbour there. Returns whether every cell still has a possible variant;
    /// stops as soon as one has none.
    pub fn ban_unsupported(&mut self) -> (ok: bool)
        requires
            old(self).wf(),
            old(self).counts_ok(),
            old(self).stack_ok(),
            old(self).support_ok(no_gap()),
            !old(self).contradicted(),
        ensures
            final(self).wf(),
            final(self).same_rules(old(self)),
            final(self).counts_ok(),
            final(self).stack_ok(),
            final(self).support_ok(no_gap()),
            final(self).observations() == old(self).observations(),
            final(self).pointer() == old(self).pointer(),
            ok == !final(self).contradicted(),
            ok ==> final(self).nourished(),
            ok ==> forall|i: int, t: int|
                0 <= i < old(self).cells() && 0 <= t < old(self).count()
                    ==> #[trigger] final(self).live(i, t) == (old(self).live(i, t) && !old(
                    self,
                ).starving(i, t)),
            forall|i: int, t: int, d: int|
                0 <= i < old(self).cells() && 0 <= t < old(self).count() && 0 <= d < 4
                    && final(self).live(i, t) ==> #[trigger] final(self).counter(i, t, d) == old(
                    self,
                ).counter(i, t, d),
            final(self).within(old(self)),
            final(self).upholds(old(self).rows()),
            !ok ==> old(self).rules().settle(old(self).rows()) is None,
    {
        let ghost before = *self;
        let cells = self.wave.len();
        let mut i: usize = 0;
        proof {
            self.lemma_agreement(self, no_gap());
            self.lemma_upholds_itself();
        }
        while i < cells
            invariant
                before == *old(self),
                before.wf(),
                i <= cells,
                cells == self.cells(),
                self.wf(),
                self.same_rules(&before),
                self.within(&before),
                self.upholds(before.rows()),
                self.observed_so_far == before.observed_so_far,
                self.observed@ == before.observed@,
                self.counts_ok(),
                self.stack_ok(),
                self.support_ok(no_gap()),
                !self.contradiction,
                forall|j: int, u: int, e: int|
                    0 <= j < self.cells() && 0 <= u < self.count() && 0 <= e < 4 && Self::passed(
                        i as int,
                        0,
                        0,
                        j,
                        u,
                        e,
                    ) ==> !#[trigger] self.hungry(j, u, e),
                forall|j: int, u: int, e: int|
                    0 <= j < self.cells() && 0 <= u < self.count() && 0 <= e < 4 && self.live(j, u)
                        ==> #[trigger] self.counter(j, u, e) == before.counter(j, u, e),
                forall|j: int, u: int|
                    0 <= j < i && 0 <= u < self.count() ==> #[trigger] self.live(j, u) == (
                    before.live(j, u) && !before.starving(j, u)),
                forall|j: int, u: int|
                    i <= j < self.cells() && 0 <= u < self.count() ==> #[trigger] self.live(j, u)
                        == before.live(j, u),
            decreases cells - i,
        {
            let mut t: usize = 0;
            while t < self.num_tiles
                invariant
                    before == *old(self),
                    before.wf(),
                    i < cells,
                    cells == self.cells(),
                    t <= self.num_tiles,
                    self.wf(),
                    self.same_rules(&before),
                    self.within(&before),
                    self.upholds(before.rows()),
                    self.observed_so_far == before.observed_so_far,
                    self.observed@ == before.observed@,
                    self.counts_ok(),
                    self.stack_ok(),
                    self.support_ok(no_gap()),
                    !self.contradiction,
                    forall|j: int, u: int, e: int|
                        0 <= j < self.cells() && 0 <= u < self.count() && 0 <= e < 4 && Self::passed(
                            i as int,
                            t as int,
                            0,
                            j,
                            u,
                            e,
                        ) ==> !#[trigger] self.hungry(j, u, e),
                    forall|j: int, u: int, e: int|
                        0 <= j < self.cells() && 0 <= u < self.count() && 0 <= e < 4 && self.live(
                            j,
                            u,
                        ) ==> #[trigger] self.counter(j, u, e) == before.counter(j, u, e),
                    forall|j: int, u: int|
                        0 <= j < self.cells() && 0 <= u < self.count() && (j < i || (j == i && u < t))
                            ==> #[trigger] self.live(j, u) == (before.live(j, u)
                            && !before.starving(j, u)),
                    forall|j: int, u: int|
                        0 <= j < self.cells() && 0 <= u < self.count() && (j > i || (j == i && u >= t))
                            ==> #[trigger] self.live(j, u) == before.live(j, u),
                decreases self.num_tiles - t,
            {
                let mut d: usize = 0;
                while d < 4 && self.wave[i][t]
                    invariant
                        before == *old(self),
                        before.wf(),
                        i < cells,
                        cells == self.cells(),
                        t < self.num_tiles,
                        d <= 4,
                        self.wf(),
                        self.same_rules(&before),
                        self.within(&before),
                        self.upholds(before.rows()),
                        self.observed_so_far == before.observed_so_far,
                        self.observed@ == before.observed@,
                        self.counts_ok(),
                        self.stack_ok(),
                        self.support_ok(no_gap()),
                        !self.contradiction,
                        forall|j: int, u: int, e: int|
                            0 <= j < self.cells() && 0 <= u < self.count() && 0 <= e < 4
                                && Self::passed(i as int, t as int, d as int, j, u, e)
                                ==> !#[trigger] self.hungry(j, u, e),
                        forall|j: int, u: int, e: int|
                            0 <= j < self.cells() && 0 <= u < self.count() && 0 <= e < 4
                                && self.live(j, u) ==> #[trigger] self.counter(j, u, e)
                                == before.counter(j, u, e),
                        forall|j: int, u: int|
                            0 <= j < self.cells() && 0 <= u < self.count() && (j < i || (j == i && u
                                < t)) ==> #[trigger] self.live(j, u) == (before.live(j, u)
                                && !before.starving(j, u)),
                        forall|j: int, u: int|
                            0 <= j < self.cells() && 0 <= u < self.count() && (j > i || (j == i && u
                                > t)) ==> #[trigger] self.live(j, u) == before.live(j, u),
                        self.live(i as int, t as int) ==> before.live(i as int, t as int),
                        self.live(i as int, t as int) ==> forall|e: int|
                            0 <= e < d ==> !#[trigger] before.hungry(i as int, t as int, e),
                        !self.live(i as int, t as int) ==> !before.live(i as int, t as int)
                            || before.starving(i as int, t as int),
                    decreases 4 - d,
                {
                    let opp = crate::grid::opposite(d);
                    let from = crate::grid::neighbor(self.width, self.height, self.periodic, i, opp);
                    proof {
                        assert(self.entry_ok(no_gap(), i as int, t as int, d as int));
                        self.lemma_due_bound(no_gap(), i as int, t as int, d as int);
                        assert(self.live(i as int, t as int));
                        assert(self.counter(i as int, t as int, d as int) == before.counter(
                            i as int,
                            t as int,
                            d as int,
                        ));
                    }
                    if from.is_some() && self.compatible[i][t][d] == 0 {
                        let ghost step = *self;
                        self.ban(i, t);
                        proof {
                            step.lemma_ban_keeps_support(self, no_gap(), i as int, t as int);
                            step.lemma_banned_within(self, &before, i as int, t as int);
                            step.lemma_source_in_grid(i as int, d as int);
                            step.lemma_ban_upholds(
                                self,
                                before.rows(),
                                i as int,
                                t as int,
                                d as int,
                            );
                            assert forall|j: int, u: int|
                                0 <= j < self.cells() && 0 <= u < self.count() implies #[trigger] self.live(
                                j,
                                u,
                            ) == (step.live(j, u) && !(j == i && u == t)) by {
                                assert(self.wave[j][u] == (step.wave[j][u] && !(j == i && u == t)));
                            }
                            assert forall|j: int, u: int, e: int|
                                0 <= j < self.cells() && 0 <= u < self.count() && 0 <= e < 4
                                    && self.live(j, u) implies #[trigger] self.counter(j, u, e)
                                == before.counter(j, u, e) by {
                                assert(step.live(j, u));
                                assert(self.compatible[j][u][e] == step.compatible[j][u][e]);
                                assert(step.counter(j, u, e) == before.counter(j, u, e));
                            }
                            assert forall|j: int, u: int, e: int|
                                0 <= j < self.cells() && 0 <= u < self.count() && 0 <= e < 4 && (
                                Self::passed(i as int, t as int, d as int, j, u, e) || (j == i && u
                                    == t)) implies !#[trigger] self.hungry(j, u, e) by {
                                if !(j == i && u == t) {
                                    assert(!step.hungry(j, u, e));
                                    assert(self.wave[j][u] == step.wave[j][u]);
                                    assert(self.compatible[j][u][e] == step.compatible[j][u][e]);
                                }
                            }
                            assert(before.hungry(i as int, t as int, d as int));
                        }
                        if self.contradiction {
                            proof {
                                self.lemma_kernel_dead(before.rows());
                                self.lemma_within_rows(&before);
                            }
                            return false;
                        }
                    } else {
                        assert(!before.hungry(i as int, t as int, d as int));
                    }
                    d = d + 1;
                }
                proof {
                    assert(self.live(i as int, t as int) == (before.live(i as int, t as int)
                        && !before.starving(i as int, t as int))) by {
                        if self.live(i as int, t as int) && before.starving(i as int, t as int) {
                            let e = choose|e: int|
                                0 <= e < 4 && #[trigger] before.hungry(i as int, t as int, e);
                            assert(d == 4);
                        }
                    }
                    assert forall|j: int, u: int, e: int|
                        0 <= j < self.cells() && 0 <= u < self.count() && 0 <= e < 4 && Self::passed(
                            i as int,
                            t + 1,
                            0,
                            j,
                            u,
                            e,
                        ) implies !#[trigger] self.hungry(j, u, e) by {
                        if j == i && u == t && !self.wave[i as int][t as int] {
                        } else {
                            assert(Self::passed(i as int, t as int, d as int, j, u, e));
                        }
                    }
                }
                t = t + 1;
            }
            i = i + 1;
        }
        proof {
            assert forall|j: int, u: int, e: int|
                0 <= j < self.cells() && 0 <= u < self.count() && 0 <= e < 4 && self.wave[j][u]
                    && self.source(j, e) is Some implies #[trigger] self.compatible[j][u][e]
                >= 1 by {
                assert(Self::passed(i as int, 0, 0, j, u, e));
                assert(!self.hungry(j, u, e));
            }
        }
        true
    }

    /// Lowers, for the cell next to `i1` in direction `d`, the counters of the variants that
    /// the removed variant `t1` of `i1` supported, and removes the variants whose counter
    /// runs out. Returns whether every cell still has a possible variant.
    fn withdraw(
        &mut self,
        i1: usize,
        t1: usize,
        d: usize,
        Ghost(origin): Ghost<Seq<Seq<bool>>>,
    ) -> (ok: bool)
        requires
            old(self).wf(),
            old(self).counts_ok(),
            old(self).stack_ok(),
            i1 < old(self).cells(),
            t1 < old(self).count(),
            d < 4,
            old(self).support_ok(Gap { cell: i1 as int, variant: t1 as int, dir: d as int, done: 0 }),
            old(self).nourished(),
            !old(self).contradicted(),
            old(self).upholds(origin),
        ensures
            final(self).wf(),
            final(self).same_rules(old(self)),
            final(self).counts_ok(),
            final(self).stack_ok(),
            final(self).observations() == old(self).observations(),
            ok == !final(self).contradicted(),
            ok ==> final(self).support_ok(
                Gap { cell: i1 as int, variant: t1 as int, dir: d + 1, done: 0 },
            ),
            ok ==> final(self).nourished(),
            final(self).effort() <= old(self).effort(),
            final(self).within(old(self)),
            final(self).pointer() == old(self).pointer(),
            final(self).upholds(origin),
    {
        let ghost before = *self;
        let ghost start = Gap { cell: i1 as int, variant: t1 as int, dir: d as int, done: 0 };
        proof {
            self.lemma_agreement(self, start);
        }
        let to = crate::grid::neighbor(self.width, self.height, self.periodic, i1, d);
        if to.is_none() {
            proof {
                self.lemma_direction_done(start);
            }
            return true;
        }
        let i2 = to.unwrap();
        let n = self.propagator.lists[d][t1].len();
        let mut ban_list: Vec<usize> = Vec::new();
        let mut k: usize = 0;
        proof {
            assert(crate::propagator::ascending(
                self.propagator.lists[d as int][t1 as int]@,
                self.count(),
            ));
        }
        while k < n
            invariant
                before == *old(self),
                before.wf(),
                i1 < self.cells(),
                i2 < self.cells(),
                t1 < self.count(),
                d < 4,
                k <= n,
                n == self.list(d as int, t1 as int).len(),
                self.neighbor(i1 as int, d as int) == Some(i2 as int),
                crate::propagator::ascending(self.list(d as int, t1 as int), self.count()),
                self.wf(),
                before.same_wave(self),
                self.upholds(origin),
                self.stack == before.stack,
                self.counts_ok(),
                self.stack_ok(),
                self.support_ok(Gap { cell: i1 as int, variant: t1 as int, dir: d as int, done: k as int }),
                forall|j: int, u: int, e: int|
                    0 <= j < self.cells() && 0 <= u < self.count() && 0 <= e < 4
                        && #[trigger] self.hungry(j, u, e) ==> j == i2 && e == d && ban_list@.contains(
                        u as usize,
                    ),
                forall|m: int|
                    0 <= m < ban_list.len() ==> (#[trigger] ban_list[m]) < self.count()
                        && self.wave[i2 as int][ban_list[m] as int] && (k < n ==> ban_list[m]
                        < self.list(d as int, t1 as int)[k as int])
                        && self.compatible[i2 as int][ban_list[m] as int][d as int] == 0,
                forall|a: int, b: int| 0 <= a < b < ban_list.len() ==> ban_list[a] < ban_list[b],
            decreases n - k,
        {
            let ghost g = Gap { cell: i1 as int, variant: t1 as int, dir: d as int, done: k as int };
            let ghost step = *self;
            let ghost listed = ban_list@;
            let t2 = self.propagator.lists[d][t1][k];
            proof {
                self.lemma_next_owes(g, i2 as int);
            }
            let lowered: i64 = self.compatible[i2][t2][d] - 1;
            self.compatible[i2][t2][d] = lowered;
            proof {
                assert(step.same_wave(self));
                step.lemma_step_moves_gap(self, g, i2 as int);
                step.lemma_upholds_same(self, origin);
                assert(self.cells() == step.cells());
                assert forall|j: int| 0 <= j < self.cells() implies #[trigger] self.cell_counted(j) by {
                    assert(step.cell_counted(j));
                }
            }
            if lowered == 0 && self.wave[i2][t2] {
                ban_list.push(t2);
            }
            proof {
                assert forall|j: int, u: int, e: int|
                    0 <= j < self.cells() && 0 <= u < self.count() && 0 <= e < 4
                        && #[trigger] self.hungry(j, u, e) implies j == i2 && e == d
                    && ban_list@.contains(u as usize) by {
                    if j == i2 && u == t2 && e == d {
                        assert(ban_list@[ban_list.len() - 1] == t2);
                    } else {
                        assert(self.compatible[j][u][e] == step.compatible[j][u][e]);
                        assert(step.hungry(j, u, e));
                        lemma_push_contains(listed, t2, u as usize);
                    }
                }
                assert forall|m: int| 0 <= m < ban_list.len() implies (#[trigger] ban_list[m])
                    < self.count() && self.wave[i2 as int][ban_list[m] as int] && (k + 1 < n
                    ==> ban_list[m] < self.list(d as int, t1 as int)[k + 1])
                    && self.compatible[i2 as int][ban_list[m] as int][d as int] == 0 by {
                    if m < listed.len() {
                        assert(ban_list[m] == listed[m]);
                        assert(listed[m] < t2);
                    }
                }
            }
            k = k + 1;
        }
        let ghost full = Gap { cell: i1 as int, variant: t1 as int, dir: d as int, done: n as int };
        let mut m: usize = 0;
        assert(ban_list@.subrange(0, ban_list.len() as int) =~= ban_list@);
        proof {
            self.lemma_next_source(i1 as int, i2 as int, d as int);
        }
        while m < ban_list.len()
            invariant
                before == *old(self),
                before.wf(),
                i2 < self.cells(),
                d < 4,
                m <= ban_list.len(),
                full == (Gap { cell: i1 as int, variant: t1 as int, dir: d as int, done: n as int }),
                n == self.list(d as int, t1 as int).len(),
                self.wf(),
                self.within(&before),
                self.upholds(origin),
                self.observed_so_far == before.observed_so_far,
                self.same_rules(&before),
                self.observed@ == before.observed@,
                self.counts_ok(),
                self.stack_ok(),
                !self.contradiction,
                self.support_ok(full),
                self.effort() + m <= before.effort(),
                forall|j: int, u: int, e: int|
                    0 <= j < self.cells() && 0 <= u < self.count() && 0 <= e < 4
                        && #[trigger] self.hungry(j, u, e) ==> j == i2 && e == d && ban_list@.subrange(
                        m as int,
                        ban_list.len() as int,
                    ).contains(u as usize),
                forall|p: int|
                    m <= p < ban_list.len() ==> (#[trigger] ban_list[p]) < self.count()
                        && self.wave[i2 as int][ban_list[p] as int]
                        && self.compatible[i2 as int][ban_list[p] as int][d as int] == 0,
                self.source(i2 as int, d as int) is Some,
                forall|a: int, b: int| 0 <= a < b < ban_list.len() ==> ban_list[a] < ban_list[b],
            decreases ban_list.len() - m,
        {
            let ghost step = *self;
            let doomed = ban_list[m];
            self.ban(i2, doomed);
            proof {
                step.lemma_ban_keeps_support(self, full, i2 as int, doomed as int);
                step.lemma_banned_within(self, &before, i2 as int, doomed as int);
                assert(step.entry_ok(full, i2 as int, doomed as int, d as int));
                step.lemma_due_bound(full, i2 as int, doomed as int, d as int);
                step.lemma_ban_upholds(self, origin, i2 as int, doomed as int, d as int);
                let rest = ban_list@.subrange(m as int, ban_list.len() as int);
                let later = ban_list@.subrange(m + 1, ban_list.len() as int);
                assert forall|j: int, u: int, e: int|
                    0 <= j < self.cells() && 0 <= u < self.count() && 0 <= e < 4
                        && #[trigger] self.hungry(j, u, e) implies j == i2 && e == d
                    && later.contains(u as usize) by {
                    assert(self.compatible[j][u][e] == step.compatible[j][u][e]);
                    assert(step.hungry(j, u, e));
                    let p = choose|p: int| 0 <= p < rest.len() && rest[p] == u as usize;
                    assert(p != 0);
                    assert(later[p - 1] == u as usize);
                }
                assert forall|p: int| m + 1 <= p < ban_list.len() implies (#[trigger] ban_list[p])
                    < self.count() && self.wave[i2 as int][ban_list[p] as int]
                    && self.compatible[i2 as int][ban_list[p] as int][d as int] == 0 by {
                    assert(ban_list[m as int] < ban_list[p]);
                }
            }
            if self.contradiction {
                return false;
            }
            m = m + 1;
        }
        proof {
            self.lemma_direction_done(full);
            assert forall|j: int, u: int, e: int|
                0 <= j < self.cells() && 0 <= u < self.count() && 0 <= e < 4 && self.wave[j][u]
                    && self.source(j, e) is Some implies #[trigger] self.compatible[j][u][e]
                >= 1 by {
                if self.hungry(j, u, e) {
                    assert(ban_list@.subrange(m as int, ban_list.len() as int).len() == 0);
                }
            }
        }
        true
    }

    /// Propagates the waiting removals: until none waits, takes up the latest and lowers the
    /// counters of what it supported in the four neighbouring cells, removing the variants
    /// whose counter runs out. Stops as soon as a cell has no possible variant left and
    /// returns whether every cell still has one.
    pub fn propagate(&mut self) -> (ok: bool)
        requires
            old(self).wf(),
            old(self).counts_ok(),
            old(self).stack_ok(),
            old(self).support_ok(no_gap()),
            old(self).nourished(),
        ensures
            final(self).wf(),
            final(self).same_rules(old(self)),
            final(self).counts_ok(),
            final(self).stack_ok(),
            final(self).observations() == old(self).observations(),
            ok == !final(self).contradicted(),
            ok ==> final(self).support_ok(no_gap()),
            ok ==> final(self).nourished(),
            ok ==> final(self).bans().len() == 0,
            final(self).within(old(self)),
            final(self).pointer() == old(self).pointer(),
            final(self).upholds(old(self).rows()),
            old(self).rules().settle(old(self).rows()) == if ok {
                Some(final(self).rows())
            } else {
                None
            },
    {
        let ghost before = *self;
        proof {
            self.lemma_agreement(self, no_gap());
            self.lemma_upholds_itself();
        }
        if self.contradiction {
            proof {
                self.lemma_kernel_dead(before.rows());
            }
            return false;
        }
        while self.stack.len() > 0
            invariant
                before == *old(self),
                self.wf(),
                before.wf(),
                self.within(&before),
                self.upholds(before.rows()),
                self.observed_so_far == before.observed_so_far,
                self.same_rules(&before),
                self.observed@ == before.observed@,
                self.counts_ok(),
                self.stack_ok(),
                self.support_ok(no_gap()),
                self.nourished(),
                !self.contradiction,
            decreases self.effort(),
        {
            let ghost step = *self;
            let top = self.stack.pop().unwrap();
            let i1 = top.0;
            let t1 = top.1;
            proof {
                assert(step.stack[step.stack.len() - 1] == top);
                step.lemma_pop_opens_gap(self, no_gap());
                step.lemma_upholds_same(self, before.rows());
                assert forall|j: int| 0 <= j < self.cells() implies #[trigger] self.cell_counted(j) by {
                    assert(step.cell_counted(j));
                }
                assert(self.effort() == step.effort() - 1);
                assert(self.within(&before)) by {
                    assert forall|j: int, u: int|
                        0 <= j < self.cells() && 0 <= u < self.count() && #[trigger] self.live(
                            j,
                            u,
                        ) implies before.live(j, u) by {
                        assert(step.live(j, u));
                    }
                }
            }
            proof {
                lemma_total_nonnegative(self.sums_of_ones@, self.sums_of_ones.len() as int);
            }
            let mut d: usize = 0;
            while d < 4
                invariant
                    before == *old(self),
                    step.wf(),
                    i1 < self.cells(),
                    t1 < self.count(),
                    d <= 4,
                    self.wf(),
                    before.wf(),
                    self.upholds(before.rows()),
                    self.within(&before),
                    self.observed_so_far == before.observed_so_far,
                    self.same_rules(&before),
                    self.observed@ == before.observed@,
                    self.counts_ok(),
                    self.stack_ok(),
                    self.support_ok(Gap { cell: i1 as int, variant: t1 as int, dir: d as int, done: 0 }),
                    self.nourished(),
                    !self.contradiction,
                    self.effort() < step.effort(),
                decreases 4 - d,
            {
                let ghost inner = *self;
                let fine = self.withdraw(i1, t1, d, Ghost(before.rows()));
                proof {
                    self.lemma_within_chain(&inner, &before);
                }
                if !fine {
                    proof {
                        self.lemma_kernel_dead(before.rows());
                        self.lemma_within_rows(&before);
                    }
                    return false;
                }
                d = d + 1;
            }
            proof {
                self.lemma_gap_closed(
                    Gap { cell: i1 as int, variant: t1 as int, dir: 4, done: 0 },
                    no_gap(),
                );
                lemma_total_nonnegative(self.sums_of_ones@, self.sums_of_ones.len() as int);
            }
        }
        proof {
            self.lemma_within_rows(&before);
            self.lemma_kernel_reached(before.rows());
        }
        true
    }
}

} // verus!
