//! Why the counters of the supporters stay right while variants are removed and the
//! removals are propagated.
use vstd::prelude::*;
use crate::census::{count_true, full_row, lemma_census_same, lemma_count_within};
use crate::census::{lemma_drop_last_contains, lemma_push_contains, lemma_tally_bounds};
use crate::census::{lemma_tally_full, lemma_tally_same, lemma_tally_unmark};
use crate::grid::{lemma_neighbor_symmetric, spec_opposite};
use crate::model::{Gap, no_gap, SimpleTiled};
use crate::propagator::lemma_ascending_distinct;

verus! {

impl SimpleTiled {
    /// A removal keeps the counters right.
    pub(super) proof fn lemma_ban_keeps_support(&self, after: &SimpleTiled, g: Gap, i: int, t: int)
        requires
            self.wf(),
            self.stack_ok(),
            self.support_ok(g),
            0 <= i < self.cells(),
            0 <= t < self.count(),
            self.wave[i][t],
            self.banned(after, i, t),
        ensures
            after.support_ok(g),
            forall|j: int| 0 <= j < self.cells() ==> after.present_row(j) == self.present_row(j),
    {
        let whom = (i as usize, t as usize);
        assert(!self.stack@.contains(whom)) by {
            if self.stack@.contains(whom) {
                let k = choose|k: int| 0 <= k < self.stack.len() && self.stack[k] == whom;
                assert(!self.wave[self.stack[k].0 as int][self.stack[k].1 as int]);
            }
        }
        assert forall|j: int, u: int| 0 <= j < self.cells() && 0 <= u < self.count() implies after.present(
            j,
            u,
        ) == self.present(j, u) by {
            lemma_push_contains(self.stack@, whom, (j as usize, u as usize));
        }
        assert forall|j: int| 0 <= j < self.cells() implies after.present_row(j) == self.present_row(
            j,
        ) by {
            assert(after.present_row(j) =~= self.present_row(j));
        }
        assert forall|j: int, u: int, d: int|
            0 <= j < self.cells() && 0 <= u < self.count() && 0 <= d < 4 implies #[trigger] after.entry_ok(
            g,
            j,
            u,
            d,
        ) by {
            assert(self.entry_ok(g, j, u, d));
            self.lemma_source_in_grid(j, d);
            assert(after.support(j, u, d) == self.support(j, u, d));
            assert(after.owed(g, j, u, d) == self.owed(g, j, u, d));
            if j == i && u == t {
                self.lemma_due_bound(g, j, u, d);
            }
        }
    }

    /// The cell that supports a cell is a cell of the grid.
    pub(super) proof fn lemma_source_in_grid(&self, i: int, d: int)
        requires
            self.wf(),
            0 <= i < self.cells(),
            0 <= d < 4,
        ensures
            self.source(i, d) matches Some(j) ==> 0 <= j < self.cells() && self.neighbor(j, d) == Some(
                i,
            ),
            forall|j: int|
                0 <= j < self.cells() && #[trigger] self.neighbor(j, d) == Some(i) ==> self.source(i, d)
                    == Some(j),
    {
        let o = spec_opposite(d);
        crate::grid::lemma_neighbor_in_grid(
            self.width as int,
            self.height as int,
            self.periodic,
            i,
            o,
        );
        if self.source(i, d) is Some {
            let j = self.source(i, d)->0;
            lemma_neighbor_symmetric(self.width as int, self.height as int, self.periodic, i, j, o);
        }
        assert forall|j: int|
            0 <= j < self.cells() && #[trigger] self.neighbor(j, d) == Some(i) implies self.source(i, d)
            == Some(j) by {
            lemma_neighbor_symmetric(self.width as int, self.height as int, self.periodic, j, i, d);
        }
    }

    /// What is due is at least 0 and at most the length of the list.
    pub(super) proof fn lemma_due_bound(&self, g: Gap, i: int, t: int, d: int)
        requires
            self.wf(),
            self.gap_ok(g),
            0 <= i < self.cells(),
            0 <= t < self.count(),
            0 <= d < 4,
        ensures
            0 <= self.support(i, t, d) <= self.due(g, i, t, d) <= self.propagator.list(
                spec_opposite(d),
                t,
            ).len() <= self.count(),
            self.owed(g, i, t, d) ==> self.due(g, i, t, d) >= 1,
    {
        let o = spec_opposite(d);
        let list = self.propagator.list(o, t);
        assert(crate::propagator::ascending(self.propagator.lists[o][t]@, self.count()));
        lemma_ascending_distinct(list, self.count());
        crate::propagator::lemma_ascending_short(list, self.count());
        self.lemma_source_in_grid(i, d);
        match self.source(i, d) {
            Some(j) => {
                let row = self.present_row(j);
                lemma_tally_bounds(list, row, list.len() as int);
                if self.owed(g, i, t, d) {
                    let k = choose|k: int| 0 <= k < list.len() && list[k] == g.variant as usize;
                    assert(!row[list[k] as int]);
                }
            },
            None => {},
        }
    }

    /// Taking a waiting removal up for propagation opens its gap: every counter that counted
    /// the removed variant now owes one.
    pub(super) proof fn lemma_pop_opens_gap(&self, after: &SimpleTiled, g: Gap)
        requires
            self.wf(),
            self.stack_ok(),
            self.support_ok(g),
            g.dir >= 4,
            self.stack.len() > 0,
            self.same_wave(after),
            after.compatible == self.compatible,
            after.stack@ == self.stack@.drop_last(),
        ensures
            after.stack_ok(),
            after.support_ok(
                Gap {
                    cell: self.stack@.last().0 as int,
                    variant: self.stack@.last().1 as int,
                    dir: 0,
                    done: 0,
                },
            ),
    {
        let whom = self.stack@.last();
        let i1 = whom.0 as int;
        let t1 = whom.1 as int;
        let opened = Gap { cell: i1, variant: t1, dir: 0, done: 0 };
        assert(self.stack[self.stack.len() - 1] == whom);
        assert(!self.wave[i1][t1]);
        assert forall|k: int| 0 <= k < after.stack.len() implies {
            let entry = #[trigger] after.stack[k];
            &&& entry.0 < after.cells()
            &&& entry.1 < after.num_tiles
            &&& !after.wave[entry.0 as int][entry.1 as int]
        } by {
            assert(after.stack[k] == self.stack[k]);
        }
        lemma_drop_last_contains(self.stack@, whom);
        assert forall|j: int, u: int| 0 <= j < self.cells() && 0 <= u < self.count() implies after.present(
            j,
            u,
        ) == (self.present(j, u) && !(j == i1 && u == t1)) by {
            lemma_drop_last_contains(self.stack@, (j as usize, u as usize));
        }
        assert(self.present(i1, t1));
        assert(after.list(0, t1).subrange(0, 0).len() == 0);
        assert forall|i: int, t: int, d: int|
            0 <= i < self.cells() && 0 <= t < self.count() && 0 <= d < 4 implies #[trigger] after.entry_ok(
            opened,
            i,
            t,
            d,
        ) by {
            assert(self.entry_ok(g, i, t, d));
            assert(!self.owed(g, i, t, d));
            self.lemma_source_in_grid(i, d);
            let o = spec_opposite(d);
            let list = self.propagator.list(o, t);
            assert(crate::propagator::ascending(self.propagator.lists[o][t]@, self.count()));
            lemma_ascending_distinct(list, self.count());
            assert(list.subrange(0, list.len() as int) =~= list);
            match self.source(i, d) {
                Some(j) => {
                    if j == i1 {
                        lemma_tally_unmark(
                            list,
                            self.present_row(j),
                            after.present_row(j),
                            whom.1,
                            list.len() as int,
                        );
                    } else {
                        lemma_tally_same(
                            list,
                            self.present_row(j),
                            after.present_row(j),
                            list.len() as int,
                        );
                    }
                },
                None => {},
            }
            assert(after.due(opened, i, t, d) == self.due(g, i, t, d));
        }
    }

    /// The counter that is lowered next still owes one, so it is at least 1 while its variant
    /// is possible at the neighbour, and never below 1 less the number of variants.
    pub(super) proof fn lemma_next_owes(&self, g: Gap, i2: int)
        requires
            self.wf(),
            self.support_ok(g),
            g.dir < 4,
            g.done < self.list(g.dir, g.variant).len(),
            self.neighbor(g.cell, g.dir) == Some(i2),
        ensures
            ({
                let t2 = self.list(g.dir, g.variant)[g.done] as int;
                &&& 0 <= i2 < self.cells()
                &&& 0 <= t2 < self.count()
                &&& self.owed(g, i2, t2, g.dir)
                &&& self.wave[i2][t2] ==> self.compatible[i2][t2][g.dir] >= 1
                &&& self.compatible[i2][t2][g.dir] >= 1 - self.count()
                &&& self.source(i2, g.dir) == Some(g.cell)
            }),
    {
        let d = g.dir;
        let list = self.list(d, g.variant);
        let t2 = list[g.done] as int;
        assert(crate::propagator::ascending(self.propagator.lists[d][g.variant]@, self.count()));
        lemma_ascending_distinct(list, self.count());
        crate::grid::lemma_neighbor_in_grid(
            self.width as int,
            self.height as int,
            self.periodic,
            g.cell,
            d,
        );
        self.lemma_source_in_grid(i2, d);
        assert(list.contains(t2 as usize));
        assert(self.propagator.permits(d, g.variant, t2));
        assert(self.propagator.permits(spec_opposite(d), t2, g.variant));
        let head = list.subrange(0, g.done);
        if head.contains(t2 as usize) {
            let k = choose|k: int| 0 <= k < head.len() && head[k] == t2 as usize;
            assert(list[k] == list[g.done]);
        }
        assert(self.entry_ok(g, i2, t2, d));
        self.lemma_due_bound(g, i2, t2, d);
    }

    /// Two states with the same rules in which the same variants count give every variant
    /// the same support.
    proof fn lemma_support_same(&self, after: &SimpleTiled, i: int, t: int, d: int)
        requires
            self.wf(),
            after.same_rules(self),
            0 <= i < self.cells(),
            0 <= t < self.count(),
            0 <= d < 4,
            forall|j: int| 0 <= j < self.cells() ==> after.present_row(j) == self.present_row(j),
        ensures
            after.support(i, t, d) == self.support(i, t, d),
    {
        self.lemma_source_in_grid(i, d);
    }

    /// Moving the gap on by one changes what is owed for the counter that was next in turn,
    /// and for no other.
    proof fn lemma_owed_step(&self, g: Gap, i2: int, j: int, u: int, e: int)
        requires
            self.wf(),
            self.gap_ok(g),
            g.dir < 4,
            g.done < self.list(g.dir, g.variant).len(),
            self.neighbor(g.cell, g.dir) == Some(i2),
            0 <= j < self.cells(),
            0 <= u < self.count(),
            0 <= e < 4,
        ensures
            self.owed(Gap { done: g.done + 1, ..g }, j, u, e) == (self.owed(g, j, u, e) && !(j == i2
                && u == self.list(g.dir, g.variant)[g.done] && e == g.dir)),
    {
        let d = g.dir;
        let list = self.list(d, g.variant);
        let t2 = list[g.done];
        let head = list.subrange(0, g.done);
        let longer = list.subrange(0, g.done + 1);
        if e == d {
            assert(crate::propagator::ascending(self.propagator.lists[d][g.variant]@, self.count()));
            lemma_ascending_distinct(list, self.count());
            assert(longer[g.done] == list[g.done]);
            assert(longer.drop_last() =~= head);
            lemma_push_contains(head, t2, u as usize);
            assert(longer =~= head.push(t2));
            if u == t2 {
                if head.contains(t2) {
                    let k = choose|k: int| 0 <= k < head.len() && head[k] == t2;
                    assert(list[k] == list[g.done]);
                }
                if j != i2 {
                    self.lemma_source_in_grid(j, e);
                }
            }
        }
    }

    /// Lowering the counter that is next in turn moves the gap on by one.
    pub(super) proof fn lemma_step_moves_gap(&self, after: &SimpleTiled, g: Gap, i2: int)
        requires
            self.wf(),
            after.wf(),
            self.support_ok(g),
            g.dir < 4,
            g.done < self.list(g.dir, g.variant).len(),
            self.neighbor(g.cell, g.dir) == Some(i2),
            self.same_wave(after),
            after.stack == self.stack,
            forall|j: int, u: int, d: int|
                0 <= j < self.cells() && 0 <= u < self.count() && 0 <= d < 4
                    ==> #[trigger] after.compatible[j][u][d] == self.compatible[j][u][d] - if j == i2
                    && u == self.list(g.dir, g.variant)[g.done] && d == g.dir {
                    1int
                } else {
                    0
                },
        ensures
            after.support_ok(Gap { done: g.done + 1, ..g }),
    {
        let moved = Gap { done: g.done + 1, ..g };
        assert forall|j: int| 0 <= j < self.cells() implies after.present_row(j) == self.present_row(
            j,
        ) by {
            assert(after.present_row(j) =~= self.present_row(j));
        }
        assert(after.gap_ok(moved));
        assert forall|j: int, u: int, e: int|
            0 <= j < self.cells() && 0 <= u < self.count() && 0 <= e < 4 implies #[trigger] after.entry_ok(
            moved,
            j,
            u,
            e,
        ) by {
            assert(self.entry_ok(g, j, u, e));
            self.lemma_support_same(after, j, u, e);
            assert(self.gap_ok(g));
            self.lemma_owed_step(g, i2, j, u, e);
            assert(after.owed(moved, j, u, e) == self.owed(moved, j, u, e));
            let hit = j == i2 && u == self.list(g.dir, g.variant)[g.done] && e == g.dir;
            assert(after.compatible[j][u][e] == self.compatible[j][u][e] - if hit {
                1int
            } else {
                0
            });
            if hit {
                self.lemma_next_owes(g, i2);
                assert(self.owed(g, j, u, e));
            }
            assert(after.due(moved, j, u, e) == self.due(g, j, u, e) - if hit {
                1int
            } else {
                0
            });
            assert(after.wave[j][u] == self.wave[j][u]);
            assert(after.propagator.list(spec_opposite(e), u) == self.propagator.list(
                spec_opposite(e),
                u,
            ));
        }
    }

    /// When the list of a direction is done, or the cell has no neighbour in that direction,
    /// the gap stands at the start of the next direction.
    pub(super) proof fn lemma_direction_done(&self, g: Gap)
        requires
            self.wf(),
            self.support_ok(g),
            0 <= g.dir < 4,
            g.done == self.list(g.dir, g.variant).len() || (g.done == 0 && self.neighbor(
                g.cell,
                g.dir,
            ) is None),
        ensures
            self.support_ok(Gap { dir: g.dir + 1, done: 0, ..g }),
    {
        let next = Gap { dir: g.dir + 1, done: 0, ..g };
        let list = self.list(g.dir, g.variant);
        assert(list.subrange(0, list.len() as int) =~= list);
        if next.dir < 4 {
            assert(self.list(next.dir, g.variant).subrange(0, 0).len() == 0);
        }
        assert forall|j: int, u: int, e: int|
            0 <= j < self.cells() && 0 <= u < self.count() && 0 <= e < 4 implies #[trigger] self.entry_ok(
            next,
            j,
            u,
            e,
        ) by {
            assert(self.entry_ok(g, j, u, e));
            self.lemma_source_in_grid(j, e);
            if e == g.dir && self.source(j, e) == Some(g.cell) {
                assert(self.propagator.permits(e, g.variant, u) <==> self.propagator.permits(
                    spec_opposite(e),
                    u,
                    g.variant,
                ));
            }
            assert(self.owed(next, j, u, e) == self.owed(g, j, u, e));
        }
    }

    /// Once the last direction is done, no propagation is under way.
    pub(super) proof fn lemma_gap_closed(&self, g: Gap, h: Gap)
        requires
            self.support_ok(g),
            g.dir >= 4,
            h.dir >= 4,
        ensures
            self.support_ok(h),
    {
        assert forall|j: int, u: int, e: int|
            0 <= j < self.cells() && 0 <= u < self.count() && 0 <= e < 4 implies #[trigger] self.entry_ok(
            h,
            j,
            u,
            e,
        ) by {
            assert(self.entry_ok(g, j, u, e));
        }
    }

    /// A cleared solver has its sums and counters right.
    pub(super) proof fn lemma_cleared_is_consistent(&self)
        requires
            self.wf(),
            self.is_cleared(),
        ensures
            self.counts_ok(),
            self.stack_ok(),
            self.support_ok(no_gap()),
    {
        let count = self.count();
        assert forall|i: int| 0 <= i < self.cells() implies #[trigger] self.cell_counted(i) by {
            assert(self.cell_cleared(i));
            lemma_census_same(
                self.tiles@,
                self.weight_log_weights@,
                self.wave[i]@,
                full_row(count),
                count,
            );
            self.lemma_full_count(count);
        }
        assert forall|i: int| 0 <= i < self.cells() implies #[trigger] self.sums_of_ones[i] != 0 by {
            assert(self.cell_cleared(i));
        }
        assert forall|i: int, t: int, d: int|
            0 <= i < self.cells() && 0 <= t < self.count() && 0 <= d < 4 implies #[trigger] self.entry_ok(
            no_gap(),
            i,
            t,
            d,
        ) by {
            assert(self.cell_cleared(i));
            self.lemma_source_in_grid(i, d);
            let o = spec_opposite(d);
            let list = self.propagator.list(o, t);
            assert(crate::propagator::ascending(self.propagator.lists[o][t]@, self.count()));
            match self.source(i, d) {
                Some(j) => {
                    assert(self.cell_cleared(j));
                    lemma_tally_full(list, self.present_row(j), list.len() as int);
                },
                None => {},
            }
        }
    }

    /// Where every variant is marked, the count is the number of variants.
    proof fn lemma_full_count(&self, n: int)
        requires
            0 <= n <= self.count(),
        ensures
            count_true(full_row(self.count()), n) == n,
        decreases n,
    {
        if n > 0 {
            self.lemma_full_count(n - 1);
        }
    }

    /// A solver within one that is within a third is within the third.
    pub(super) proof fn lemma_within_chain(&self, middle: &SimpleTiled, before: &SimpleTiled)
        requires
            self.within(middle),
            middle.within(before),
            middle.cells() == self.cells(),
            middle.count() == self.count(),
        ensures
            self.within(before),
    {
        assert forall|j: int, u: int|
            0 <= j < self.cells() && 0 <= u < self.count() && #[trigger] self.live(j, u) implies before.live(
            j,
            u,
        ) by {
            assert(middle.live(j, u));
        }
    }

    /// A removal leaves a solver within what it was within.
    pub(super) proof fn lemma_banned_within(&self, after: &SimpleTiled, before: &SimpleTiled, i: int, t: int)
        requires
            self.banned(after, i, t),
            self.within(before),
        ensures
            after.within(before),
            after.within(self),
    {
        assert forall|j: int, u: int|
            0 <= j < after.cells() && 0 <= u < after.count() && #[trigger] after.live(j, u) implies before.live(
            j,
            u,
        ) && self.live(j, u) by {
            assert(self.live(j, u));
        }
    }

    /// A solver within another has at most the options of the other at every cell.
    pub(super) proof fn lemma_within_options(&self, before: &SimpleTiled)
        requires
            self.within(before),
            self.same_rules(before),
            self.wf(),
            before.wf(),
            self.counts_ok(),
            before.counts_ok(),
        ensures
            forall|j: int| 0 <= j < self.cells() ==> self.options(j) <= before.options(j),
    {
        assert forall|j: int| 0 <= j < self.cells() implies self.options(j) <= before.options(j) by {
            assert(self.cell_counted(j));
            assert(before.cell_counted(j));
            assert forall|u: int| 0 <= u < self.count() && self.wave[j]@[u] implies before.wave[j]@[u] by {
                assert(self.live(j, u));
            }
            lemma_count_within(self.wave[j]@, before.wave[j]@, self.count());
        }
    }

    /// The cell that a cell is the neighbour of supports it.
    pub(super) proof fn lemma_next_source(&self, i1: int, i2: int, d: int)
        requires
            self.wf(),
            0 <= i1 < self.cells(),
            0 <= i2 < self.cells(),
            0 <= d < 4,
            self.neighbor(i1, d) == Some(i2),
        ensures
            self.source(i2, d) == Some(i1),
    {
        self.lemma_source_in_grid(i2, d);
    }

    /// What holds of a solver holds of one that agrees with it.
    pub(super) proof fn lemma_agreement(&self, other: &SimpleTiled, g: Gap)
        requires
            self.agrees(other),
        ensures
            self.wf() ==> other.wf(),
            self.counts_ok() ==> other.counts_ok(),
            self.stack_ok() ==> other.stack_ok(),
            self.support_ok(g) ==> other.support_ok(g),
            self.nourished() ==> other.nourished(),
            other.remaining() == self.remaining(),
            other.open_cells() == self.open_cells(),
            other.within(self),
            self.within(other),
    {
        if self.counts_ok() {
            assert forall|i: int| 0 <= i < other.cells() implies #[trigger] other.cell_counted(i) by {
                assert(self.cell_counted(i));
            }
            if other.contradiction {
                let i = choose|i: int| 0 <= i < self.cells() && #[trigger] self.sums_of_ones[i] == 0;
                assert(other.sums_of_ones[i] == 0);
            }
        }
        assert forall|j: int| 0 <= j < self.cells() implies other.present_row(j) == self.present_row(
            j,
        ) by {
            assert(other.present_row(j) =~= self.present_row(j));
        }
        if self.support_ok(g) {
            assert forall|i: int, t: int, d: int|
                0 <= i < self.cells() && 0 <= t < self.count() && 0 <= d < 4 implies #[trigger] other.entry_ok(
                g,
                i,
                t,
                d,
            ) by {
                assert(self.entry_ok(g, i, t, d));
                if self.source(i, d) is Some {
                    let j = self.source(i, d)->0;
                    if 0 <= j < self.cells() {
                        assert(other.present_row(j) == self.present_row(j));
                    } else {
                        assert(other.present_row(j) =~= self.present_row(j));
                    }
                }
            }
        }
    }

    /// A row that marks nothing has count 0.
    pub(super) proof fn lemma_empty_count(count: int, n: int)
        requires
            0 <= n <= count,
        ensures
            count_true(Seq::new(count as nat, |u: int| false), n) == 0,
        decreases n,
    {
        if n > 0 {
            Self::lemma_empty_count(count, n - 1);
        }
    }
}

} // verus!
