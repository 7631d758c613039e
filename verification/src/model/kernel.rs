//! How the wave of a solver relates to the kernel of the wave that a propagation started
//! from, and the books of a solver to what its rules say of its wave.
use vstd::prelude::*;
use crate::census::{lemma_census_same, lemma_count_zero, lemma_tally_bounds};
use crate::grid::spec_opposite;
use crate::model::{Heuristic, no_gap, SimpleTiled};
use crate::rules::{holds, Outcome};
use crate::select::lemma_first_candidate_skips;

verus! {

impl SimpleTiled {
    /// Two solvers with the same rules are made for the same.
    pub(super) proof fn lemma_same_rules(&self, other: &SimpleTiled)
        requires
            other.same_rules(self),
        ensures
            other.rules() == self.rules(),
    {
        assert(other.rules().lists =~~= self.rules().lists);
    }

    /// Two solvers that agree have the same wave.
    pub(super) proof fn lemma_same_rows(&self, other: &SimpleTiled)
        requires
            self.agrees(other),
        ensures
            other.rows() == self.rows(),
            other.rules() == self.rules(),
    {
        assert(other.rules().lists =~~= self.rules().lists);
        assert(other.rows() =~~= self.rows());
    }

    /// The wave of a cleared solver marks everything.
    pub(super) proof fn lemma_cleared_rows(&self)
        requires
            self.wf(),
            self.is_cleared(),
        ensures
            self.rows() == self.rules().full(),
    {
        self.lemma_rules_agree();
        let full = self.rules().full();
        assert forall|i: int| 0 <= i < self.cells() implies self.rows()[i] == full[i] by {
            assert(self.cell_cleared(i));
            assert(self.rows()[i] =~= full[i]);
        }
        assert(self.rows() =~= full);
    }

    /// The sums that a solver records are those that its rules give for its wave.
    proof fn lemma_books_match(&self)
        requires
            self.wf(),
            self.counts_ok(),
        ensures
            self.sums_of_ones@ == self.rules().option_counts(self.rows()),
            self.entropies@ == self.rules().entropies(self.rows()),
    {
        self.lemma_rules_agree();
        let rules = self.rules();
        let w = self.rows();
        assert forall|i: int| 0 <= i < self.cells() implies self.sums_of_ones@[i] == rules.option_counts(
            w,
        )[i] && self.entropies@[i] == rules.entropies(w)[i] by {
            assert(self.cell_counted(i));
        }
        assert(self.sums_of_ones@ =~= rules.option_counts(w));
        assert(self.entropies@ =~= rules.entropies(w));
    }

    /// The cell that the solver chooses is the cell that its rules choose for its wave.
    pub(super) proof fn lemma_choice_matches(&self, state: Seq<u32>)
        requires
            self.wf(),
            self.counts_ok(),
            self.heuristic == Heuristic::ScanLine ==> forall|j: int|
                0 <= j < self.observed_so_far && j < self.cells() ==> self.sums_of_ones[j] <= 1,
        ensures
            self.scans_in_line() ==> self.rules().choose_cell(self.rows(), state) == (
                self.first_candidate(),
                state,
            ),
            !self.scans_in_line() ==> self.rules().choose_cell(self.rows(), state) == (
                match self.scan(state).0 {
                    Some(pick) => Some(pick.cell),
                    None => None,
                },
                self.scan(state).1,
            ),
    {
        self.lemma_books_match();
        if self.heuristic == Heuristic::ScanLine {
            lemma_first_candidate_skips(
                self.width as int,
                self.height as int,
                self.periodic,
                self.sums_of_ones@,
                0,
                self.observed_so_far as int,
            );
        }
    }

    /// Observing a cell collapses it in the wave.
    pub(super) proof fn lemma_collapse_matches(&self, after: &SimpleTiled, node: int, k: int)
        requires
            self.wf(),
            after.wf(),
            after.same_rules(self),
            0 <= node < self.cells(),
            forall|t: int|
                0 <= t < self.count() ==> #[trigger] after.live(node, t) == (self.live(node, t) && t
                    == k),
            forall|j: int, t: int|
                0 <= j < self.cells() && j != node && 0 <= t < self.count() ==> #[trigger] after.live(
                    j,
                    t,
                ) == self.live(j, t),
        ensures
            after.rows() == self.rules().collapse(self.rows(), node, k),
            self.rules().distribution(self.rows()[node]) == self.distribution(self.row(node)),
    {
        self.lemma_rules_agree();
        after.lemma_rules_agree();
        let rules = self.rules();
        let target = rules.collapse(self.rows(), node, k);
        assert forall|j: int| 0 <= j < self.cells() implies after.rows()[j] == target[j] by {
            assert forall|t: int| 0 <= t < self.count() implies after.rows()[j][t] == target[j][t] by {
                assert(after.live(j, t) == after.rows()[j][t]);
                assert(self.live(j, t) == self.rows()[j][t]);
            }
            assert(after.rows()[j] =~= target[j]);
        }
        assert(after.rows() =~= target);
        assert(rules.distribution(self.rows()[node]) =~= self.distribution(self.row(node)));
    }

    /// What the rules observe in an outcome that is not a finished success is nothing.
    pub(super) proof fn lemma_nothing_observed(&self, outcome: Outcome)
        requires
            self.wf(),
            self.unobserved(),
            !(outcome.success && outcome.finished),
        ensures
            self.observations() == self.rules().observed(outcome),
    {
        self.lemma_rules_agree();
        assert(self.observed@ =~= self.rules().observed(outcome));
    }

    /// The kernel of a wave that a solver upholds is within the wave of the solver.
    pub(super) proof fn lemma_kernel_within_rows(&self, origin: Seq<Seq<bool>>)
        requires
            self.wf(),
            self.upholds(origin),
        ensures
            self.rules().within(self.rules().kernel(origin), self.rows()),
    {
        self.lemma_rules_agree();
        let rules = self.rules();
        let k = rules.kernel(origin);
        assert forall|i: int, t: int|
            0 <= i < rules.cells() && 0 <= t < rules.count() && #[trigger] holds(k, i, t) implies holds(
            self.rows(),
            i,
            t,
        ) by {
            assert(rules.in_kernel(origin, i, t));
            let c = choose|c: Seq<Seq<bool>>|
                #[trigger] rules.stable(c) && rules.shaped(c) && rules.within(c, origin) && holds(
                    c,
                    i,
                    t,
                );
            assert(rules.within(c, self.rows()));
        }
    }

    /// The rules of the solver say of cells and variants what the solver says.
    pub(super) proof fn lemma_rules_agree(&self)
        requires
            self.wf(),
        ensures
            self.rules().cells() == self.cells(),
            self.rules().count() == self.count(),
            self.rules().shaped(self.rows()),
            forall|i: int, t: int|
                0 <= i < self.cells() && 0 <= t < self.count() ==> #[trigger] holds(self.rows(), i, t)
                    == self.live(i, t),
            forall|d: int, t1: int, t2: int|
                0 <= d < 4 && 0 <= t1 < self.count() ==> #[trigger] self.rules().permits(d, t1, t2)
                    == self.permits(d, t1, t2),
            forall|i: int, d: int| #[trigger] self.rules().source(i, d) == self.source(i, d),
    {
    }

    /// Two solvers with the same rules and the same wave uphold the same waves.
    pub(super) proof fn lemma_upholds_same(&self, other: &SimpleTiled, origin: Seq<Seq<bool>>)
        requires
            self.upholds(origin),
            other.same_rules(self),
            other.wave == self.wave,
        ensures
            other.upholds(origin),
            other.rules() == self.rules(),
            other.rows() == self.rows(),
    {
        assert(other.rules().lists =~~= self.rules().lists);
        assert(other.rows() =~~= self.rows());
    }

    /// A solver upholds its own wave.
    pub(super) proof fn lemma_upholds_itself(&self)
        ensures
            self.upholds(self.rows()),
    {
    }

    /// Removing a variant that has no supporter from some direction removes nothing that a
    /// stable wave marks.
    pub(super) proof fn lemma_ban_upholds(&self, after: &SimpleTiled, origin: Seq<Seq<bool>>, i: int, t: int, d: int)
        requires
            self.wf(),
            self.upholds(origin),
            self.banned(after, i, t),
            0 <= i < self.cells(),
            0 <= t < self.count(),
            0 <= d < 4,
            self.wave[i][t],
            self.source(i, d) is Some,
            self.support(i, t, d) <= 0,
        ensures
            after.upholds(origin),
    {
        self.lemma_rules_agree();
        after.lemma_rules_agree();
        assert(after.rules().lists =~~= self.rules().lists);
        assert(after.rules() == self.rules());
        let rules = self.rules();
        let s = self.source(i, d)->0;
        self.lemma_source_in_grid(i, d);
        let o = spec_opposite(d);
        let list = self.propagator.list(o, t);
        assert(crate::propagator::ascending(self.propagator.lists[o][t]@, self.count()));
        lemma_tally_bounds(list, self.present_row(s), list.len() as int);
        assert forall|c: Seq<Seq<bool>>|
            #[trigger] rules.stable(c) && rules.shaped(c) && rules.within(c, origin) implies rules.within(
            c,
            after.rows(),
        ) by {
            assert(rules.within(c, self.rows()));
            assert forall|j: int, u: int|
                0 <= j < rules.cells() && 0 <= u < rules.count() && #[trigger] holds(c, j, u) implies holds(
                after.rows(),
                j,
                u,
            ) by {
                assert(holds(self.rows(), j, u));
                if j == i && u == t {
                    assert(rules.fed(c, i, t, d));
                    let v = choose|v: int|
                        0 <= v < rules.count() && #[trigger] holds(c, s, v) && rules.permits(o, t, v);
                    assert(holds(self.rows(), s, v));
                    assert(self.permits(o, t, v));
                    let k = choose|k: int| 0 <= k < list.len() && list[k] == v as usize;
                    assert(self.present_row(s)[list[k] as int]);
                    assert(false);
                }
                assert(after.wave[j][u] == (self.wave[j][u] && !(j == i && u == t)));
            }
        }
    }

    /// While no removal waits and every possible variant has its supporters, the wave of
    /// the solver is stable.
    proof fn lemma_settled_is_stable(&self)
        requires
            self.wf(),
            self.support_ok(no_gap()),
            self.nourished(),
            self.stack.len() == 0,
        ensures
            self.rules().stable(self.rows()),
    {
        self.lemma_rules_agree();
        let rules = self.rules();
        let w = self.rows();
        assert forall|i: int, t: int, d: int|
            0 <= i < rules.cells() && 0 <= t < rules.count() && 0 <= d < 4 && holds(w, i, t) implies #[trigger] rules.fed(
            w,
            i,
            t,
            d,
        ) by {
            if self.source(i, d) is Some {
                let j = self.source(i, d)->0;
                self.lemma_source_in_grid(i, d);
                self.lemma_counters_are_right(i, t, d);
                assert(self.compatible[i][t][d] >= 1);
                let o = spec_opposite(d);
                let list = self.list(o, t);
                assert(crate::propagator::ascending(self.propagator.lists[o][t]@, self.count()));
                lemma_tally_bounds(list, self.row(j), list.len() as int);
                let k = choose|k: int| 0 <= k < list.len() && self.row(j)[#[trigger] list[k] as int];
                let u = list[k] as int;
                assert(list.contains(list[k]));
                assert(holds(w, j, u) && rules.permits(o, t, u));
            }
        }
    }

    /// Once propagation has ended without a contradiction, the wave of the solver is the
    /// kernel of the wave that it started from, and that kernel leaves no cell empty.
    pub(super) proof fn lemma_kernel_reached(&self, origin: Seq<Seq<bool>>)
        requires
            self.wf(),
            self.counts_ok(),
            self.support_ok(no_gap()),
            self.nourished(),
            self.stack.len() == 0,
            !self.contradiction,
            self.upholds(origin),
            self.rules().within(self.rows(), origin),
        ensures
            self.rules().settle(origin) == Some(self.rows()),
    {
        self.lemma_rules_agree();
        self.lemma_settled_is_stable();
        let rules = self.rules();
        let w = self.rows();
        let k = rules.kernel(origin);
        crate::grid::lemma_cells_nonnegative(self.width as int, self.height as int);
        rules.lemma_kernel_within(origin);
        rules.lemma_stable_in_kernel(w, origin);
        assert forall|i: int| 0 <= i < rules.cells() implies k[i] == w[i] by {
            assert forall|t: int| 0 <= t < rules.count() implies k[i][t] == w[i][t] by {
                if rules.in_kernel(origin, i, t) {
                    let c = choose|c: Seq<Seq<bool>>|
                        #[trigger] rules.stable(c) && rules.shaped(c) && rules.within(c, origin)
                            && holds(c, i, t);
                    assert(rules.within(c, w));
                    assert(holds(w, i, t));
                }
                assert(holds(w, i, t) ==> holds(k, i, t));
            }
            assert(k[i] =~= w[i]);
        }
        assert(k =~= w);
        if rules.dead(k) {
            let i = choose|i: int| 0 <= i < rules.cells() && #[trigger] rules.empty_at(k, i);
            assert(self.cell_counted(i));
            assert(self.sums_of_ones[i] != 0);
            assert forall|t: int| 0 <= t < self.count() implies !self.wave[i]@[t] by {
                assert(!holds(k, i, t));
            }
            Self::lemma_empty_count(self.count(), self.count());
            lemma_census_same(
                self.tiles@,
                self.weight_log_weights@,
                self.wave[i]@,
                Seq::new(self.count() as nat, |u: int| false),
                self.count(),
            );
        }
    }

    /// Once a cell has no possible variant left, the kernel of the wave that propagation
    /// started from leaves that cell empty.
    pub(super) proof fn lemma_kernel_dead(&self, origin: Seq<Seq<bool>>)
        requires
            self.wf(),
            self.counts_ok(),
            self.contradiction,
            self.upholds(origin),
        ensures
            self.rules().settle(origin) is None,
    {
        self.lemma_rules_agree();
        let rules = self.rules();
        let k = rules.kernel(origin);
        let i = choose|i: int| 0 <= i < self.cells() && #[trigger] self.sums_of_ones[i] == 0;
        assert(self.cell_counted(i));
        lemma_count_zero(self.wave[i]@, self.count());
        assert forall|t: int| 0 <= t < rules.count() implies !#[trigger] holds(k, i, t) by {
            if rules.in_kernel(origin, i, t) {
                let c = choose|c: Seq<Seq<bool>>|
                    #[trigger] rules.stable(c) && rules.shaped(c) && rules.within(c, origin) && holds(
                        c,
                        i,
                        t,
                    );
                assert(rules.within(c, self.rows()));
                assert(holds(self.rows(), i, t));
            }
        }
        assert(rules.empty_at(k, i));
    }

    /// A solver within another has its wave within the wave of the other.
    pub(super) proof fn lemma_within_rows(&self, before: &SimpleTiled)
        requires
            self.wf(),
            before.wf(),
            self.same_rules(before),
            self.within(before),
        ensures
            self.rules().within(self.rows(), before.rows()),
            self.rules() == before.rules(),
    {
        self.lemma_rules_agree();
        before.lemma_rules_agree();
        assert(self.rules().lists =~~= before.rules().lists);
        assert forall|i: int, t: int|
            0 <= i < self.cells() && 0 <= t < self.count() && #[trigger] holds(self.rows(), i, t) implies holds(
            before.rows(),
            i,
            t,
        ) by {
            assert(self.live(i, t));
        }
    }
}

} // verus!
