//! What a solver is made for, and what its runs compute: the grid, the variants and their
//! adjacencies, and the largest wave within a wave in which every variant has its supporters.
use vstd::prelude::*;
use crate::census::{count_true, log_sum, weight_sum};
use crate::entropy::spec_entropy;
use crate::grid::{spec_neighbor, spec_opposite};
use crate::random::{seeded_state, spec_draw, spec_drawn, spec_random_from_distr};
use crate::select::{spec_first_candidate, spec_scan};
use crate::model::Heuristic;
use crate::tile::TileObject;

verus! {

/// The grid, the variants with their weights, the adjacency lists and the heuristic.
pub struct Rules {
    pub width: int,
    pub height: int,
    pub periodic: bool,
    pub heuristic: Heuristic,
    pub tiles: Seq<TileObject>,
    pub logs: Seq<u64>,
    pub lists: Seq<Seq<Seq<usize>>>,
}

/// How a run ends: whether it met no contradiction, whether it came to the end (no cell
/// was left with more than one variant), and the wave that it left.
pub struct Outcome {
    pub success: bool,
    pub finished: bool,
    pub wave: Seq<Seq<bool>>,
}

/// The first variant at or after `from` that `row` marks, and the length of `row` if there
/// is none.
pub open spec fn first_marked(row: Seq<bool>, from: int) -> int
    decreases row.len() - from,
{
    if from >= row.len() {
        row.len() as int
    } else if row[from] {
        from
    } else {
        first_marked(row, from + 1)
    }
}

/// Whether the wave `w` marks variant `t` at cell `i`.
pub open spec fn holds(w: Seq<Seq<bool>>, i: int, t: int) -> bool {
    w[i][t]
}

impl Rules {
    /// The number of cells.
    pub open spec fn cells(self) -> int {
        self.width * self.height
    }

    /// The number of variants.
    pub open spec fn count(self) -> int {
        self.tiles.len() as int
    }

    /// Whether `w` has a row for every cell and in each row a mark for every variant.
    pub open spec fn shaped(self, w: Seq<Seq<bool>>) -> bool {
        &&& w.len() == self.cells()
        &&& forall|i: int| 0 <= i < self.cells() ==> (#[trigger] w[i]).len() == self.count()
    }

    /// Whether variant `t2` may lie next to variant `t1` in direction `d`.
    pub open spec fn permits(self, d: int, t1: int, t2: int) -> bool {
        self.lists[d][t1].contains(t2 as usize)
    }

    /// The cell of which cell `i` is the neighbour in direction `d`, if there is one.
    pub open spec fn source(self, i: int, d: int) -> Option<int> {
        spec_neighbor(self.width, self.height, self.periodic, i, spec_opposite(d))
    }

    /// Whether, in the wave `w`, variant `t` at cell `i` has a supporter from direction `d`
    /// if the cell has a neighbour to be supported from: a variant marked there that lets `t`
    /// lie next to it.
    pub open spec fn fed(self, w: Seq<Seq<bool>>, i: int, t: int, d: int) -> bool {
        self.source(i, d) matches Some(j) ==> exists|u: int|
            0 <= u < self.count() && #[trigger] holds(w, j, u) && self.permits(
                spec_opposite(d),
                t,
                u,
            )
    }

    /// Whether every variant that `w` marks has its supporters from all four directions.
    pub open spec fn stable(self, w: Seq<Seq<bool>>) -> bool {
        forall|i: int, t: int, d: int|
            0 <= i < self.cells() && 0 <= t < self.count() && 0 <= d < 4 && holds(w, i, t)
                ==> #[trigger] self.fed(w, i, t, d)
    }

    /// Whether `w` marks whatever `c` marks.
    pub open spec fn within(self, c: Seq<Seq<bool>>, w: Seq<Seq<bool>>) -> bool {
        forall|i: int, t: int|
            0 <= i < self.cells() && 0 <= t < self.count() && #[trigger] holds(c, i, t) ==> holds(
                w,
                i,
                t,
            )
    }

    /// Whether some stable wave within `w` marks variant `t` at cell `i`.
    pub open spec fn in_kernel(self, w: Seq<Seq<bool>>, i: int, t: int) -> bool {
        exists|c: Seq<Seq<bool>>|
            #[trigger] self.stable(c) && self.shaped(c) && self.within(c, w) && holds(c, i, t)
    }

    /// The largest stable wave within `w`: what is left of `w` when every variant without a
    /// supporter is removed, again and again.
    pub open spec fn kernel(self, w: Seq<Seq<bool>>) -> Seq<Seq<bool>> {
        Seq::new(
            self.cells() as nat,
            |i: int| Seq::new(self.count() as nat, |t: int| self.in_kernel(w, i, t)),
        )
    }

    /// Whether `w` marks no variant at cell `i`.
    pub open spec fn empty_at(self, w: Seq<Seq<bool>>, i: int) -> bool {
        forall|t: int| 0 <= t < self.count() ==> !#[trigger] holds(w, i, t)
    }

    /// Whether `w` marks no variant at some cell.
    pub open spec fn dead(self, w: Seq<Seq<bool>>) -> bool {
        exists|i: int| 0 <= i < self.cells() && #[trigger] self.empty_at(w, i)
    }

    /// What propagation makes of `w`: its largest stable wave, or nothing if that leaves
    /// some cell without a variant.
    pub open spec fn settle(self, w: Seq<Seq<bool>>) -> Option<Seq<Seq<bool>>> {
        let k = self.kernel(w);
        if self.dead(k) {
            None
        } else {
            Some(k)
        }
    }

    /// The wave that marks every variant at every cell.
    pub open spec fn full(self) -> Seq<Seq<bool>> {
        Seq::new(self.cells() as nat, |i: int| Seq::new(self.count() as nat, |t: int| true))
    }

    /// The kernel of a wave is a wave within it.
    pub proof fn lemma_kernel_within(self, w: Seq<Seq<bool>>)
        requires
            0 <= self.cells(),
        ensures
            self.shaped(self.kernel(w)),
            self.within(self.kernel(w), w),
    {
        let k = self.kernel(w);
        assert forall|i: int, t: int|
            0 <= i < self.cells() && 0 <= t < self.count() && #[trigger] holds(k, i, t) implies holds(
            w,
            i,
            t,
        ) by {
            assert(self.in_kernel(w, i, t));
            let c = choose|c: Seq<Seq<bool>>|
                #[trigger] self.stable(c) && self.shaped(c) && self.within(c, w) && holds(c, i, t);
            assert(holds(c, i, t));
        }
    }

    /// A stable wave within a wave is within the kernel of that wave.
    pub proof fn lemma_stable_in_kernel(self, c: Seq<Seq<bool>>, w: Seq<Seq<bool>>)
        requires
            self.stable(c),
            self.shaped(c),
            self.within(c, w),
        ensures
            self.within(c, self.kernel(w)),
    {
        let k = self.kernel(w);
        assert forall|i: int, t: int|
            0 <= i < self.cells() && 0 <= t < self.count() && #[trigger] holds(c, i, t) implies holds(
            k,
            i,
            t,
        ) by {
            assert(self.in_kernel(w, i, t));
        }
    }

    /// A wave that lies between a wave and its kernel has the same kernel.
    pub proof fn lemma_kernel_between(self, w: Seq<Seq<bool>>, middle: Seq<Seq<bool>>)
        requires
            0 <= self.cells(),
            self.within(middle, w),
            self.within(self.kernel(w), middle),
        ensures
            self.kernel(middle) == self.kernel(w),
    {
        let a = self.kernel(middle);
        let b = self.kernel(w);
        assert forall|i: int, t: int| 0 <= i < self.cells() && 0 <= t < self.count() implies self.in_kernel(
            middle,
            i,
            t,
        ) == self.in_kernel(w, i, t) by {
            if self.in_kernel(middle, i, t) {
                let c = choose|c: Seq<Seq<bool>>|
                    #[trigger] self.stable(c) && self.shaped(c) && self.within(c, middle) && holds(
                        c,
                        i,
                        t,
                    );
                assert(self.within(c, w)) by {
                    assert forall|j: int, u: int|
                        0 <= j < self.cells() && 0 <= u < self.count() && #[trigger] holds(
                            c,
                            j,
                            u,
                        ) implies holds(w, j, u) by {
                        assert(holds(middle, j, u));
                    }
                }
            }
            if self.in_kernel(w, i, t) {
                let c = choose|c: Seq<Seq<bool>>|
                    #[trigger] self.stable(c) && self.shaped(c) && self.within(c, w) && holds(c, i, t);
                self.lemma_stable_in_kernel(c, w);
                assert(self.within(c, middle)) by {
                    assert forall|j: int, u: int|
                        0 <= j < self.cells() && 0 <= u < self.count() && #[trigger] holds(
                            c,
                            j,
                            u,
                        ) implies holds(middle, j, u) by {
                        assert(holds(b, j, u));
                    }
                }
            }
        }
        assert forall|i: int| 0 <= i < self.cells() implies a[i] == b[i] by {
            assert(a[i] =~= b[i]);
        }
        assert(a =~= b);
    }

    /// For each cell the number of variants that `w` marks there.
    pub open spec fn option_counts(self, w: Seq<Seq<bool>>) -> Seq<usize> {
        Seq::new(self.cells() as nat, |i: int| count_true(w[i], self.count()) as usize)
    }

    /// For each cell the entropy of the variants that `w` marks there.
    pub open spec fn entropies(self, w: Seq<Seq<bool>>) -> Seq<i64> {
        Seq::new(
            self.cells() as nat,
            |i: int|
                spec_entropy(
                    weight_sum(self.tiles, w[i], self.count()),
                    log_sum(self.logs, w[i], self.count()),
                ) as i64,
        )
    }

    /// The cell that the heuristic collapses next in the wave `w`, if there is one, and what
    /// the generator is made up of by then, having been made up of `state`. The scan line
    /// takes the first cell with more than one variant and draws nothing; the other two
    /// heuristics scan all cells.
    pub open spec fn choose_cell(self, w: Seq<Seq<bool>>, state: Seq<u32>) -> (Option<int>, Seq<u32>) {
        if self.heuristic == Heuristic::ScanLine {
            (
                spec_first_candidate(
                    self.width,
                    self.height,
                    self.periodic,
                    self.option_counts(w),
                    0,
                ),
                state,
            )
        } else {
            let found = spec_scan(
                self.heuristic,
                self.width,
                self.height,
                self.periodic,
                self.option_counts(w),
                self.entropies(w),
                0,
                None,
                state,
            );
            (
                match found.0 {
                    Some(pick) => Some(pick.cell),
                    None => None,
                },
                found.1,
            )
        }
    }

    /// The weights from which a variant is drawn for a cell whose possible variants are
    /// `row`: the weight of each variant that is marked, and 0 for the others.
    pub open spec fn distribution(self, row: Seq<bool>) -> Seq<u32> {
        Seq::new(
            self.count() as nat,
            |t: int|
                if row[t] {
                    self.tiles[t].weight
                } else {
                    0u32
                },
        )
    }

    /// The wave `w` with cell `node` collapsed to variant `k`: of the variants at `node`
    /// only `k` stays, if it was marked.
    pub open spec fn collapse(self, w: Seq<Seq<bool>>, node: int, k: int) -> Seq<Seq<bool>> {
        w.update(node, Seq::new(self.count() as nat, |t: int| w[node][t] && t == k))
    }

    /// What at most `limit` collapses make of the stable wave `w`, with a generator made up
    /// of `state`. Each round chooses a cell, draws one of its variants by weight, collapses
    /// the cell and lets propagation settle the wave. The run ends with success when no cell
    /// is left to choose, without success when a wave does not settle, and with success but
    /// not finished when the rounds run out.
    pub open spec fn run_from(self, w: Seq<Seq<bool>>, state: Seq<u32>, limit: nat) -> Outcome
        decreases limit,
    {
        if limit == 0 {
            Outcome { success: true, finished: false, wave: w }
        } else {
            let choice = self.choose_cell(w, state);
            match choice.0 {
                None => Outcome { success: true, finished: true, wave: w },
                Some(node) => {
                    let k = spec_random_from_distr(self.distribution(w[node]), spec_draw(choice.1));
                    match self.settle(self.collapse(w, node, k)) {
                        None => Outcome { success: false, finished: false, wave: w },
                        Some(next) => self.run_from(next, spec_drawn(choice.1), (limit - 1) as nat),
                    }
                },
            }
        }
    }

    /// What a run with the generator made from `seed` and at most `limit` collapses comes
    /// to: the full wave is settled first, and then collapsed cell by cell.
    pub open spec fn run(self, seed: u64, limit: nat) -> Outcome {
        match self.settle(self.full()) {
            None => Outcome { success: false, finished: false, wave: self.full() },
            Some(w) => self.run_from(w, seeded_state(seed), limit),
        }
    }

    /// What a run observes: in a finished run for each cell the first variant that is left
    /// there, and nothing otherwise.
    pub open spec fn observed(self, outcome: Outcome) -> Seq<Option<usize>> {
        Seq::new(
            self.cells() as nat,
            |i: int|
                if outcome.success && outcome.finished {
                    Some(first_marked(outcome.wave[i], 0) as usize)
                } else {
                    None
                },
        )
    }
}

} // verus!
