//! The solver: the wave of variants that are still possible at each cell, the counters of
//! their supporters, and what it means that the books of the solver are right.
use vstd::prelude::*;
use crate::census::{count_true, full_row, log_sum, tally, total, undecided, weight_sum};
use crate::config::{spec_pairs, Config};
use crate::entropy::{spec_entropy, spec_weight_log_weight, ONE};
use crate::grid::{spec_neighbor, spec_opposite};
use crate::propagator::Propagator;
use crate::rules::Rules;
use crate::select::{spec_first_candidate, spec_scan, Pick};
use crate::text::spec_label;
use crate::tile::{expands, TileObject};

mod counters;
mod kernel;
mod laws;
mod make;
mod output;
mod propagate;
mod solve;

verus! {

/// The rule by which the next cell to collapse is chosen.
#[derive(Clone, Copy, Debug, PartialEq, Eq, Structural)]
pub enum Heuristic {
    /// A cell of least entropy, ties broken at random.
    Entropy,
    /// A cell with the fewest remaining variants, ties broken at random.
    MRV,
    /// The first cell, in row-major order, with more than one remaining variant.
    ScanLine,
}

/// A solver that can be run.
pub trait Model {
    /// Whether the solver is fit to run.
    spec fn ready(&self) -> bool;

    /// Runs the solver from scratch with the random stream of `seed`, for at most `limit`
    /// collapses. Returns whether no contradiction was met.
    fn run(&mut self, seed: u64, limit: usize) -> (success: bool)
        requires
            old(self).ready(),
        ensures
            final(self).ready(),
    ;
}

/// A solver holds no solution to show: some cell was not observed.
#[derive(Debug)]
pub struct IncompleteSolution;

/// A removal whose propagation is under way. The variant `variant` was removed from cell
/// `cell`; of the counters that counted it as a supporter, those of the directions before
/// `dir` have been lowered, and of direction `dir` those of the first `done` variants of the
/// list of `variant`. With `dir` at 4 or more no propagation is under way.
pub struct Gap {
    pub cell: int,
    pub variant: int,
    pub dir: int,
    pub done: int,
}

/// No propagation is under way.
pub open spec fn no_gap() -> Gap {
    Gap { cell: 0, variant: 0, dir: 4, done: 0 }
}

/// A solver over a grid of `width` by `height` cells.
#[derive(Debug)]
pub struct SimpleTiled {
    action: Vec<[usize; 8]>,
    tiles: Vec<TileObject>,
    tile_names: Vec<String>,
    wave: Vec<Vec<bool>>,
    propagator: Propagator,
    compatible: Vec<Vec<Vec<i64>>>,
    observed: Vec<Option<usize>>,
    stack: Vec<(usize, usize)>,
    observed_so_far: usize,
    width: usize,
    height: usize,
    num_tiles: usize,
    periodic: bool,
    weight_log_weights: Vec<u64>,
    sums_of_ones: Vec<usize>,
    sum_of_weights: u64,
    sum_of_weight_log_weights: u128,
    starting_entropy: i64,
    sums_of_weights: Vec<u64>,
    sums_of_weight_log_weights: Vec<u128>,
    entropies: Vec<i64>,
    contradiction: bool,
    heuristic: Heuristic,
}

impl SimpleTiled {
    /// The number of cells.
    pub closed spec fn cells(&self) -> int {
        self.width * self.height
    }

    /// The number of variants.
    pub closed spec fn count(&self) -> int {
        self.num_tiles as int
    }

    /// The variants with their weights.
    pub closed spec fn variants(&self) -> Seq<TileObject> {
        self.tiles@
    }

    /// Whether variant `t2` may lie next to variant `t1` in direction `d`.
    pub closed spec fn permits(&self, d: int, t1: int, t2: int) -> bool {
        self.propagator.permits(d, t1, t2)
    }

    /// The variants that may lie next to variant `t` in direction `d`.
    pub closed spec fn list(&self, d: int, t: int) -> Seq<usize> {
        self.propagator.list(d, t)
    }

    /// The cell next to cell `i` in direction `d`, if there is one.
    pub closed spec fn neighbor(&self, i: int, d: int) -> Option<int> {
        spec_neighbor(self.width as int, self.height as int, self.periodic, i, d)
    }

    /// The cell of which cell `i` is the neighbour in direction `d`, if there is one: the
    /// variants at that cell are the ones that support the variants at `i` from direction `d`.
    pub closed spec fn source(&self, i: int, d: int) -> Option<int> {
        self.neighbor(i, spec_opposite(d))
    }

    /// Whether variant `t` is still possible at cell `i`.
    pub closed spec fn live(&self, i: int, t: int) -> bool {
        self.wave[i][t]
    }

    /// The variants that are still possible at cell `i`.
    pub closed spec fn row(&self, i: int) -> Seq<bool> {
        self.wave[i]@
    }

    /// The counter of the supporters that variant `t` at cell `i` has from direction `d`.
    pub closed spec fn counter(&self, i: int, t: int, d: int) -> int {
        self.compatible[i][t][d] as int
    }

    /// The removals that wait for their propagation, the latest last.
    pub closed spec fn bans(&self) -> Seq<(usize, usize)> {
        self.stack@
    }

    /// The variant that each cell was found to hold, if any.
    pub closed spec fn observations(&self) -> Seq<Option<usize>> {
        self.observed@
    }

    /// The number of variants that are still possible at cell `i`, as the solver records it.
    pub closed spec fn options(&self, i: int) -> int {
        self.sums_of_ones[i] as int
    }

    /// The sum of the weights of the variants still possible at cell `i`, as recorded.
    pub closed spec fn weight(&self, i: int) -> int {
        self.sums_of_weights[i] as int
    }

    /// The sum, over the variants still possible at cell `i`, of the weight times its
    /// logarithm, as recorded.
    pub closed spec fn weighted_logs(&self, i: int) -> int {
        self.sums_of_weight_log_weights[i] as int
    }

    /// The entropy of cell `i`, as recorded.
    pub closed spec fn entropy(&self, i: int) -> int {
        self.entropies[i] as int
    }

    /// Whether some cell was found to have no possible variant left.
    pub closed spec fn contradicted(&self) -> bool {
        self.contradiction
    }

    /// Whether the tables of the solver have the sizes that the grid and the variants call
    /// for, and the rules are sound: the adjacency lists are in order and symmetric, and the
    /// totals over all variants are what the weights give.
    pub closed spec fn wf(&self) -> bool {
        let n = self.width * self.height;
        let count = self.num_tiles as int;
        &&& 1 <= count <= u32::MAX
        &&& n <= usize::MAX
        &&& self.action.len() == count
        &&& forall|t: int| 0 <= t < count ==> (#[trigger] self.action[t])[0] == t
        &&& self.tiles.len() == count
        &&& self.tile_names.len() == count
        &&& self.weight_log_weights.len() == count
        &&& forall|t: int|
            0 <= t < count ==> #[trigger] self.weight_log_weights[t] == spec_weight_log_weight(
                self.tiles[t].weight as int,
            )
        &&& forall|t: int|
            0 <= t < count ==> (#[trigger] self.weight_log_weights[t]) <= self.tiles[t].weight * (64
                * ONE)
        &&& self.propagator.wf(count)
        &&& self.propagator.symmetric(count)
        &&& self.sum_of_weights == weight_sum(self.tiles@, full_row(count), count)
        &&& self.sum_of_weight_log_weights == log_sum(
            self.weight_log_weights@,
            full_row(count),
            count,
        )
        &&& self.starting_entropy == spec_entropy(
            self.sum_of_weights as int,
            self.sum_of_weight_log_weights as int,
        )
        &&& self.wave.len() == n
        &&& forall|i: int| 0 <= i < n ==> (#[trigger] self.wave[i]).len() == count
        &&& self.compatible.len() == n
        &&& forall|i: int| 0 <= i < n ==> (#[trigger] self.compatible[i]).len() == count
        &&& forall|i: int, t: int|
            0 <= i < n && 0 <= t < count ==> (#[trigger] self.compatible[i][t]).len() == 4
        &&& self.observed.len() == n
        &&& self.sums_of_ones.len() == n
        &&& self.sums_of_weights.len() == n
        &&& self.sums_of_weight_log_weights.len() == n
        &&& self.entropies.len() == n
    }

    /// Whether two solvers have the same grid, variants, weights, adjacencies and heuristic.
    pub closed spec fn same_rules(&self, other: &SimpleTiled) -> bool {
        &&& self.action@ == other.action@
        &&& self.tiles@ == other.tiles@
        &&& self.tile_names@ == other.tile_names@
        &&& self.propagator == other.propagator
        &&& self.width == other.width
        &&& self.height == other.height
        &&& self.num_tiles == other.num_tiles
        &&& self.periodic == other.periodic
        &&& self.weight_log_weights@ == other.weight_log_weights@
        &&& self.sum_of_weights == other.sum_of_weights
        &&& self.sum_of_weight_log_weights == other.sum_of_weight_log_weights
        &&& self.starting_entropy == other.starting_entropy
        &&& self.heuristic == other.heuristic
    }

    /// Whether the sums that the solver records for cell `i` are those of the variants that
    /// are still possible there.
    pub closed spec fn cell_counted(&self, i: int) -> bool {
        let count = self.num_tiles as int;
        &&& self.sums_of_ones[i] == count_true(self.wave[i]@, count)
        &&& self.sums_of_weights[i] == weight_sum(self.tiles@, self.wave[i]@, count)
        &&& self.sums_of_weight_log_weights[i] == log_sum(
            self.weight_log_weights@,
            self.wave[i]@,
            count,
        )
        &&& self.entropies[i] == spec_entropy(
            self.sums_of_weights[i] as int,
            self.sums_of_weight_log_weights[i] as int,
        )
    }

    /// Whether the recorded sums of every cell are right, and the solver knows of a
    /// contradiction exactly if some cell has no possible variant left.
    pub closed spec fn counts_ok(&self) -> bool {
        &&& forall|i: int| 0 <= i < self.cells() ==> #[trigger] self.cell_counted(i)
        &&& self.contradiction <==> exists|i: int|
            0 <= i < self.cells() && #[trigger] self.sums_of_ones[i] == 0
    }

    /// Whether the waiting removals are removals: each names a cell and a variant that is no
    /// longer possible there, and none occurs twice.
    pub closed spec fn stack_ok(&self) -> bool {
        &&& forall|k: int|
            0 <= k < self.stack.len() ==> {
                let entry = #[trigger] self.stack[k];
                &&& entry.0 < self.cells()
                &&& entry.1 < self.num_tiles
                &&& !self.wave[entry.0 as int][entry.1 as int]
            }
        &&& self.stack@.no_duplicates()
    }

    /// Whether variant `u` still counts at cell `j`: it is possible there, or its removal
    /// waits for its propagation.
    pub closed spec fn present(&self, j: int, u: int) -> bool {
        self.wave[j][u] || self.stack@.contains((j as usize, u as usize))
    }

    /// The variants that still count at cell `j`.
    pub closed spec fn present_row(&self, j: int) -> Seq<bool> {
        Seq::new(self.num_tiles as nat, |u: int| self.present(j, u))
    }

    /// The number of supporters that variant `t` at cell `i` has from direction `d`: the
    /// variants that may lie next to `t` in the opposite direction and still count at the
    /// cell that `i` is the neighbour of. Where there is no such cell, every variant of the
    /// list counts.
    pub closed spec fn support(&self, i: int, t: int, d: int) -> int {
        let list = self.propagator.list(spec_opposite(d), t);
        match self.source(i, d) {
            Some(j) => tally(list, self.present_row(j), list.len() as int),
            None => list.len() as int,
        }
    }

    /// Whether the counter of variant `t` at cell `i` for direction `d` still counts the
    /// removed variant of the gap `g`.
    pub closed spec fn owed(&self, g: Gap, i: int, t: int, d: int) -> bool {
        &&& g.dir < 4
        &&& self.source(i, d) == Some(g.cell)
        &&& self.permits(spec_opposite(d), t, g.variant)
        &&& (d > g.dir || (d == g.dir && !self.list(d, g.variant).subrange(0, g.done).contains(
            t as usize,
        )))
    }

    /// What the counter of variant `t` at cell `i` for direction `d` holds while `t` is
    /// possible there.
    pub closed spec fn due(&self, g: Gap, i: int, t: int, d: int) -> int {
        self.support(i, t, d) + if self.owed(g, i, t, d) {
            1int
        } else {
            0
        }
    }

    /// Whether the counter of variant `t` at cell `i` for direction `d` is right: equal to
    /// what is due while `t` is possible there, and afterwards at most 0 and no further
    /// below what is due than the list is long.
    pub closed spec fn entry_ok(&self, g: Gap, i: int, t: int, d: int) -> bool {
        let counter = self.compatible[i][t][d] as int;
        if self.wave[i][t] {
            counter == self.due(g, i, t, d)
        } else {
            self.due(g, i, t, d) - self.propagator.list(spec_opposite(d), t).len() <= counter <= 0
        }
    }

    /// Whether the gap names a removal that has left the waiting ones.
    pub closed spec fn gap_ok(&self, g: Gap) -> bool {
        g.dir < 4 ==> {
            &&& 0 <= g.cell < self.cells()
            &&& 0 <= g.variant < self.count()
            &&& !self.present(g.cell, g.variant)
            &&& 0 <= g.dir
            &&& 0 <= g.done <= self.list(g.dir, g.variant).len()
        }
    }

    /// Whether every counter is right, given the gap `g`.
    pub closed spec fn support_ok(&self, g: Gap) -> bool {
        &&& self.gap_ok(g)
        &&& forall|i: int, t: int, d: int|
            0 <= i < self.cells() && 0 <= t < self.count() && 0 <= d < 4 ==> #[trigger] self.entry_ok(
                g,
                i,
                t,
                d,
            )
    }

    /// Whether every variant that is possible at a cell has a supporter from every direction
    /// in which the cell has a neighbour to be supported from.
    pub closed spec fn nourished(&self) -> bool {
        forall|i: int, t: int, d: int|
            0 <= i < self.cells() && 0 <= t < self.count() && 0 <= d < 4 && self.wave[i][t]
                && self.source(i, d) is Some ==> #[trigger] self.compatible[i][t][d] >= 1
    }

    /// Whether variant `t` is possible at cell `i` although its counter for direction `d`,
    /// in which the cell has a neighbour to be supported from, has run out.
    pub closed spec fn hungry(&self, i: int, t: int, d: int) -> bool {
        self.wave[i][t] && self.source(i, d) is Some && self.compatible[i][t][d] < 1
    }

    /// Whether variant `t` is possible at cell `i` although one of its counters has run out.
    pub closed spec fn starving(&self, i: int, t: int) -> bool {
        exists|d: int| 0 <= d < 4 && #[trigger] self.hungry(i, t, d)
    }

    /// Whether cell `i` is as a fresh run finds it: every variant possible, every counter at
    /// the length of its list, the sums those of all variants, and nothing observed.
    pub closed spec fn cell_cleared(&self, i: int) -> bool {
        &&& forall|t: int| 0 <= t < self.count() ==> #[trigger] self.wave[i][t]
        &&& forall|t: int, d: int|
            0 <= t < self.count() && 0 <= d < 4 ==> #[trigger] self.compatible[i][t][d]
                == self.propagator.list(spec_opposite(d), t).len()
        &&& self.sums_of_ones[i] == self.num_tiles
        &&& self.sums_of_weights[i] == self.sum_of_weights
        &&& self.sums_of_weight_log_weights[i] == self.sum_of_weight_log_weights
        &&& self.entropies[i] == self.starting_entropy
        &&& self.observed[i] is None
    }

    /// Whether the solver is as a fresh run finds it.
    pub closed spec fn is_cleared(&self) -> bool {
        &&& forall|i: int| 0 <= i < self.cells() ==> #[trigger] self.cell_cleared(i)
        &&& self.stack.len() == 0
        &&& self.observed_so_far == 0
        &&& !self.contradiction
    }

    /// Whether every variant that is possible at a cell in `self` is possible there in
    /// `before`.
    pub closed spec fn within(&self, before: &SimpleTiled) -> bool {
        forall|i: int, t: int|
            0 <= i < self.cells() && 0 <= t < self.count() && #[trigger] self.live(i, t)
                ==> before.live(i, t)
    }

    /// Whether `other` has the wave, the counters, the sums and the waiting removals of
    /// `self`, and its rules.
    pub closed spec fn agrees(&self, other: &SimpleTiled) -> bool {
        &&& other.same_rules(self)
        &&& other.wave == self.wave
        &&& other.compatible == self.compatible
        &&& other.stack == self.stack
        &&& other.sums_of_ones == self.sums_of_ones
        &&& other.sums_of_weights == self.sums_of_weights
        &&& other.sums_of_weight_log_weights == self.sums_of_weight_log_weights
        &&& other.entropies == self.entropies
        &&& other.contradiction == self.contradiction
        &&& other.observed.len() == self.observed.len()
    }

    /// The cell that the scan-line heuristic collapses next, if there is one.
    pub closed spec fn first_candidate(&self) -> Option<int> {
        spec_first_candidate(
            self.width as int,
            self.height as int,
            self.periodic,
            self.sums_of_ones@,
            self.observed_so_far as int,
        )
    }

    /// The cell that the other two heuristics collapse next, if there is one, and what the
    /// generator is made up of by then, having been made up of `state`.
    pub closed spec fn scan(&self, state: Seq<u32>) -> (Option<Pick>, Seq<u32>) {
        spec_scan(
            self.heuristic,
            self.width as int,
            self.height as int,
            self.periodic,
            self.sums_of_ones@,
            self.entropies@,
            0,
            None,
            state,
        )
    }

    /// Whether the heuristic of the solver is the scan line.
    pub closed spec fn scans_in_line(&self) -> bool {
        self.heuristic == Heuristic::ScanLine
    }

    /// The cell from which the scan line goes on.
    pub closed spec fn pointer(&self) -> int {
        self.observed_so_far as int
    }

    /// The weights from which a variant is drawn for a cell with the possible variants `row`:
    /// the weight of each variant that is possible, and 0 for the others.
    pub closed spec fn distribution(&self, row: Seq<bool>) -> Seq<u32> {
        Seq::new(
            self.num_tiles as nat,
            |t: int|
                if row[t] {
                    self.tiles[t].weight
                } else {
                    0u32
                },
        )
    }

    /// The number of cells with more than one possible variant.
    pub closed spec fn open_cells(&self) -> int {
        undecided(self.sums_of_ones@, self.sums_of_ones.len() as int)
    }

    /// Whether every cell holds exactly one possible variant and was observed to hold it.
    pub closed spec fn complete(&self) -> bool {
        forall|i: int|
            0 <= i < self.cells() ==> {
                &&& #[trigger] self.sums_of_ones[i] == 1
                &&& self.observed[i] is Some
                &&& self.observed[i]->0 < self.num_tiles
                &&& self.wave[i][self.observed[i]->0 as int]
            }
    }

    /// Whether no cell was observed.
    pub closed spec fn unobserved(&self) -> bool {
        forall|i: int| 0 <= i < self.cells() ==> (#[trigger] self.observed[i]) is None
    }

    /// Whether the solver holds a solution: its sums and counters are right, no removal
    /// waits, every possible variant has its supporters, and every cell holds one variant.
    pub closed spec fn solved(&self) -> bool {
        &&& self.wf()
        &&& self.counts_ok()
        &&& self.stack_ok()
        &&& self.support_ok(no_gap())
        &&& self.nourished()
        &&& self.stack.len() == 0
        &&& self.complete()
    }

    /// What the solver is made for: its grid, its variants, its adjacency lists and its
    /// heuristic.
    pub closed spec fn rules(&self) -> Rules {
        Rules {
            width: self.width as int,
            height: self.height as int,
            periodic: self.periodic,
            heuristic: self.heuristic,
            tiles: self.tiles@,
            logs: self.weight_log_weights@,
            lists: Seq::new(
                4,
                |d: int| Seq::new(self.num_tiles as nat, |t: int| self.propagator.lists[d][t]@),
            ),
        }
    }

    /// The wave: for each cell the variants that are possible there.
    pub closed spec fn rows(&self) -> Seq<Seq<bool>> {
        Seq::new(self.wave.len() as nat, |i: int| self.wave[i]@)
    }

    /// Whether every stable wave within `origin` is within the wave of the solver: no
    /// variant was removed that a stable wave within `origin` marks.
    pub closed spec fn upholds(&self, origin: Seq<Seq<bool>>) -> bool {
        forall|c: Seq<Seq<bool>>|
            #[trigger] self.rules().stable(c) && self.rules().shaped(c) && self.rules().within(
                c,
                origin,
            ) ==> self.rules().within(c, self.rows())
    }

    /// The number of possible variants, summed over all cells.
    pub closed spec fn remaining(&self) -> int {
        total(self.sums_of_ones@, self.sums_of_ones.len() as int)
    }

    /// Whether `after` is `self` but for the counters, the waiting removals and what the
    /// caller says of them.
    pub closed spec fn same_wave(&self, after: &SimpleTiled) -> bool {
        &&& after.same_rules(self)
        &&& after.wave == self.wave
        &&& after.observed == self.observed
        &&& after.observed_so_far == self.observed_so_far
        &&& after.sums_of_ones == self.sums_of_ones
        &&& after.sums_of_weights == self.sums_of_weights
        &&& after.sums_of_weight_log_weights == self.sums_of_weight_log_weights
        &&& after.entropies == self.entropies
        &&& after.contradiction == self.contradiction
    }

    /// Whether removing variant `t` from cell `i` makes `after` of `self`: the variant is no
    /// longer possible there, its four counters are 0, the removal waits for its
    /// propagation, and nothing else about the wave and the counters has changed.
    pub closed spec fn banned(&self, after: &SimpleTiled, i: int, t: int) -> bool {
        &&& after.same_rules(self)
        &&& after.wf()
        &&& forall|j: int, u: int|
            0 <= j < self.cells() && 0 <= u < self.count() ==> #[trigger] after.wave[j][u] == (
            self.wave[j][u] && !(j == i && u == t))
        &&& forall|j: int, u: int, d: int|
            0 <= j < self.cells() && 0 <= u < self.count() && 0 <= d < 4
                ==> #[trigger] after.compatible[j][u][d] == if j == i && u == t {
                0
            } else {
                self.compatible[j][u][d]
            }
        &&& after.stack@ == self.stack@.push((i as usize, t as usize))
        &&& after.observed@ == self.observed@
        &&& after.observed_so_far == self.observed_so_far
    }

    /// The measure by which propagation ends: every removal lowers it, and so does every
    /// removal taken up for propagation.
    pub closed spec fn effort(&self) -> int {
        2 * self.remaining() + self.stack.len()
    }

    /// The action table: `action_table()[t][k]` is the variant that symmetry `k` of the
    /// square makes of variant `t`.
    pub closed spec fn action_table(&self) -> Seq<[usize; 8]> {
        self.action@
    }

    /// The labels of the variants.
    pub closed spec fn labels(&self) -> Seq<String> {
        self.tile_names@
    }

    /// For each variant its weight times the logarithm of the weight.
    pub closed spec fn logs(&self) -> Seq<u64> {
        self.weight_log_weights@
    }

    /// The width of the grid.
    pub closed spec fn spec_width(&self) -> int {
        self.width as int
    }

    /// The height of the grid.
    pub closed spec fn spec_height(&self) -> int {
        self.height as int
    }

    /// Whether the grid wraps around at its edges.
    pub closed spec fn wraps(&self) -> bool {
        self.periodic
    }

    /// The rule by which the next cell to collapse is chosen.
    pub closed spec fn rule(&self) -> Heuristic {
        self.heuristic
    }

    /// Whether every observed variant is a variant.
    pub closed spec fn observed_ok(&self) -> bool {
        forall|i: int|
            0 <= i < self.observed.len() ==> ((#[trigger] self.observed[i]) matches Some(k) ==> k
                < self.num_tiles)
    }

    /// Whether two solvers are in the same state: the same variants are possible, the
    /// counters, the sums and the waiting removals are the same, and so is what was observed.
    pub closed spec fn same_state(&self, other: &SimpleTiled) -> bool {
        &&& forall|i: int, t: int|
            0 <= i < self.cells() && 0 <= t < self.count() ==> #[trigger] self.live(i, t) == other.live(
                i,
                t,
            )
        &&& forall|i: int, t: int, d: int|
            0 <= i < self.cells() && 0 <= t < self.count() && 0 <= d < 4 ==> #[trigger] self.counter(
                i,
                t,
                d,
            ) == other.counter(i, t, d)
        &&& self.stack@ == other.stack@
        &&& self.observed@ == other.observed@
        &&& self.sums_of_ones@ == other.sums_of_ones@
        &&& self.sums_of_weights@ == other.sums_of_weights@
        &&& self.sums_of_weight_log_weights@ == other.sums_of_weight_log_weights@
        &&& self.entropies@ == other.entropies@
        &&& self.observed_so_far == other.observed_so_far
        &&& self.contradiction == other.contradiction
    }

    /// Whether the solver is the one that `config` gives for a grid of `width` by `height`
    /// cells, where the tiles have the keys `keys`: its variants and its action table are
    /// those of the tiles, its labels are the keys with the numbers of the orientations, and
    /// its adjacency lists hold exactly what the declared adjacencies allow.
    pub closed spec fn made_of(
        &self,
        config: Config,
        keys: Seq<Seq<char>>,
        width: usize,
        height: usize,
        periodic: bool,
        heuristic: Heuristic,
    ) -> bool {
        &&& self.width == width
        &&& self.height == height
        &&& self.periodic == periodic
        &&& self.heuristic == heuristic
        &&& expands(self.action@, self.tiles@, config.tiles@)
        &&& self.propagator.follows(
            self.action@,
            spec_pairs(config.tiles@, keys, config.neighbors@),
        )
        &&& forall|t: int|
            0 <= t < self.tile_names.len() ==> (#[trigger] self.tile_names[t])@ == spec_label(
                keys[self.tiles[t].source as int],
                self.tiles[t].orientation(),
            )
    }
}

} // verus!
