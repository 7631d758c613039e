//! What a solver shows of itself: its tables, its solution and a text of it.
use vstd::prelude::*;
use crate::census::lemma_push_contains;
use crate::model::{Heuristic, IncompleteSolution, SimpleTiled};
use crate::text::{append_decimal, spec_decimal_text};
use crate::tile::TileObject;

verus! {

impl SimpleTiled {
    /// The width of the grid in cells.
    pub fn width(&self) -> (w: usize)
        ensures
            w == self.spec_width(),
    {
        self.width
    }

    /// The height of the grid in cells.
    pub fn height(&self) -> (h: usize)
        ensures
            h == self.spec_height(),
    {
        self.height
    }

    /// Whether the grid wraps around at its edges.
    pub fn periodic(&self) -> (wraps: bool)
        ensures
            wraps == self.wraps(),
    {
        self.periodic
    }

    /// The rule by which the next cell to collapse is chosen.
    pub fn heuristic(&self) -> (rule: Heuristic)
        ensures
            rule == self.rule(),
    {
        self.heuristic
    }

    /// The number of variants.
    pub fn num_tiles(&self) -> (n: usize)
        ensures
            n == self.count(),
    {
        self.num_tiles
    }

    /// The variant that each cell was observed to hold, in row-major order.
    pub fn observed(&self) -> (list: &Vec<Option<usize>>)
        ensures
            list@ == self.observations(),
    {
        &self.observed
    }

    /// Whether variant `t` is still possible at cell `i`.
    pub fn is_possible(&self, i: usize, t: usize) -> (possible: bool)
        requires
            self.wf(),
            i < self.cells(),
            t < self.count(),
        ensures
            possible == self.live(i as int, t as int),
    {
        self.wave[i][t]
    }

    /// The number of variants that are still possible at cell `i`.
    pub fn sum_of_ones(&self, i: usize) -> (n: usize)
        requires
            self.wf(),
            i < self.cells(),
        ensures
            n == self.options(i as int),
    {
        self.sums_of_ones[i]
    }

    /// The sum of the weights of the variants that are still possible at cell `i`.
    pub fn sum_of_weights(&self, i: usize) -> (sum: u64)
        requires
            self.wf(),
            i < self.cells(),
        ensures
            sum == self.weight(i as int),
    {
        self.sums_of_weights[i]
    }

    /// The sum, over the variants that are still possible at cell `i`, of the weight times
    /// its logarithm.
    pub fn sum_of_weight_log_weights(&self, i: usize) -> (sum: u128)
        requires
            self.wf(),
            i < self.cells(),
        ensures
            sum == self.weighted_logs(i as int),
    {
        self.sums_of_weight_log_weights[i]
    }

    /// The entropy of cell `i`, in bits and in fixed point.
    pub fn entropy_of(&self, i: usize) -> (e: i64)
        requires
            self.wf(),
            i < self.cells(),
        ensures
            e == self.entropy(i as int),
    {
        self.entropies[i]
    }

    /// The counter of the supporters of variant `t` at cell `i` from direction `d`.
    pub fn compatible(&self, i: usize, t: usize, d: usize) -> (c: i64)
        requires
            self.wf(),
            i < self.cells(),
            t < self.count(),
            d < 4,
        ensures
            c == self.counter(i as int, t as int, d as int),
    {
        self.compatible[i][t][d]
    }

    /// The variants that may lie next to variant `t` in direction `d`, in increasing order.
    pub fn allowed(&self, d: usize, t: usize) -> (list: &Vec<usize>)
        requires
            self.wf(),
            d < 4,
            t < self.count(),
        ensures
            list@ == self.list(d as int, t as int),
    {
        &self.propagator.lists[d][t]
    }

    /// The row of the action table for variant `t`.
    pub fn action_row(&self, t: usize) -> (row: [usize; 8])
        requires
            self.wf(),
            t < self.count(),
        ensures
            row == self.action_table()[t as int],
    {
        self.action[t]
    }

    /// Variant `t`: its tile, its orientation and its weight.
    pub fn tile(&self, t: usize) -> (object: TileObject)
        requires
            self.wf(),
            t < self.count(),
        ensures
            object == self.variants()[t as int],
    {
        self.tiles[t]
    }

    /// The label of variant `t`: the key of its tile and the number of its orientation.
    pub fn tile_name(&self, t: usize) -> (name: &String)
        requires
            self.wf(),
            t < self.count(),
        ensures
            *name == self.labels()[t as int],
    {
        &self.tile_names[t]
    }

    /// The number of removals that wait for their propagation.
    pub fn waiting(&self) -> (n: usize)
        ensures
            n == self.bans().len(),
    {
        self.stack.len()
    }

    /// Whether some cell was found to have no possible variant left.
    pub fn has_contradiction(&self) -> (found: bool)
        ensures
            found == self.contradicted(),
    {
        self.contradiction
    }

    /// The variants without a possible neighbour in some direction, each with the direction:
    /// such a variant cannot lie at a cell with a neighbour there.
    pub fn dead_ends(&self) -> (list: Vec<(usize, usize)>)
        requires
            self.wf(),
        ensures
            forall|t: int, d: int|
                0 <= t < self.count() && 0 <= d < 4 ==> (list@.contains((t as usize, d as usize))
                    <==> self.list(d, t).len() == 0),
            forall|k: int|
                0 <= k < list.len() ==> (#[trigger] list[k]).0 < self.count() && list[k].1 < 4,
            forall|a: int, b: int|
                0 <= a < b < list.len() ==> list[a].1 < list[b].1 || (list[a].1 == list[b].1
                    && list[a].0 < list[b].0),
    {
        let mut list: Vec<(usize, usize)> = Vec::new();
        let mut d: usize = 0;
        while d < 4
            invariant
                self.wf(),
                d <= 4,
                forall|t: int, e: int|
                    0 <= t < self.count() && 0 <= e < d ==> (list@.contains((t as usize, e as usize))
                        <==> self.list(e, t).len() == 0),
                forall|k: int|
                    0 <= k < list.len() ==> (#[trigger] list[k]).0 < self.count() && list[k].1 < d,
                forall|a: int, b: int|
                    0 <= a < b < list.len() ==> list[a].1 < list[b].1 || (list[a].1 == list[b].1
                        && list[a].0 < list[b].0),
            decreases 4 - d,
        {
            let mut t: usize = 0;
            while t < self.num_tiles
                invariant
                    self.wf(),
                    d < 4,
                    t <= self.num_tiles,
                    forall|u: int, e: int|
                        0 <= u < self.count() && 0 <= e < 4 && (e < d || (e == d && u < t)) ==> (
                        list@.contains((u as usize, e as usize)) <==> self.list(e, u).len() == 0),
                    forall|k: int|
                        0 <= k < list.len() ==> (#[trigger] list[k]).0 < self.count() && (list[k].1
                            < d || (list[k].1 == d && list[k].0 < t)),
                    forall|a: int, b: int|
                        0 <= a < b < list.len() ==> list[a].1 < list[b].1 || (list[a].1
                            == list[b].1 && list[a].0 < list[b].0),
                decreases self.num_tiles - t,
            {
                let ghost before = list@;
                if self.propagator.lists[d][t].len() == 0 {
                    list.push((t, d));
                }
                proof {
                    assert forall|u: int, e: int|
                        0 <= u < self.count() && 0 <= e < 4 && (e < d || (e == d && u < t + 1)) implies (
                    list@.contains((u as usize, e as usize)) <==> self.list(e, u).len() == 0) by {
                        lemma_push_contains(before, (t, d), (u as usize, e as usize));
                        if before.contains((u as usize, e as usize)) && e == d && u == t {
                            let k = choose|k: int|
                                0 <= k < before.len() && before[k] == (u as usize, e as usize);
                            assert(before[k].0 < t);
                        }
                    }
                    assert forall|k: int| 0 <= k < list.len() implies (#[trigger] list[k]).0
                        < self.count() && (list[k].1 < d || (list[k].1 == d && list[k].0 < t + 1)) by {
                        if k < before.len() {
                            assert(list[k] == before[k]);
                        }
                    }
                }
                t = t + 1;
            }
            d = d + 1;
        }
        list
    }

    /// The number of cells among the first `n` that were not observed.
    pub closed spec fn unobserved_among(&self, n: int) -> int
        decreases n,
    {
        if n <= 0 {
            0
        } else {
            self.unobserved_among(n - 1) + if self.observed[n - 1] is None {
                1int
            } else {
                0
            }
        }
    }

    /// For every cell, in row-major order, its column, its row and the variant that it was
    /// observed to hold; or nothing if some cell was not observed.
    pub fn placements(&self) -> (placed: Result<Vec<(usize, usize, usize)>, IncompleteSolution>)
        requires
            self.wf(),
        ensures
            placed is Ok <==> forall|i: int|
                0 <= i < self.cells() ==> (#[trigger] self.observations()[i]) is Some,
            placed matches Ok(list) ==> list.len() == self.cells() && forall|i: int|
                0 <= i < self.cells() ==> #[trigger] list[i] == (
                    (i % self.spec_width()) as usize,
                    (i / self.spec_width()) as usize,
                    self.observations()[i]->0,
                ),
    {
        let mut list: Vec<(usize, usize, usize)> = Vec::new();
        let cells = self.observed.len();
        let mut i: usize = 0;
        while i < cells
            invariant
                self.wf(),
                cells == self.cells(),
                i <= cells,
                list.len() == i,
                forall|j: int| 0 <= j < i ==> (#[trigger] self.observed[j]) is Some,
                forall|j: int|
                    0 <= j < i ==> #[trigger] list[j] == (
                        (j % self.width as int) as usize,
                        (j / self.width as int) as usize,
                        self.observed[j]->0,
                    ),
            decreases cells - i,
        {
            proof {
                crate::grid::lemma_cell_coordinates(self.width as int, self.height as int, i as int);
            }
            match self.observed[i] {
                None => {
                    return Err(IncompleteSolution);
                },
                Some(t) => {
                    list.push((i % self.width, i / self.width, t));
                },
            }
            i = i + 1;
        }
        Ok(list)
    }

    /// The text of the first `x` cells of row `y`: for each cell the label of its variant, a
    /// comma and a tab.
    pub closed spec fn row_text(&self, y: int, x: int) -> Seq<char>
        decreases x,
    {
        if x <= 0 {
            Seq::empty()
        } else {
            self.row_text(y, x - 1) + self.tile_names[self.observed[x - 1 + y * self.width]->0 as int]@
                + seq![',', '\t']
        }
    }

    /// The text of the first `y` rows: each row and a line feed.
    pub closed spec fn grid_text(&self, y: int) -> Seq<char>
        decreases y,
    {
        if y <= 0 {
            Seq::empty()
        } else {
            self.grid_text(y - 1) + self.row_text(y - 1, self.width as int) + seq!['\n']
        }
    }

    /// The text that shows what the solver holds: where some cells were not observed, their
    /// number and the words ` unobserved tiles`; else the labels of the variants row by row.
    pub closed spec fn spec_describe(&self) -> Seq<char> {
        let missing = self.unobserved_among(self.observed.len() as int);
        if missing > 0 {
            spec_decimal_text(missing) + " unobserved tiles"@
        } else {
            self.grid_text(self.height as int)
        }
    }

    /// Shows what the solver holds, as text.
    pub fn describe(&self) -> (text: String)
        requires
            self.wf(),
            self.observed_ok(),
        ensures
            text@ == self.spec_describe(),
    {
        let cells = self.observed.len();
        let mut missing: usize = 0;
        let mut i: usize = 0;
        while i < cells
            invariant
                cells == self.observed.len(),
                i <= cells,
                missing == self.unobserved_among(i as int),
                missing <= i,
            decreases cells - i,
        {
            if self.observed[i].is_none() {
                missing = missing + 1;
            }
            i = i + 1;
        }
        let mut text = String::new();
        if missing > 0 {
            append_decimal(&mut text, missing);
            text.append(" unobserved tiles");
            assert(text@ =~= self.spec_describe());
            return text;
        }
        let mut y: usize = 0;
        while y < self.height
            invariant
                self.wf(),
                self.observed_ok(),
                self.unobserved_among(self.observed.len() as int) == 0,
                y <= self.height,
                text@ == self.grid_text(y as int),
            decreases self.height - y,
        {
            let ghost above = text@;
            let mut x: usize = 0;
            while x < self.width
                invariant
                    self.wf(),
                    self.observed_ok(),
                    self.unobserved_among(self.observed.len() as int) == 0,
                    y < self.height,
                    x <= self.width,
                    text@ == above + self.row_text(y as int, x as int),
                decreases self.width - x,
            {
                proof {
                    crate::grid::lemma_cell_at(
                        self.width as int,
                        self.height as int,
                        x as int,
                        y as int,
                    );
                    self.lemma_all_observed(self.observed.len() as int, x + y * self.width);
                    reveal_strlit(",\t");
                }
                let at = x + y * self.width;
                match self.observed[at] {
                    Some(t) => {
                        text.append(self.tile_names[t].as_str());
                        text.append(",\t");
                    },
                    None => {},
                }
                assert(text@ =~= above + self.row_text(y as int, x + 1)) by {
                    assert(",\t"@ =~= seq![',', '\t']);
                }
                x = x + 1;
            }
            proof {
                reveal_strlit("\n");
            }
            text.append("\n");
            assert(text@ =~= self.grid_text(y + 1)) by {
                assert("\n"@ =~= seq!['\n']);
            }
            y = y + 1;
        }
        text
    }

    /// Where no cell among the first `n` is unobserved, each of them was observed.
    proof fn lemma_all_observed(&self, n: int, i: int)
        requires
            self.unobserved_among(n) == 0,
            0 <= i < n,
        ensures
            self.observed[i] is Some,
        decreases n,
    {
        self.lemma_unobserved_nonnegative(n - 1);
        if i < n - 1 {
            self.lemma_all_observed(n - 1, i);
        }
    }

    /// A number of cells is not negative.
    proof fn lemma_unobserved_nonnegative(&self, n: int)
        ensures
            self.unobserved_among(n) >= 0,
        decreases n,
    {
        if n > 0 {
            self.lemma_unobserved_nonnegative(n - 1);
        }
    }
}

} // verus!
