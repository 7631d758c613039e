//! The choice of the cell to collapse next.
use vstd::prelude::*;
use crate::grid::spec_eligible;
use crate::model::Heuristic;
use crate::random::{spec_draw, spec_drawn};

verus! {

/// The best cell that a scan has found: its score, the noise drawn for it, and the cell.
pub struct Pick {
    pub score: int,
    pub noise: int,
    pub cell: int,
}

/// The score by which a heuristic ranks cell `i`, lower being better: its entropy, or the
/// number of its remaining variants.
pub open spec fn spec_score(
    heuristic: Heuristic,
    options: Seq<usize>,
    entropies: Seq<i64>,
    i: int,
) -> int {
    if heuristic == Heuristic::Entropy {
        entropies[i] as int
    } else {
        options[i] as int
    }
}

/// Whether cell `i` can be collapsed: a tile placed there lies within the grid, and more
/// than one variant is left.
pub open spec fn candidate(
    width: int,
    height: int,
    periodic: bool,
    options: Seq<usize>,
    i: int,
) -> bool {
    spec_eligible(width, height, periodic, i) && options[i] > 1
}

/// Whether a cell with this score and noise ranks before the best so far: by score, and
/// among equal scores by noise.
pub open spec fn better(score: int, noise: int, best: Pick) -> bool {
    score < best.score || (score == best.score && noise < best.noise)
}

/// The first cell at or after `i` that can be collapsed, if there is one.
pub open spec fn spec_first_candidate(
    width: int,
    height: int,
    periodic: bool,
    options: Seq<usize>,
    i: int,
) -> Option<int>
    decreases options.len() - i,
{
    if i >= options.len() {
        None
    } else if candidate(width, height, periodic, options, i) {
        Some(i)
    } else {
        spec_first_candidate(width, height, periodic, options, i + 1)
    }
}

/// The scan of the cells from `i` on, in order, with `best` the best cell before `i` and
/// `state` what the generator is made up of. A cell that can be collapsed and whose score is
/// at most that of the best so far draws a unit of noise, and replaces the best if it ranks
/// before it. Gives the best cell of all and what the generator is made up of by then.
pub open spec fn spec_scan(
    heuristic: Heuristic,
    width: int,
    height: int,
    periodic: bool,
    options: Seq<usize>,
    entropies: Seq<i64>,
    i: int,
    best: Option<Pick>,
    state: Seq<u32>,
) -> (Option<Pick>, Seq<u32>)
    decreases options.len() - i,
{
    if i >= options.len() {
        (best, state)
    } else {
        let score = spec_score(heuristic, options, entropies, i);
        if candidate(width, height, periodic, options, i) && (best is None || score <= best->0.score) {
            let noise = spec_draw(state);
            let next = if best is None || better(score, noise, best->0) {
                Some(Pick { score, noise, cell: i })
            } else {
                best
            };
            spec_scan(
                heuristic,
                width,
                height,
                periodic,
                options,
                entropies,
                i + 1,
                next,
                spec_drawn(state),
            )
        } else {
            spec_scan(heuristic, width, height, periodic, options, entropies, i + 1, best, state)
        }
    }
}

/// The first candidate is a candidate, and no cell before it is one.
pub proof fn lemma_first_candidate(
    width: int,
    height: int,
    periodic: bool,
    options: Seq<usize>,
    i: int,
)
    requires
        0 <= i,
    ensures
        match spec_first_candidate(width, height, periodic, options, i) {
            Some(c) => {
                &&& i <= c < options.len()
                &&& candidate(width, height, periodic, options, c)
                &&& forall|j: int| i <= j < c ==> !candidate(width, height, periodic, options, j)
            },
            None => forall|j: int|
                i <= j < options.len() ==> !candidate(width, height, periodic, options, j),
        },
    decreases options.len() - i,
{
    if i < options.len() && !candidate(width, height, periodic, options, i) {
        lemma_first_candidate(width, height, periodic, options, i + 1);
    }
}

/// The search for the first candidate may start at any cell before which there is none.
pub proof fn lemma_first_candidate_skips(
    width: int,
    height: int,
    periodic: bool,
    options: Seq<usize>,
    from: int,
    to: int,
)
    requires
        0 <= from <= to,
        forall|j: int| from <= j < to && j < options.len() ==> !candidate(width, height, periodic, options, j),
    ensures
        spec_first_candidate(width, height, periodic, options, from) == spec_first_candidate(
            width,
            height,
            periodic,
            options,
            to,
        ),
    decreases to - from,
{
    if from < to {
        lemma_first_candidate_skips(width, height, periodic, options, from + 1, to);
        if from >= options.len() {
            lemma_first_candidate_ends(width, height, periodic, options, to);
            lemma_first_candidate_ends(width, height, periodic, options, from);
        }
    }
}

/// Beyond the last cell there is no candidate.
pub proof fn lemma_first_candidate_ends(
    width: int,
    height: int,
    periodic: bool,
    options: Seq<usize>,
    from: int,
)
    requires
        from >= options.len(),
    ensures
        spec_first_candidate(width, height, periodic, options, from) is None,
{
}

/// The cell that a scan finds can be collapsed, and no cell that can be collapsed has a
/// lower score. The scan finds none only if no cell can be collapsed.
pub proof fn lemma_scan_finds_least(
    heuristic: Heuristic,
    width: int,
    height: int,
    periodic: bool,
    options: Seq<usize>,
    entropies: Seq<i64>,
    i: int,
    best: Option<Pick>,
    state: Seq<u32>,
)
    requires
        0 <= i,
        best matches Some(b) ==> 0 <= b.cell < i && b.cell < options.len() && candidate(
            width,
            height,
            periodic,
            options,
            b.cell,
        ) && b.score == spec_score(heuristic, options, entropies, b.cell),
    ensures
        ({
            let found = spec_scan(
                heuristic,
                width,
                height,
                periodic,
                options,
                entropies,
                i,
                best,
                state,
            ).0;
            &&& best is Some ==> found is Some && found->0.score <= best->0.score
            &&& found matches Some(p) ==> 0 <= p.cell < options.len() && candidate(
                width,
                height,
                periodic,
                options,
                p.cell,
            ) && p.score == spec_score(heuristic, options, entropies, p.cell)
            &&& forall|j: int|
                i <= j < options.len() && candidate(width, height, periodic, options, j) ==> found is Some
                    && found->0.score <= spec_score(heuristic, options, entropies, j)
        }),
    decreases options.len() - i,
{
    if i < options.len() {
        let score = spec_score(heuristic, options, entropies, i);
        if candidate(width, height, periodic, options, i) && (best is None || score <= best->0.score) {
            let noise = spec_draw(state);
            let next = if best is None || better(score, noise, best->0) {
                Some(Pick { score, noise, cell: i })
            } else {
                best
            };
            lemma_scan_finds_least(
                heuristic,
                width,
                height,
                periodic,
                options,
                entropies,
                i + 1,
                next,
                spec_drawn(state),
            );
        } else {
            lemma_scan_finds_least(
                heuristic,
                width,
                height,
                periodic,
                options,
                entropies,
                i + 1,
                best,
                state,
            );
        }
    }
}

} // verus!
