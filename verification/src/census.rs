//! Counts and sums over the variants that are still possible at a cell.
use vstd::prelude::*;
use crate::tile::TileObject;
use crate::entropy::ONE;

verus! {

/// The number of `true` entries among the first `n` of `row`.
pub open spec fn count_true(row: Seq<bool>, n: int) -> int
    decreases n,
{
    if n <= 0 {
        0
    } else {
        count_true(row, n - 1) + if row[n - 1] {
            1int
        } else {
            0
        }
    }
}

/// The sum of the weights of those of the first `n` variants that `row` marks.
pub open spec fn weight_sum(objects: Seq<TileObject>, row: Seq<bool>, n: int) -> int
    decreases n,
{
    if n <= 0 {
        0
    } else {
        weight_sum(objects, row, n - 1) + if row[n - 1] {
            objects[n - 1].weight as int
        } else {
            0
        }
    }
}

/// The sum of the entries of `logs` for those of the first `n` variants that `row` marks.
pub open spec fn log_sum(logs: Seq<u64>, row: Seq<bool>, n: int) -> int
    decreases n,
{
    if n <= 0 {
        0
    } else {
        log_sum(logs, row, n - 1) + if row[n - 1] {
            logs[n - 1] as int
        } else {
            0
        }
    }
}

/// The number of positions `k` below `n` of `list` whose variant `list[k]` is marked in `row`.
pub open spec fn tally(list: Seq<usize>, row: Seq<bool>, n: int) -> int
    decreases n,
{
    if n <= 0 {
        0
    } else {
        tally(list, row, n - 1) + if row[list[n - 1] as int] {
            1int
        } else {
            0
        }
    }
}

/// A row that marks every one of `n` variants.
pub open spec fn full_row(n: int) -> Seq<bool> {
    Seq::new(n as nat, |t: int| true)
}

/// The counts and sums of a row are bounded by those of the full row.
pub proof fn lemma_census_bounds(objects: Seq<TileObject>, logs: Seq<u64>, row: Seq<bool>, n: int)
    requires
        0 <= n <= row.len(),
        n <= objects.len(),
        n <= logs.len(),
        forall|t: int| 0 <= t < n ==> (#[trigger] logs[t]) <= objects[t].weight * (64 * ONE),
    ensures
        0 <= count_true(row, n) <= n,
        0 <= weight_sum(objects, row, n) <= n * u32::MAX,
        0 <= log_sum(logs, row, n) <= weight_sum(objects, row, n) * (64 * ONE),
        count_true(row, n) == 0 ==> forall|t: int| 0 <= t < n ==> !row[t],
    decreases n,
{
    if n > 0 {
        lemma_census_bounds(objects, logs, row, n - 1);
        assert((n - 1) * u32::MAX + u32::MAX == n * u32::MAX) by (nonlinear_arith);
        let w = weight_sum(objects, row, n - 1);
        let x = objects[n - 1].weight as int;
        assert(w * (64 * ONE) + x * (64 * ONE) == (w + x) * (64 * ONE)) by (nonlinear_arith);
    }
}

/// Two rows that agree on the first `n` variants have the same counts and sums there.
pub proof fn lemma_census_same(
    objects: Seq<TileObject>,
    logs: Seq<u64>,
    row: Seq<bool>,
    other: Seq<bool>,
    n: int,
)
    requires
        forall|t: int| 0 <= t < n ==> row[t] == other[t],
    ensures
        count_true(row, n) == count_true(other, n),
        weight_sum(objects, row, n) == weight_sum(objects, other, n),
        log_sum(logs, row, n) == log_sum(logs, other, n),
    decreases n,
{
    if n > 0 {
        lemma_census_same(objects, logs, row, other, n - 1);
    }
}

/// Unmarking variant `t` takes one from the count, and its weight and its entry of `logs`
/// from the sums.
pub proof fn lemma_census_unmark(
    objects: Seq<TileObject>,
    logs: Seq<u64>,
    row: Seq<bool>,
    t: int,
    n: int,
)
    requires
        0 <= t < row.len(),
        row[t],
        0 <= n <= row.len(),
    ensures
        count_true(row.update(t, false), n) == count_true(row, n) - if t < n {
            1int
        } else {
            0
        },
        weight_sum(objects, row.update(t, false), n) == weight_sum(objects, row, n) - if t < n {
            objects[t].weight as int
        } else {
            0
        },
        log_sum(logs, row.update(t, false), n) == log_sum(logs, row, n) - if t < n {
            logs[t] as int
        } else {
            0
        },
    decreases n,
{
    if n > 0 {
        lemma_census_unmark(objects, logs, row, t, n - 1);
    }
}

/// A tally over `n` positions is between 0 and `n`, and less than `n` if one of the
/// positions holds a variant that is not marked.
pub proof fn lemma_tally_bounds(list: Seq<usize>, row: Seq<bool>, n: int)
    requires
        0 <= n <= list.len(),
    ensures
        0 <= tally(list, row, n) <= n,
        (exists|k: int| 0 <= k < n && !row[#[trigger] list[k] as int]) ==> tally(list, row, n) < n,
        tally(list, row, n) == n ==> forall|k: int| 0 <= k < n ==> row[#[trigger] list[k] as int],
        tally(list, row, n) == 0 ==> forall|k: int| 0 <= k < n ==> !row[#[trigger] list[k] as int],
        tally(list, row, n) > 0 ==> exists|k: int| 0 <= k < n && row[#[trigger] list[k] as int],
    decreases n,
{
    if n > 0 {
        lemma_tally_bounds(list, row, n - 1);
        if tally(list, row, n) > 0 {
            if row[list[n - 1] as int] {
            } else {
                let k = choose|k: int| 0 <= k < n - 1 && row[#[trigger] list[k] as int];
                assert(0 <= k < n && row[list[k] as int]);
            }
        }
    }
}

/// Where every listed variant is marked, the tally is the number of positions.
pub proof fn lemma_tally_full(list: Seq<usize>, row: Seq<bool>, n: int)
    requires
        0 <= n <= list.len(),
        forall|k: int| 0 <= k < n ==> row[#[trigger] list[k] as int],
    ensures
        tally(list, row, n) == n,
    decreases n,
{
    if n > 0 {
        lemma_tally_full(list, row, n - 1);
    }
}

/// Two rows that agree on the listed variants give the same tally.
pub proof fn lemma_tally_same(list: Seq<usize>, row: Seq<bool>, other: Seq<bool>, n: int)
    requires
        0 <= n <= list.len(),
        forall|k: int| 0 <= k < n ==> row[#[trigger] list[k] as int] == other[list[k] as int],
    ensures
        tally(list, row, n) == tally(list, other, n),
    decreases n,
{
    if n > 0 {
        lemma_tally_same(list, row, other, n - 1);
    }
}

/// Unmarking variant `t` takes one from the tally of a list that holds `t` once, and leaves
/// the tally of a list without `t` as it is.
pub proof fn lemma_tally_unmark(list: Seq<usize>, row: Seq<bool>, other: Seq<bool>, t: usize, n: int)
    requires
        0 <= n <= list.len(),
        list.no_duplicates(),
        0 <= t < row.len(),
        row.len() == other.len(),
        forall|k: int| 0 <= k < n ==> (#[trigger] list[k]) < row.len(),
        row[t as int],
        !other[t as int],
        forall|k: int| 0 <= k < n && list[k] != t ==> row[#[trigger] list[k] as int] == other[list[k] as int],
    ensures
        tally(list, other, n) == tally(list, row, n) - if list.subrange(0, n).contains(t) {
            1int
        } else {
            0
        },
    decreases n,
{
    let longer = list.subrange(0, n);
    if n > 0 {
        lemma_tally_unmark(list, row, other, t, n - 1);
        let shorter = list.subrange(0, n - 1);
        if shorter.contains(t) {
            let k = choose|k: int| 0 <= k < shorter.len() && shorter[k] == t;
            assert(longer[k] == t);
            assert(longer.contains(t));
            assert(list[k] == t);
            assert(list[n - 1] != t);
        } else if list[n - 1] == t {
            assert(longer[n - 1] == t);
            assert(longer.contains(t));
        } else {
            if longer.contains(t) {
                let k = choose|k: int| 0 <= k < longer.len() && longer[k] == t;
                assert(shorter[k] == t);
                assert(false);
            }
        }
    } else {
        assert(longer.len() == 0);
    }
}

/// The sum of the first `n` entries of `sums`.
pub open spec fn total(sums: Seq<usize>, n: int) -> int
    decreases n,
{
    if n <= 0 {
        0
    } else {
        total(sums, n - 1) + sums[n - 1]
    }
}

/// The number of the first `n` cells that have more than one option.
pub open spec fn undecided(options: Seq<usize>, n: int) -> int
    decreases n,
{
    if n <= 0 {
        0
    } else {
        undecided(options, n - 1) + if options[n - 1] > 1 {
            1int
        } else {
            0
        }
    }
}

/// Where no cell gains options, no more cells are undecided than before, and fewer if cell
/// `i` was undecided and is no longer.
pub proof fn lemma_undecided_shrinks(before: Seq<usize>, after: Seq<usize>, i: int, n: int)
    requires
        0 <= n <= before.len(),
        before.len() == after.len(),
        forall|j: int| 0 <= j < n ==> after[j] <= before[j],
    ensures
        0 <= undecided(after, n) <= undecided(before, n) <= n,
        0 <= i < n && before[i] > 1 && after[i] <= 1 ==> undecided(after, n) < undecided(before, n),
        undecided(after, n) == 0 ==> forall|j: int| 0 <= j < n ==> after[j] <= 1,
    decreases n,
{
    if n > 0 {
        lemma_undecided_shrinks(before, after, i, n - 1);
    }
}

/// A row within another marks no more variants than the other.
pub proof fn lemma_count_within(row: Seq<bool>, other: Seq<bool>, n: int)
    requires
        forall|t: int| 0 <= t < n && row[t] ==> other[t],
    ensures
        count_true(row, n) <= count_true(other, n),
    decreases n,
{
    if n > 0 {
        lemma_count_within(row, other, n - 1);
    }
}

/// A row that marks exactly one variant marks the variant `t` that it marks and no other.
pub proof fn lemma_count_one(row: Seq<bool>, t: int, n: int)
    requires
        0 <= t < n <= row.len(),
        row[t],
        count_true(row, n) == 1,
    ensures
        forall|u: int| 0 <= u < n && row[u] ==> u == t,
    decreases n,
{
    if n > 0 {
        if t == n - 1 {
            lemma_count_zero(row, n - 1);
        } else {
            lemma_count_positive(row, t, n - 1);
            lemma_count_one(row, t, n - 1);
        }
    }
}

/// A row that marks no variant but `t` has a count of at most 1.
pub proof fn lemma_count_at_most_one(row: Seq<bool>, t: int, n: int)
    requires
        forall|u: int| 0 <= u < n && row[u] ==> u == t,
    ensures
        0 <= count_true(row, n) <= if t < n {
            1int
        } else {
            0
        },
    decreases n,
{
    if n > 0 {
        lemma_count_at_most_one(row, t, n - 1);
    }
}

/// A count is not negative.
pub proof fn lemma_count_nonnegative(row: Seq<bool>, n: int)
    ensures
        count_true(row, n) >= 0,
    decreases n,
{
    if n > 0 {
        lemma_count_nonnegative(row, n - 1);
    }
}

/// A row that marks a variant has a positive count.
pub proof fn lemma_count_positive(row: Seq<bool>, t: int, n: int)
    requires
        0 <= t < n,
        row[t],
    ensures
        count_true(row, n) >= 1,
    decreases n,
{
    if n > 0 {
        lemma_count_nonnegative(row, n - 1);
        if t < n - 1 {
            lemma_count_positive(row, t, n - 1);
        }
    }
}

/// A row with count 0 marks nothing.
pub proof fn lemma_count_zero(row: Seq<bool>, n: int)
    requires
        count_true(row, n) <= 0,
    ensures
        forall|u: int| 0 <= u < n ==> !row[u],
    decreases n,
{
    if n > 0 {
        lemma_count_nonnegative(row, n - 1);
        lemma_count_zero(row, n - 1);
    }
}

/// A total is not negative.
pub proof fn lemma_total_nonnegative(sums: Seq<usize>, n: int)
    ensures
        total(sums, n) >= 0,
    decreases n,
{
    if n > 0 {
        lemma_total_nonnegative(sums, n - 1);
    }
}

/// Changing entry `i` changes the total by as much.
pub proof fn lemma_total_update(sums: Seq<usize>, i: int, value: usize, n: int)
    requires
        0 <= i < sums.len(),
        0 <= n <= sums.len(),
    ensures
        total(sums.update(i, value), n) == total(sums, n) + if i < n {
            value - sums[i]
        } else {
            0
        },
        total(sums, n) >= 0,
    decreases n,
{
    if n > 0 {
        lemma_total_update(sums, i, value, n - 1);
    }
}

/// An element is in a sequence with one more element if it is that element or was in the
/// sequence before.
pub proof fn lemma_push_contains<A>(s: Seq<A>, last: A, x: A)
    ensures
        s.push(last).contains(x) <==> s.contains(x) || x == last,
{
    let longer = s.push(last);
    if s.contains(x) {
        let k = choose|k: int| 0 <= k < s.len() && s[k] == x;
        assert(longer[k] == x);
    }
    if x == last {
        assert(longer[s.len() as int] == x);
    }
    if longer.contains(x) {
        let k = choose|k: int| 0 <= k < longer.len() && longer[k] == x;
        if k < s.len() {
            assert(s[k] == x);
        }
    }
}

/// Without its last element, a sequence in which nothing occurs twice holds what it held
/// but for that element.
pub proof fn lemma_drop_last_contains<A>(s: Seq<A>, x: A)
    requires
        s.len() > 0,
        s.no_duplicates(),
    ensures
        s.drop_last().contains(x) <==> s.contains(x) && x != s.last(),
        s.drop_last().no_duplicates(),
{
    let shorter = s.drop_last();
    if shorter.contains(x) {
        let k = choose|k: int| 0 <= k < shorter.len() && shorter[k] == x;
        assert(s[k] == x);
    }
    if s.contains(x) && x != s.last() {
        let k = choose|k: int| 0 <= k < s.len() && s[k] == x;
        assert(shorter[k] == x);
    }
}

} // verus!
