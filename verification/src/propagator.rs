//! The adjacency relation between variants: which variant may lie next to which, in each
//! of the four directions.
use vstd::prelude::*;
use crate::grid::spec_opposite;

verus! {

/// Whether the declared pair `left`, `right` (the variant `right` may lie immediately east
/// of the variant `left`) lets `t2` lie immediately west of `t1`. The pair itself does, and so
/// do the three pairs that a half turn and the two mirror images make of it.
pub open spec fn declares_west(action: Seq<[usize; 8]>, left: int, right: int, t1: int, t2: int) -> bool {
    ||| (t1 == right && t2 == left)
    ||| (t1 == action[right][6] && t2 == action[left][6])
    ||| (t1 == action[left][4] && t2 == action[right][4])
    ||| (t1 == action[left][2] && t2 == action[right][2])
}

/// Whether the declared pair `left`, `right` lets `t2` lie immediately south of `t1`: a quarter
/// turn makes of the pair one variant above another, and that vertical pair counts with the
/// three that a half turn and the two mirror images make of it.
pub open spec fn declares_south(action: Seq<[usize; 8]>, left: int, right: int, t1: int, t2: int) -> bool {
    let down = action[left][1] as int;
    let up = action[right][1] as int;
    ||| (t1 == up && t2 == down)
    ||| (t1 == action[down][6] && t2 == action[up][6])
    ||| (t1 == action[up][4] && t2 == action[down][4])
    ||| (t1 == action[down][2] && t2 == action[up][2])
}

/// Whether one of the first `n` declared pairs lets `t2` lie immediately west of `t1`.
pub open spec fn west_among(
    action: Seq<[usize; 8]>,
    pairs: Seq<(usize, usize)>,
    n: int,
    t1: int,
    t2: int,
) -> bool {
    exists|m: int|
        0 <= m < n && #[trigger] declares_west(action, pairs[m].0 as int, pairs[m].1 as int, t1, t2)
}

/// Whether one of the first `n` declared pairs lets `t2` lie immediately south of `t1`.
pub open spec fn south_among(
    action: Seq<[usize; 8]>,
    pairs: Seq<(usize, usize)>,
    n: int,
    t1: int,
    t2: int,
) -> bool {
    exists|m: int|
        0 <= m < n && #[trigger] declares_south(action, pairs[m].0 as int, pairs[m].1 as int, t1, t2)
}

/// Whether the declared `pairs` let variant `t2` lie next to variant `t1` in direction `d`.
/// West and south follow from the pairs; east and north are their converses.
pub open spec fn spec_allowed(
    action: Seq<[usize; 8]>,
    pairs: Seq<(usize, usize)>,
    d: int,
    t1: int,
    t2: int,
) -> bool {
    if d == 0 {
        west_among(action, pairs, pairs.len() as int, t1, t2)
    } else if d == 1 {
        south_among(action, pairs, pairs.len() as int, t1, t2)
    } else if d == 2 {
        west_among(action, pairs, pairs.len() as int, t2, t1)
    } else {
        south_among(action, pairs, pairs.len() as int, t2, t1)
    }
}

/// Whether `list` holds variants below `count` in strictly increasing order.
pub open spec fn ascending(list: Seq<usize>, count: int) -> bool {
    &&& forall|k: int| 0 <= k < list.len() ==> #[trigger] list[k] < count
    &&& forall|a: int, b: int| 0 <= a < b < list.len() ==> list[a] < list[b]
}

/// Whether `table` is a square table of side `count`.
pub open spec fn square(table: Seq<Vec<bool>>, count: int) -> bool {
    &&& table.len() == count
    &&& forall|t: int| 0 <= t < count ==> (#[trigger] table[t]).len() == count
}

/// For each direction and each variant the list of the variants that may lie next to it in
/// that direction.
#[derive(Debug)]
pub struct Propagator {
    pub lists: Vec<Vec<Vec<usize>>>,
}

impl Propagator {
    /// Whether there is a list for each of the four directions and each of `count` variants,
    /// each list in strictly increasing order.
    pub open spec fn wf(self, count: int) -> bool {
        &&& self.lists.len() == 4
        &&& forall|d: int| 0 <= d < 4 ==> (#[trigger] self.lists[d]).len() == count
        &&& forall|d: int, t: int|
            0 <= d < 4 && 0 <= t < count ==> ascending((#[trigger] self.lists[d][t])@, count)
    }

    /// The variants that may lie next to `t` in direction `d`.
    pub open spec fn list(self, d: int, t: int) -> Seq<usize> {
        self.lists[d][t]@
    }

    /// Whether `t2` may lie next to `t1` in direction `d`.
    pub open spec fn permits(self, d: int, t1: int, t2: int) -> bool {
        self.list(d, t1).contains(t2 as usize)
    }

    /// Whether the relation of each direction is the converse of the relation of the
    /// opposite direction.
    pub open spec fn symmetric(self, count: int) -> bool {
        forall|d: int, t1: int, t2: int|
            0 <= d < 4 && 0 <= t1 < count && 0 <= t2 < count ==> (#[trigger] self.permits(d, t1, t2)
                <==> self.permits(spec_opposite(d), t2, t1))
    }

    /// Whether the lists hold exactly what `pairs` allow.
    pub open spec fn follows(self, action: Seq<[usize; 8]>, pairs: Seq<(usize, usize)>) -> bool {
        forall|d: int, t1: int, t2: int|
            0 <= d < 4 && 0 <= t1 < action.len() && 0 <= t2 < action.len() ==> (
            #[trigger] self.permits(d, t1, t2) <==> spec_allowed(action, pairs, d, t1, t2))
    }

    /// Derives the four relations from the declared pairs of variants.
    pub fn build(action: &Vec<[usize; 8]>, pairs: &Vec<(usize, usize)>) -> (propagator: Propagator)
        requires
            forall|t: int, k: int|
                0 <= t < action.len() && 0 <= k < 8 ==> #[trigger] action[t][k] < action.len(),
            forall|n: int|
                0 <= n < pairs.len() ==> (#[trigger] pairs[n]).0 < action.len() && pairs[n].1
                    < action.len(),
        ensures
            propagator.wf(action.len() as int),
            propagator.follows(action@, pairs@),
            propagator.symmetric(action.len() as int),
    {
        let count = action.len();
        let mut west = blank(count);
        let mut south = blank(count);
        let mut n: usize = 0;
        while n < pairs.len()
            invariant
                n <= pairs.len(),
                count == action.len(),
                square(west@, count as int),
                square(south@, count as int),
                forall|t: int, k: int|
                    0 <= t < action.len() && 0 <= k < 8 ==> #[trigger] action[t][k] < action.len(),
                forall|m: int|
                    0 <= m < pairs.len() ==> (#[trigger] pairs[m]).0 < action.len() && pairs[m].1
                        < action.len(),
                forall|t1: int, t2: int|
                    0 <= t1 < count && 0 <= t2 < count ==> (#[trigger] west[t1][t2] <==> west_among(
                        action@,
                        pairs@,
                        n as int,
                        t1,
                        t2,
                    )),
                forall|t1: int, t2: int|
                    0 <= t1 < count && 0 <= t2 < count ==> (#[trigger] south[t1][t2]
                        <==> south_among(action@, pairs@, n as int, t1, t2)),
            decreases pairs.len() - n,
        {
            let left = pairs[n].0;
            let right = pairs[n].1;
            let down = action[left][1];
            let up = action[right][1];
            let ghost west_before = west@;
            let ghost south_before = south@;
            mark(&mut west, right, left);
            mark(&mut west, action[right][6], action[left][6]);
            mark(&mut west, action[left][4], action[right][4]);
            mark(&mut west, action[left][2], action[right][2]);
            mark(&mut south, up, down);
            mark(&mut south, action[down][6], action[up][6]);
            mark(&mut south, action[up][4], action[down][4]);
            mark(&mut south, action[down][2], action[up][2]);
            proof {
                assert forall|t1: int, t2: int| 0 <= t1 < count && 0 <= t2 < count implies (
                #[trigger] west[t1][t2] <==> west_among(action@, pairs@, n + 1, t1, t2)) by {
                    let here = declares_west(action@, left as int, right as int, t1, t2);
                    assert(west[t1][t2] == (west_before[t1][t2] || here));
                    if west_among(action@, pairs@, n as int, t1, t2) {
                        let m = choose|m: int|
                            0 <= m < n && #[trigger] declares_west(
                                action@,
                                pairs[m].0 as int,
                                pairs[m].1 as int,
                                t1,
                                t2,
                            );
                        assert(0 <= m < n + 1);
                    }
                    if here {
                        assert(declares_west(
                            action@,
                            pairs[n as int].0 as int,
                            pairs[n as int].1 as int,
                            t1,
                            t2,
                        ));
                    }
                }
                assert forall|t1: int, t2: int| 0 <= t1 < count && 0 <= t2 < count implies (
                #[trigger] south[t1][t2] <==> south_among(action@, pairs@, n + 1, t1, t2)) by {
                    let here = declares_south(action@, left as int, right as int, t1, t2);
                    assert(south[t1][t2] == (south_before[t1][t2] || here));
                    if south_among(action@, pairs@, n as int, t1, t2) {
                        let m = choose|m: int|
                            0 <= m < n && #[trigger] declares_south(
                                action@,
                                pairs[m].0 as int,
                                pairs[m].1 as int,
                                t1,
                                t2,
                            );
                        assert(0 <= m < n + 1);
                    }
                    if here {
                        assert(declares_south(
                            action@,
                            pairs[n as int].0 as int,
                            pairs[n as int].1 as int,
                            t1,
                            t2,
                        ));
                    }
                }
            }
            n = n + 1;
        }
        let mut lists: Vec<Vec<Vec<usize>>> = Vec::new();
        let mut d: usize = 0;
        while d < 4
            invariant
                d <= 4,
                count == action.len(),
                square(west@, count as int),
                square(south@, count as int),
                lists.len() == d,
                forall|e: int| 0 <= e < d ==> (#[trigger] lists[e]).len() == count,
                forall|e: int, t: int|
                    0 <= e < d && 0 <= t < count ==> ascending((#[trigger] lists[e][t])@, count as int),
                forall|e: int, t1: int, t2: int|
                    0 <= e < d && 0 <= t1 < count && 0 <= t2 < count ==> (
                    #[trigger] lists[e][t1]@.contains(t2 as usize) <==> if e == 0 {
                        west[t1][t2]
                    } else if e == 1 {
                        south[t1][t2]
                    } else if e == 2 {
                        west[t2][t1]
                    } else {
                        south[t2][t1]
                    }),
            decreases 4 - d,
        {
            let mut rows: Vec<Vec<usize>> = Vec::new();
            let mut t1: usize = 0;
            while t1 < count
                invariant
                    d < 4,
                    t1 <= count,
                    square(west@, count as int),
                    square(south@, count as int),
                    rows.len() == t1,
                    forall|t: int| 0 <= t < t1 ==> ascending((#[trigger] rows[t])@, count as int),
                    forall|t: int, t2: int|
                        0 <= t < t1 && 0 <= t2 < count ==> (#[trigger] rows[t]@.contains(
                            t2 as usize,
                        ) <==> if d == 0 {
                            west[t][t2]
                        } else if d == 1 {
                            south[t][t2]
                        } else if d == 2 {
                            west[t2][t]
                        } else {
                            south[t2][t]
                        }),
                decreases count - t1,
            {
                let list = if d == 0 {
                    collect(&west, t1, false)
                } else if d == 1 {
                    collect(&south, t1, false)
                } else if d == 2 {
                    collect(&west, t1, true)
                } else {
                    collect(&south, t1, true)
                };
                rows.push(list);
                t1 = t1 + 1;
            }
            lists.push(rows);
            d = d + 1;
        }
        let propagator = Propagator { lists };
        proof {
            assert forall|d: int, t1: int, t2: int|
                0 <= d < 4 && 0 <= t1 < count && 0 <= t2 < count implies (
            #[trigger] propagator.permits(d, t1, t2) <==> propagator.permits(
                spec_opposite(d),
                t2,
                t1,
            )) by {
                let o = spec_opposite(d);
                assert(propagator.lists[d][t1]@.contains(t2 as usize) == propagator.permits(
                    d,
                    t1,
                    t2,
                ));
                assert(propagator.lists[o][t2]@.contains(t1 as usize) == propagator.permits(
                    o,
                    t2,
                    t1,
                ));
            }
            assert forall|d: int, t1: int, t2: int|
                0 <= d < 4 && 0 <= t1 < action.len() && 0 <= t2 < action.len() implies (
            #[trigger] propagator.permits(d, t1, t2) <==> spec_allowed(
                action@,
                pairs@,
                d,
                t1,
                t2,
            )) by {
                assert(propagator.lists[d][t1]@.contains(t2 as usize) == propagator.permits(
                    d,
                    t1,
                    t2,
                ));
            }
        }
        propagator
    }
}

/// A square table of side `count` that holds `false` everywhere.
fn blank(count: usize) -> (table: Vec<Vec<bool>>)
    ensures
        square(table@, count as int),
        forall|a: int, b: int| 0 <= a < count && 0 <= b < count ==> !(#[trigger] table[a][b]),
{
    let mut table: Vec<Vec<bool>> = Vec::new();
    let mut a: usize = 0;
    while a < count
        invariant
            a <= count,
            table.len() == a,
            forall|t: int| 0 <= t < a ==> (#[trigger] table[t]).len() == count,
            forall|x: int, y: int| 0 <= x < a && 0 <= y < count ==> !(#[trigger] table[x][y]),
        decreases count - a,
    {
        let mut row: Vec<bool> = Vec::new();
        let mut b: usize = 0;
        while b < count
            invariant
                b <= count,
                row.len() == b,
                forall|y: int| 0 <= y < b ==> !(#[trigger] row[y]),
            decreases count - b,
        {
            row.push(false);
            b = b + 1;
        }
        table.push(row);
        a = a + 1;
    }
    table
}

/// Sets the entry in row `a` and column `b` of a square table.
fn mark(table: &mut Vec<Vec<bool>>, a: usize, b: usize)
    requires
        square(old(table)@, old(table).len() as int),
        a < old(table).len(),
        b < old(table).len(),
    ensures
        square(final(table)@, old(table).len() as int),
        forall|x: int, y: int|
            0 <= x < old(table).len() && 0 <= y < old(table).len() ==> (
            #[trigger] final(table)[x][y] == (old(table)[x][y] || (x == a && y == b))),
{
    table[a][b] = true;
}

/// The columns of row `t` of a square table that hold `true`, in increasing order; if
/// `transposed`, the rows that hold `true` in column `t`.
fn collect(table: &Vec<Vec<bool>>, t: usize, transposed: bool) -> (list: Vec<usize>)
    requires
        square(table@, table.len() as int),
        t < table.len(),
    ensures
        ascending(list@, table.len() as int),
        forall|u: int|
            0 <= u < table.len() ==> (#[trigger] list@.contains(u as usize) <==> if transposed {
                table[u][t as int]
            } else {
                table[t as int][u]
            }),
{
    let count = table.len();
    let mut list: Vec<usize> = Vec::new();
    let mut u: usize = 0;
    while u < count
        invariant
            u <= count,
            count == table.len(),
            t < count,
            square(table@, count as int),
            forall|k: int| 0 <= k < list.len() ==> #[trigger] list[k] < u,
            forall|a: int, b: int| 0 <= a < b < list.len() ==> list[a] < list[b],
            forall|v: int|
                0 <= v < u ==> (#[trigger] list@.contains(v as usize) <==> if transposed {
                    table[v][t as int]
                } else {
                    table[t as int][v]
                }),
        decreases count - u,
    {
        let set = if transposed {
            table[u][t]
        } else {
            table[t][u]
        };
        let ghost before = list@;
        if set {
            list.push(u);
            assert(list@[list.len() - 1] == u);
        }
        proof {
            assert forall|v: int| 0 <= v < u + 1 implies (#[trigger] list@.contains(v as usize)
                <==> if transposed {
                table[v][t as int]
            } else {
                table[t as int][v]
            }) by {
                if before.contains(v as usize) {
                    let k = choose|k: int| 0 <= k < before.len() && before[k] == v as usize;
                    assert(list@[k] == v as usize);
                }
                if list@.contains(v as usize) {
                    let k = choose|k: int| 0 <= k < list.len() && list@[k] == v as usize;
                    if k < before.len() {
                        assert(before[k] == v as usize);
                    }
                }
            }
        }
        u = u + 1;
    }
    list
}

/// No variant occurs twice in a list in strictly increasing order.
pub proof fn lemma_ascending_distinct(list: Seq<usize>, count: int)
    requires
        ascending(list, count),
    ensures
        list.no_duplicates(),
{
    assert forall|a: int, b: int| 0 <= a < list.len() && 0 <= b < list.len() && a != b implies list[a]
        != list[b] by {
        if a < b {
            assert(list[a] < list[b]);
        } else {
            assert(list[b] < list[a]);
        }
    }
}

/// Two lists in strictly increasing order that hold the same variants are the same list.
pub proof fn lemma_ascending_same(first: Seq<usize>, second: Seq<usize>, count: int)
    requires
        ascending(first, count),
        ascending(second, count),
        forall|x: usize| first.contains(x) <==> second.contains(x),
    ensures
        first == second,
{
    assert forall|k: int| 0 <= k < first.len() implies k < second.len() && #[trigger] first[k]
        == second[k] by {
        lemma_ascending_same_at(first, second, count, k);
    }
    if first.len() > 0 {
        lemma_ascending_same_at(first, second, count, first.len() - 1);
    }
    if second.len() > first.len() {
        lemma_ascending_same_at(second, first, count, first.len() as int);
    }
    assert(first =~= second);
}

/// Two lists in strictly increasing order that hold the same variants hold the same
/// variant at position `k`.
proof fn lemma_ascending_same_at(first: Seq<usize>, second: Seq<usize>, count: int, k: int)
    requires
        ascending(first, count),
        ascending(second, count),
        forall|x: usize| first.contains(x) <==> second.contains(x),
        0 <= k < first.len(),
    ensures
        k < second.len(),
        first[k] == second[k],
    decreases k,
{
    assert forall|p: int| 0 <= p < k implies p < second.len() && first[p] == second[p] by {
        lemma_ascending_same_at(first, second, count, p);
    }
    assert(first.contains(first[k]));
    let m = choose|m: int| 0 <= m < second.len() && second[m] == first[k];
    if m < k {
        assert(first[m] == second[m]);
        assert(first[m] < first[k]);
    }
    if m > k {
        assert(second[k] < second[m]);
        assert(second.contains(second[k]));
        let p = choose|p: int| 0 <= p < first.len() && first[p] == second[k];
        if p < k {
            assert(first[p] == second[p]);
            assert(second[p] < second[k]);
        } else if p > k {
            assert(first[k] < first[p]);
        }
    }
}

/// A list in strictly increasing order of variants below `count` is at most `count` long.
pub proof fn lemma_ascending_short(list: Seq<usize>, count: int)
    requires
        ascending(list, count),
    ensures
        list.len() <= count || list.len() == 0,
        forall|k: int| 0 <= k < list.len() ==> k <= #[trigger] list[k],
    decreases list.len(),
{
    if list.len() > 0 {
        let shorter = list.drop_last();
        assert(ascending(shorter, count)) by {
            assert forall|k: int| 0 <= k < shorter.len() implies #[trigger] shorter[k] < count by {
                assert(shorter[k] == list[k]);
            }
            assert forall|a: int, b: int| 0 <= a < b < shorter.len() implies shorter[a] < shorter[b] by {
                assert(shorter[a] == list[a] && shorter[b] == list[b]);
            }
        }
        lemma_ascending_short(shorter, count);
        assert forall|k: int| 0 <= k < list.len() implies k <= #[trigger] list[k] by {
            if k < shorter.len() {
                assert(shorter[k] == list[k]);
            } else if k > 0 {
                assert(shorter[k - 1] == list[k - 1]);
                assert(list[k - 1] < list[k]);
            }
        }
        assert(list[list.len() - 1] < count);
    }
}

} // verus!
