//! Rank of every cell: the number of steps from the cell down to the pit
//! its chain of downstream cells ends in.

use vstd::prelude::*;

verus! {

/// Rank of a cell from which no pit can be reached.
pub const RANK_INVALID: i32 = -1;

/// Rank of a cell that has not been reached yet; never left in a result.
const RANK_UNSET: i32 = -9999;

/// Whether `x` is the index of a cell.
pub open spec fn in_range(ds: Seq<i32>, x: int) -> bool {
    0 <= x < ds.len()
}

/// The cell that `x` drains into; a position outside the range stays where it is.
pub open spec fn next(ds: Seq<i32>, x: int) -> int {
    if in_range(ds, x) {
        ds[x] as int
    } else {
        x
    }
}

/// Where `k` steps downstream from `x` lead.
pub open spec fn walk(ds: Seq<i32>, x: int, k: nat) -> int
    decreases k,
{
    if k == 0 {
        x
    } else {
        next(ds, walk(ds, x, (k - 1) as nat))
    }
}

/// A pit: a cell that drains into itself.
pub open spec fn is_pit(ds: Seq<i32>, x: int) -> bool {
    in_range(ds, x) && ds[x] == x
}

/// Whether some pit lies downstream of `x` (or is `x`).
pub open spec fn drains(ds: Seq<i32>, x: int) -> bool {
    exists|k: nat| is_pit(ds, #[trigger] walk(ds, x, k))
}

/// `k` steps lead from `x` to a pit, and no fewer.
pub open spec fn hops_to_pit(ds: Seq<i32>, x: int, k: nat) -> bool {
    &&& is_pit(ds, walk(ds, x, k))
    &&& forall|j: nat| j < k ==> !is_pit(ds, #[trigger] walk(ds, x, j))
}

/// The rank that cell `x` must get: its distance to the pit it drains
/// into, or the invalid rank when it drains into none.
pub open spec fn rank_is_correct(ds: Seq<i32>, x: int, r: i32) -> bool {
    ||| (r == RANK_INVALID && !drains(ds, x))
    ||| (r >= 0 && hops_to_pit(ds, x, r as nat))
}

/// Number of entries of `ranks` that are resolved (not negative).
pub open spec fn count_resolved(ranks: Seq<i32>) -> nat
    decreases ranks.len(),
{
    if ranks.len() == 0 {
        0
    } else {
        count_resolved(ranks.drop_last()) + if ranks.last() >= 0 {
            1nat
        } else {
            0nat
        }
    }
}

proof fn lemma_count_update(s: Seq<i32>, i: int, v: i32)
    requires
        0 <= i < s.len(),
    ensures
        count_resolved(s.update(i, v)) + (if s[i] >= 0 {
            1int
        } else {
            0int
        }) == count_resolved(s) + (if v >= 0 {
            1int
        } else {
            0int
        }),
    decreases s.len(),
{
    if i == s.len() - 1 {
        assert(s.update(i, v).drop_last() =~= s.drop_last());
    } else {
        assert(s.update(i, v).drop_last() =~= s.drop_last().update(i, v));
        lemma_count_update(s.drop_last(), i, v);
    }
}

proof fn lemma_count_le(s: Seq<i32>)
    ensures
        count_resolved(s) <= s.len(),
    decreases s.len(),
{
    if s.len() > 0 {
        lemma_count_le(s.drop_last());
    }
}

pub(crate) proof fn lemma_walk_shift(ds: Seq<i32>, x: int, k: nat)
    ensures
        walk(ds, x, k + 1) == walk(ds, next(ds, x), k),
    decreases k,
{
    assert(walk(ds, x, (k + 1) as nat) == next(ds, walk(ds, x, k)));
    if k > 0 {
        lemma_walk_shift(ds, x, (k - 1) as nat);
        assert(walk(ds, next(ds, x), k) == next(ds, walk(ds, next(ds, x), (k - 1) as nat)));
    } else {
        assert(walk(ds, x, 0) == x);
        assert(walk(ds, next(ds, x), 0) == next(ds, x));
    }
}

proof fn lemma_on_path_push(p: Seq<usize>, t: usize, x: int)
    ensures
        on_path(p.push(t), x) <==> (on_path(p, x) || x == t),
{
    if on_path(p, x) {
        let i = choose|i: int| 0 <= i < p.len() && p[i] == x;
        assert(p.push(t)[i] == x);
    }
    if on_path(p.push(t), x) && x != t {
        let i = choose|i: int| 0 <= i < p.push(t).len() && p.push(t)[i] == x;
        assert(p[i] == x);
    }
    if x == t {
        assert(p.push(t)[p.len() as int] == t);
    }
}

proof fn lemma_hops_step(ds: Seq<i32>, x: int, k: nat)
    requires
        !is_pit(ds, x),
        hops_to_pit(ds, next(ds, x), k),
    ensures
        hops_to_pit(ds, x, k + 1),
{
    lemma_walk_shift(ds, x, k);
    assert forall|j: nat| j < k + 1 implies !is_pit(ds, #[trigger] walk(ds, x, j)) by {
        if j > 0 {
            lemma_walk_shift(ds, x, (j - 1) as nat);
        }
    }
}

proof fn lemma_not_drains_step(ds: Seq<i32>, x: int)
    requires
        !is_pit(ds, x),
        !drains(ds, next(ds, x)),
    ensures
        !drains(ds, x),
{
    assert forall|k: nat| !is_pit(ds, #[trigger] walk(ds, x, k)) by {
        if k > 0 {
            lemma_walk_shift(ds, x, (k - 1) as nat);
            assert(!is_pit(ds, walk(ds, next(ds, x), (k - 1) as nat)));
        }
    }
}

pub(crate) proof fn lemma_out_of_range_not_drains(ds: Seq<i32>, x: int)
    requires
        !in_range(ds, x),
    ensures
        !drains(ds, x),
{
    assert forall|k: nat| walk(ds, x, k) == x by {
        lemma_walk_stays_out(ds, x, k);
    }
}

proof fn lemma_walk_stays_out(ds: Seq<i32>, x: int, k: nat)
    requires
        !in_range(ds, x),
    ensures
        walk(ds, x, k) == x,
    decreases k,
{
    if k > 0 {
        lemma_walk_stays_out(ds, x, (k - 1) as nat);
    }
}

/// `x` is one of the cells of `path`.
pub open spec fn on_path(path: Seq<usize>, x: int) -> bool {
    exists|i: int| 0 <= i < path.len() && path[i] == x
}

/// A chain of cells, each draining into the next one.
pub open spec fn is_chain(ds: Seq<i32>, path: Seq<usize>) -> bool {
    &&& path.len() > 0
    &&& forall|j: int| 0 <= j < path.len() ==> in_range(ds, #[trigger] path[j] as int)
    &&& forall|j: int|
        0 <= j < path.len() - 1 ==> next(ds, #[trigger] path[j] as int) == path[j + 1] as int
    &&& forall|j: int| 0 <= j < path.len() ==> !is_pit(ds, #[trigger] path[j] as int)
}

proof fn lemma_cycle_walk(ds: Seq<i32>, path: Seq<usize>, m: int, x: int, k: nat)
    requires
        is_chain(ds, path),
        0 <= m < path.len(),
        next(ds, path.last() as int) == path[m] as int,
        on_path(path, x),
    ensures
        on_path(path, walk(ds, x, k)),
    decreases k,
{
    if k > 0 {
        lemma_cycle_walk(ds, path, m, x, (k - 1) as nat);
        let i = choose|i: int| 0 <= i < path.len() && path[i] == walk(ds, x, (k - 1) as nat);
        if i < path.len() - 1 {
            assert(path[i + 1] == walk(ds, x, k));
        } else {
            assert(path[m] == walk(ds, x, k));
        }
    }
}

proof fn lemma_cycle_not_drains(ds: Seq<i32>, path: Seq<usize>, m: int)
    requires
        is_chain(ds, path),
        0 <= m < path.len(),
        next(ds, path.last() as int) == path[m] as int,
    ensures
        forall|j: int| 0 <= j < path.len() ==> !drains(ds, #[trigger] path[j] as int),
{
    assert forall|j: int| 0 <= j < path.len() implies !drains(ds, #[trigger] path[j] as int) by {
        assert forall|k: nat| !is_pit(ds, #[trigger] walk(ds, path[j] as int, k)) by {
            assert(on_path(path, path[j] as int));
            lemma_cycle_walk(ds, path, m, path[j] as int, k);
        }
    }
}

proof fn lemma_chain_not_drains(ds: Seq<i32>, path: Seq<usize>)
    requires
        is_chain(ds, path),
        !drains(ds, next(ds, path.last() as int)),
    ensures
        forall|j: int| 0 <= j < path.len() ==> !drains(ds, #[trigger] path[j] as int),
    decreases path.len(),
{
    lemma_not_drains_step(ds, path.last() as int);
    if path.len() > 1 {
        let front = path.drop_last();
        assert(front.last() == path[path.len() - 2]);
        lemma_chain_not_drains(ds, front);
        assert forall|j: int| 0 <= j < path.len() implies !drains(
            ds,
            #[trigger] path[j] as int,
        ) by {
            if j < path.len() - 1 {
                assert(path[j] == front[j]);
            }
        }
    }
}

pub(crate) proof fn lemma_distinct_len(s: Seq<usize>, n: nat)
    requires
        s.no_duplicates(),
        forall|j: int| 0 <= j < s.len() ==> #[trigger] s[j] < n,
    ensures
        s.len() <= n,
{
    let t = s.map_values(|x: usize| x as int);
    assert(t.no_duplicates()) by {
        assert forall|a: int, b: int| 0 <= a < t.len() && 0 <= b < t.len() && a != b implies t[a]
            != t[b] by {
            assert(s[a] != s[b]);
        }
    }
    t.unique_seq_to_set();
    vstd::set_lib::lemma_int_range(0, n as int);
    assert(t.to_set().subset_of(vstd::set_lib::set_int_range(0, n as int)));
    vstd::set_lib::lemma_len_subset(t.to_set(), vstd::set_lib::set_int_range(0, n as int));
}

/// Every cell holds a correct rank or is still unset.
spec fn ranks_sound(ds: Seq<i32>, ranks: Seq<i32>, n_count: int) -> bool {
    &&& ranks.len() == ds.len()
    &&& n_count == count_resolved(ranks)
    &&& forall|x: int|
        0 <= x < ranks.len() ==> (#[trigger] ranks[x] == RANK_UNSET || rank_is_correct(
            ds,
            x,
            ranks[x],
        ))
    &&& forall|x: int| 0 <= x < ranks.len() && ranks[x] >= 0 ==> #[trigger] ranks[x] < n_count
}

/// What a traced path holds: a chain of distinct unset cells starting at
/// `start`, and exactly its cells marked as visited.
spec fn path_sound(
    ds: Seq<i32>,
    ranks: Seq<i32>,
    visited: Seq<bool>,
    path: Seq<usize>,
    start: usize,
) -> bool {
    &&& path.len() > 0
    &&& path[0] == start
    &&& path.no_duplicates()
    &&& visited.len() == ds.len()
    &&& forall|j: int| 0 <= j < path.len() ==> #[trigger] path[j] < ds.len()
    &&& forall|j: int| 0 <= j < path.len() ==> ranks[#[trigger] path[j] as int] == RANK_UNSET
    &&& forall|j: int|
        0 <= j < path.len() - 1 ==> ds[#[trigger] path[j] as int] == path[j + 1] as int
    &&& forall|x: int| 0 <= x < ds.len() ==> (#[trigger] visited[x] <==> on_path(path, x))
}

/// Follows the downstream chain from `start`, recording its cells in
/// `path`, until it meets a pit, a cell with a known rank, a cell already
/// on the path or an index outside the range. Returns the rank of the cell
/// met past the end of the path, -1 when the last cell of the path is a
/// pit, and -2 when none of the path's cells drains into a pit.
fn trace_path(
    ds: &[i32],
    ranks: &Vec<i32>,
    visited: &mut Vec<bool>,
    path: &mut Vec<usize>,
    start: usize,
) -> (end: i32)
    requires
        ranks_sound(ds@, ranks@, count_resolved(ranks@) as int),
        old(visited)@.len() == ds@.len(),
        forall|x: int| 0 <= x < ds@.len() ==> !#[trigger] old(visited)@[x],
        start < ds@.len(),
        ranks@[start as int] == RANK_UNSET,
    ensures
        path_sound(ds@, ranks@, final(visited)@, final(path)@, start),
        end >= -2,
        end == -2 ==> forall|j: int|
            0 <= j < final(path)@.len() ==> !drains(ds@, #[trigger] final(path)@[j] as int),
        end == -1 ==> is_pit(ds@, final(path)@.last() as int),
        end >= 0 ==> {
            let last = final(path)@.last() as int;
            &&& !is_pit(ds@, last)
            &&& in_range(ds@, ds@[last] as int)
            &&& ranks@[ds@[last] as int] == end
        },
{
    let n = ds.len();
    path.clear();
    path.push(start);
    visited.set(start, true);
    proof {
        assert forall|x: int| 0 <= x < ds@.len() implies (#[trigger] visited@[x] <==> on_path(
            path@,
            x,
        )) by {
            if x == start {
                assert(path@[0] == start);
            }
        }
    }
    let mut idx0 = start;
    loop
        invariant
            ranks_sound(ds@, ranks@, count_resolved(ranks@) as int),
            n == ds@.len(),
            path_sound(ds@, ranks@, visited@, path@, start),
            idx0 == path@.last(),
        decreases n - path@.len(),
    {
        proof {
            lemma_distinct_len(path@, n as nat);
        }
        let idx_ds = ds[idx0];
        if idx_ds < 0 || idx_ds as usize >= n {
            proof {
                lemma_out_of_range_not_drains(ds@, idx_ds as int);
                assert(is_chain(ds@, path@));
                lemma_chain_not_drains(ds@, path@);
            }
            return -2;
        }
        let t = idx_ds as usize;
        let r = ranks[t];
        if r >= 0 {
            return r;
        } else if t == idx0 {
            return -1;
        } else if r == RANK_INVALID || visited[t] {
            proof {
                assert(is_chain(ds@, path@)) by {
                    assert forall|j: int| 0 <= j < path@.len() implies !is_pit(
                        ds@,
                        #[trigger] path@[j] as int,
                    ) by {
                        if j < path@.len() - 1 {
                            assert(path@[j] != path@[j + 1]);
                        }
                    }
                }
                if r == RANK_INVALID {
                    lemma_chain_not_drains(ds@, path@);
                } else {
                    let m = choose|i: int| 0 <= i < path@.len() && path@[i] == t;
                    lemma_cycle_not_drains(ds@, path@, m);
                }
            }
            return -2;
        } else {
            proof {
                assert(!on_path(path@, t as int));
            }
            let ghost old_path = path@;
            let ghost old_visited = visited@;
            path.push(t);
            visited.set(t, true);
            idx0 = t;
            proof {
                assert forall|x: int| 0 <= x < ds@.len() implies (#[trigger] visited@[x]
                    <==> on_path(path@, x)) by {
                    lemma_on_path_push(old_path, t, x);
                    assert(old_visited[x] <==> on_path(old_path, x));
                }
                assert(path@.no_duplicates()) by {
                    assert forall|a: int, b: int|
                        0 <= a < path@.len() && 0 <= b < path@.len() && a != b implies path@[a]
                        != path@[b] by {
                        if b == path@.len() - 1 {
                            assert(path@[a] == old_path[a]);
                        } else if a == path@.len() - 1 {
                            assert(path@[b] == old_path[b]);
                        } else {
                            assert(path@[a] == old_path[a]);
                            assert(path@[b] == old_path[b]);
                        }
                    }
                }
                lemma_distinct_len(path@, n as nat);
            }
        }
    }
}

/// `x` is one of the cells `path[lo..hi]`.
spec fn on_span(path: Seq<usize>, lo: int, hi: int, x: int) -> bool {
    exists|i: int| lo <= i < hi && path[i] == x
}

proof fn lemma_span_shrink_front(path: Seq<usize>, lo: int, hi: int, x: int)
    requires
        path.no_duplicates(),
        0 <= lo < hi <= path.len(),
    ensures
        on_span(path, lo + 1, hi, x) <==> (on_span(path, lo, hi, x) && x != path[lo]),
{
    if on_span(path, lo + 1, hi, x) {
        let i = choose|i: int| lo + 1 <= i < hi && path[i] == x;
        assert(path[i] != path[lo]);
    }
    if on_span(path, lo, hi, x) && x != path[lo] {
        let i = choose|i: int| lo <= i < hi && path[i] == x;
        assert(i != lo);
    }
}

proof fn lemma_span_shrink_back(path: Seq<usize>, hi: int, x: int)
    requires
        path.no_duplicates(),
        0 < hi <= path.len(),
    ensures
        on_span(path, 0, hi - 1, x) <==> (on_span(path, 0, hi, x) && x != path[hi - 1]),
{
    if on_span(path, 0, hi - 1, x) {
        let i = choose|i: int| 0 <= i < hi - 1 && path[i] == x;
        assert(path[i] != path[hi - 1]);
    }
    if on_span(path, 0, hi, x) && x != path[hi - 1] {
        let i = choose|i: int| 0 <= i < hi && path[i] == x;
        assert(i != hi - 1);
    }
}

proof fn lemma_on_path_span(path: Seq<usize>, x: int)
    ensures
        on_path(path, x) <==> on_span(path, 0, path.len() as int, x),
{
    if on_path(path, x) {
        let i = choose|i: int| 0 <= i < path.len() && path[i] == x;
        assert(on_span(path, 0, path.len() as int, x));
    }
}

/// Gives every cell of a traced path the invalid rank and clears their marks.
fn mark_invalid(
    ds: &[i32],
    ranks: &mut Vec<i32>,
    visited: &mut Vec<bool>,
    path: &Vec<usize>,
    start: usize,
)
    requires
        ranks_sound(ds@, old(ranks)@, count_resolved(old(ranks)@) as int),
        path_sound(ds@, old(ranks)@, old(visited)@, path@, start),
        forall|j: int| 0 <= j < path@.len() ==> !drains(ds@, #[trigger] path@[j] as int),
    ensures
        ranks_sound(ds@, final(ranks)@, count_resolved(old(ranks)@) as int),
        final(visited)@.len() == ds@.len(),
        forall|x: int| 0 <= x < ds@.len() ==> !#[trigger] final(visited)@[x],
        final(ranks)@[start as int] != RANK_UNSET,
        forall|x: int|
            0 <= x < ds@.len() && old(ranks)@[x] != RANK_UNSET ==> #[trigger] final(ranks)@[x]
                == old(ranks)@[x],
{
    let ghost ranks0 = ranks@;
    let ghost c0 = count_resolved(ranks@) as int;
    proof {
        assert forall|x: int| 0 <= x < ds@.len() implies (#[trigger] visited@[x] <==> on_span(
            path@,
            0,
            path@.len() as int,
            x,
        )) by {
            lemma_on_path_span(path@, x);
        }
    }
    let mut j: usize = 0;
    while j < path.len()
        invariant
            0 <= j <= path@.len(),
            path@.len() > 0,
            path@[0] == start,
            path@.no_duplicates(),
            forall|i: int| 0 <= i < path@.len() ==> #[trigger] path@[i] < ds@.len(),
            forall|i: int| 0 <= i < path@.len() ==> !drains(ds@, #[trigger] path@[i] as int),
            ranks_sound(ds@, ranks@, c0),
            visited@.len() == ds@.len(),
            forall|x: int|
                0 <= x < ds@.len() && ranks0[x] != RANK_UNSET ==> #[trigger] ranks@[x]
                    == ranks0[x],
            forall|i: int| j <= i < path@.len() ==> ranks@[#[trigger] path@[i] as int] == RANK_UNSET,
            forall|i: int| 0 <= i < j ==> ranks@[#[trigger] path@[i] as int] == RANK_INVALID,
            forall|x: int|
                0 <= x < ds@.len() ==> (#[trigger] visited@[x] <==> on_span(
                    path@,
                    j as int,
                    path@.len() as int,
                    x,
                )),
        decreases path@.len() - j,
    {
        let x = path[j];
        let ghost r_before = ranks@;
        let ghost v_before = visited@;
        ranks.set(x, RANK_INVALID);
        visited.set(x, false);
        proof {
            lemma_count_update(r_before, x as int, RANK_INVALID);
            assert forall|y: int| 0 <= y < ds@.len() implies (#[trigger] visited@[y] <==> on_span(
                path@,
                j + 1,
                path@.len() as int,
                y,
            )) by {
                lemma_span_shrink_front(path@, j as int, path@.len() as int, y);
                assert(v_before[y] <==> on_span(path@, j as int, path@.len() as int, y));
            }
            assert forall|i: int| j + 1 <= i < path@.len() implies ranks@[#[trigger] path@[i] as int]
                == RANK_UNSET by {
                assert(path@[i] != path@[j as int]);
            }
            assert forall|i: int| 0 <= i < j + 1 implies ranks@[#[trigger] path@[i] as int]
                == RANK_INVALID by {
                if i < j {
                    assert(path@[i] != path@[j as int]);
                }
            }
        }
        j += 1;
    }
    proof {
        assert forall|x: int| 0 <= x < ds@.len() implies !#[trigger] visited@[x] by {
            if on_span(path@, path@.len() as int, path@.len() as int, x) {
                let i = choose|i: int| path@.len() <= i < path@.len() && path@[i] == x;
            }
        }
        assert(ranks@[path@[0] as int] == RANK_INVALID);
    }
}

/// Gives the cells of a traced path their ranks, from its last cell to its
/// first, counting up from `end`, and clears their marks. Returns the new
/// number of resolved cells.
fn assign_ranks(
    ds: &[i32],
    ranks: &mut Vec<i32>,
    visited: &mut Vec<bool>,
    path: &Vec<usize>,
    start: usize,
    end: i32,
    n_count: usize,
) -> (count: usize)
    requires
        ds@.len() <= i32::MAX,
        n_count == count_resolved(old(ranks)@),
        ranks_sound(ds@, old(ranks)@, n_count as int),
        path_sound(ds@, old(ranks)@, old(visited)@, path@, start),
        end >= -1,
        end == -1 ==> is_pit(ds@, path@.last() as int),
        end >= 0 ==> {
            let last = path@.last() as int;
            &&& !is_pit(ds@, last)
            &&& in_range(ds@, ds@[last] as int)
            &&& old(ranks)@[ds@[last] as int] == end
        },
    ensures
        ranks_sound(ds@, final(ranks)@, count as int),
        final(visited)@.len() == ds@.len(),
        forall|x: int| 0 <= x < ds@.len() ==> !#[trigger] final(visited)@[x],
        final(ranks)@[start as int] != RANK_UNSET,
        forall|x: int|
            0 <= x < ds@.len() && old(ranks)@[x] != RANK_UNSET ==> #[trigger] final(ranks)@[x]
                == old(ranks)@[x],
{
    let ghost ranks0 = ranks@;
    let n = ds.len();
    let len = path.len();
    let mut cnt = n_count;
    let mut rnk = end;
    let mut j: usize = len;
    proof {
        assert forall|x: int| 0 <= x < ds@.len() implies (#[trigger] visited@[x] <==> on_span(
            path@,
            0,
            path@.len() as int,
            x,
        )) by {
            lemma_on_path_span(path@, x);
        }
        lemma_count_le(ranks@);
    }
    while j > 0
        invariant
            n == ds@.len() <= i32::MAX,
            len == path@.len(),
            0 <= j <= len,
            path@.len() > 0,
            path@[0] == start,
            path@.no_duplicates(),
            forall|i: int| 0 <= i < path@.len() ==> #[trigger] path@[i] < ds@.len(),
            forall|i: int|
                0 <= i < path@.len() - 1 ==> ds@[#[trigger] path@[i] as int] == path@[i + 1] as int,
            end == -1 ==> is_pit(ds@, path@.last() as int),
            end >= 0 ==> {
                let last = path@.last() as int;
                &&& !is_pit(ds@, last)
                &&& in_range(ds@, ds@[last] as int)
                &&& ranks0[ds@[last] as int] == end
            },
            ranks_sound(ds@, ranks@, cnt as int),
            cnt <= n,
            visited@.len() == ds@.len(),
            forall|x: int|
                0 <= x < ds@.len() && ranks0[x] != RANK_UNSET ==> #[trigger] ranks@[x]
                    == ranks0[x],
            forall|i: int| 0 <= i < j ==> ranks@[#[trigger] path@[i] as int] == RANK_UNSET,
            j < len ==> rnk >= 0 && ranks@[path@[j as int] as int] == rnk,
            j == len ==> rnk == end,
            -1 <= rnk < cnt,
            forall|x: int|
                0 <= x < ds@.len() ==> (#[trigger] visited@[x] <==> on_span(
                    path@,
                    0,
                    j as int,
                    x,
                )),
        decreases j,
    {
        j -= 1;
        let x = path[j];
        let ghost r_before = ranks@;
        let ghost v_before = visited@;
        proof {
            lemma_count_update(r_before, x as int, (rnk + 1) as i32);
            lemma_count_le(r_before.update(x as int, (rnk + 1) as i32));
            if j + 1 == len {
                if end == -1 {
                    assert(hops_to_pit(ds@, x as int, 0));
                } else {
                    assert(rank_is_correct(ds@, ds@[x as int] as int, r_before[ds@[x as int] as int]));
                    lemma_hops_step(ds@, x as int, rnk as nat);
                }
            } else {
                let y = path@[j + 1];
                assert(ds@[x as int] == y as int);
                assert(x != y);
                assert(rank_is_correct(ds@, y as int, r_before[y as int]));
                lemma_hops_step(ds@, x as int, rnk as nat);
            }
        }
        rnk = rnk + 1;
        ranks.set(x, rnk);
        visited.set(x, false);
        cnt = cnt + 1;
        proof {
            assert forall|y: int| 0 <= y < ds@.len() implies (#[trigger] visited@[y] <==> on_span(
                path@,
                0,
                j as int,
                y,
            )) by {
                lemma_span_shrink_back(path@, j + 1, y);
                assert(v_before[y] <==> on_span(path@, 0, j + 1, y));
            }
            assert forall|i: int| 0 <= i < j implies ranks@[#[trigger] path@[i] as int]
                == RANK_UNSET by {
                assert(path@[i] != path@[j as int]);
            }
        }
    }
    cnt
}

/// Returns the rank of every cell, the number of steps from it down to
/// the pit its chain of downstream cells ends in, or -1 where that chain
/// runs into a cycle or leaves the range of indices; and the number of
/// cells with a rank of zero or more. A pit is a cell `i` with
/// `idxs_ds[i] == i`. The second argument is not read.
pub fn rank(idxs_ds: &[i32], _pits: &[bool]) -> (r: (Vec<i32>, usize))
    requires
        idxs_ds@.len() <= i32::MAX,
    ensures
        r.0@.len() == idxs_ds@.len(),
        forall|x: int| 0 <= x < r.0@.len() ==> rank_is_correct(idxs_ds@, x, #[trigger] r.0@[x]),
        r.1 == count_resolved(r.0@),
{
    let n = idxs_ds.len();
    let mut ranks: Vec<i32> = vec![RANK_UNSET; n];
    let mut visited: Vec<bool> = vec![false; n];
    let mut path: Vec<usize> = Vec::new();
    let mut n_count: usize = 0;
    proof {
        assert(count_resolved(ranks@) == 0) by {
            lemma_count_zero(ranks@);
        }
    }
    let mut idx: usize = 0;
    while idx < n
        invariant
            n == idxs_ds@.len() <= i32::MAX,
            idx <= n,
            ranks_sound(idxs_ds@, ranks@, n_count as int),
            visited@.len() == n,
            forall|x: int| 0 <= x < n ==> !#[trigger] visited@[x],
            forall|x: int| 0 <= x < idx ==> #[trigger] ranks@[x] != RANK_UNSET,
        decreases n - idx,
    {
        if ranks[idx] == RANK_UNSET {
            let ghost ranks0 = ranks@;
            let end = trace_path(idxs_ds, &ranks, &mut visited, &mut path, idx);
            if end == -2 {
                mark_invalid(idxs_ds, &mut ranks, &mut visited, &path, idx);
            } else {
                n_count = assign_ranks(idxs_ds, &mut ranks, &mut visited, &path, idx, end, n_count);
            }
            proof {
                assert forall|x: int| 0 <= x < idx + 1 implies #[trigger] ranks@[x] != RANK_UNSET by {
                    if x < idx {
                        assert(ranks0[x] != RANK_UNSET);
                    }
                }
            }
        }
        idx += 1;
    }
    (ranks, n_count)
}

proof fn lemma_count_zero(s: Seq<i32>)
    requires
        forall|i: int| 0 <= i < s.len() ==> s[i] < 0,
    ensures
        count_resolved(s) == 0,
    decreases s.len(),
{
    if s.len() > 0 {
        lemma_count_zero(s.drop_last());
    }
}

proof fn lemma_walk_compose(ds: Seq<i32>, x: int, a: nat, b: nat)
    ensures
        walk(ds, x, a + b) == walk(ds, walk(ds, x, a), b),
    decreases b,
{
    if b > 0 {
        lemma_walk_compose(ds, x, a, (b - 1) as nat);
        assert(walk(ds, x, a + b) == next(ds, walk(ds, x, (a + b - 1) as nat)));
    }
}

/// Once a walk meets a cell that drains into itself (a pit) or an index
/// outside the range, it stays there.
proof fn lemma_walk_fixed(ds: Seq<i32>, x: int, j: nat, m: nat)
    requires
        next(ds, walk(ds, x, j)) == walk(ds, x, j),
    ensures
        walk(ds, x, j + m) == walk(ds, x, j),
    decreases m,
{
    if m > 0 {
        lemma_walk_fixed(ds, x, j, (m - 1) as nat);
        assert(walk(ds, x, j + m) == next(ds, walk(ds, x, (j + m - 1) as nat)));
    }
}

proof fn lemma_walk_cycle(ds: Seq<i32>, c: int, k: nat, m: nat)
    requires
        walk(ds, c, k) == c,
    ensures
        walk(ds, c, m * k) == c,
    decreases m,
{
    if m > 0 {
        lemma_walk_cycle(ds, c, k, (m - 1) as nat);
        assert(m * k == (m - 1) * k + k) by (nonlinear_arith);
        lemma_walk_compose(ds, c, ((m - 1) * k) as nat, k);
        assert(walk(ds, c, ((m - 1) * k) as nat) == c);
        assert(walk(ds, c, (((m - 1) * k) as nat + k) as nat) == c);
    } else {
        assert(m * k == 0) by (nonlinear_arith)
            requires
                m == 0,
        ;
        assert(walk(ds, c, 0) == c);
    }
}

/// A pit has rank zero.
pub proof fn lemma_pit_has_rank_zero(ds: Seq<i32>, ranks: Seq<i32>, p: int)
    requires
        ranks.len() == ds.len(),
        forall|x: int| 0 <= x < ranks.len() ==> rank_is_correct(ds, x, #[trigger] ranks[x]),
        is_pit(ds, p),
    ensures
        ranks[p] == 0,
{
    assert(walk(ds, p, 0) == p);
    assert(rank_is_correct(ds, p, ranks[p]));
    if ranks[p] > 0 {
        assert(!is_pit(ds, walk(ds, p, 0)));
    }
}

proof fn lemma_hops_unique(ds: Seq<i32>, x: int, a: nat, b: nat)
    requires
        hops_to_pit(ds, x, a),
        hops_to_pit(ds, x, b),
    ensures
        a == b,
{
    if a < b {
        assert(!is_pit(ds, walk(ds, x, a)));
    } else if b < a {
        assert(!is_pit(ds, walk(ds, x, b)));
    }
}

/// A cell that is not a pit and has a rank has one more than the cell it
/// drains into.
pub proof fn lemma_rank_steps_down(ds: Seq<i32>, ranks: Seq<i32>, c: int)
    requires
        ranks.len() == ds.len(),
        forall|x: int| 0 <= x < ranks.len() ==> rank_is_correct(ds, x, #[trigger] ranks[x]),
        in_range(ds, c),
        !is_pit(ds, c),
        ranks[c] >= 0,
    ensures
        in_range(ds, ds[c] as int),
        ranks[ds[c] as int] + 1 == ranks[c],
{
    assert(rank_is_correct(ds, c, ranks[c]));
    let k = ranks[c] as nat;
    assert(walk(ds, c, 0) == c);
    assert(k > 0);
    let d = ds[c] as int;
    lemma_walk_shift(ds, c, (k - 1) as nat);
    assert(hops_to_pit(ds, d, (k - 1) as nat)) by {
        assert forall|j: nat| j < k - 1 implies !is_pit(ds, #[trigger] walk(ds, d, j)) by {
            lemma_walk_shift(ds, c, j);
            assert(!is_pit(ds, walk(ds, c, j + 1)));
        }
    }
    if !in_range(ds, d) {
        lemma_out_of_range_not_drains(ds, d);
    }
    assert(rank_is_correct(ds, d, ranks[d]));
    if ranks[d] == RANK_INVALID {
        assert(is_pit(ds, walk(ds, d, (k - 1) as nat)));
    } else {
        lemma_hops_unique(ds, d, ranks[d] as nat, (k - 1) as nat);
    }
}

/// A cell on a cycle that holds no pit, or whose chain of downstream cells
/// leaves the range of indices, has the invalid rank.
pub proof fn lemma_cycle_or_exit_is_invalid(ds: Seq<i32>, ranks: Seq<i32>, c: int)
    requires
        ranks.len() == ds.len(),
        forall|x: int| 0 <= x < ranks.len() ==> rank_is_correct(ds, x, #[trigger] ranks[x]),
        in_range(ds, c),
        (exists|k: nat| k > 0 && #[trigger] walk(ds, c, k) == c && !is_pit(ds, c)) || (exists|
            k: nat,
        | !in_range(ds, #[trigger] walk(ds, c, k))),
    ensures
        ranks[c] == RANK_INVALID,
{
    assert(rank_is_correct(ds, c, ranks[c]));
    if drains(ds, c) {
        let j = choose|j: nat| is_pit(ds, #[trigger] walk(ds, c, j));
        if exists|k: nat| k > 0 && #[trigger] walk(ds, c, k) == c && !is_pit(ds, c) {
            let k = choose|k: nat| k > 0 && #[trigger] walk(ds, c, k) == c && !is_pit(ds, c);
            assert(j * k >= j) by (nonlinear_arith)
                requires
                    k > 0,
            ;
            lemma_walk_fixed(ds, c, j, (j * k - j) as nat);
            lemma_walk_cycle(ds, c, k, j);
        } else {
            let k = choose|k: nat| !in_range(ds, #[trigger] walk(ds, c, k));
            if k <= j {
                lemma_walk_fixed(ds, c, k, (j - k) as nat);
            } else {
                lemma_walk_fixed(ds, c, j, (k - j) as nat);
            }
        }
    }
}

} // verus!
