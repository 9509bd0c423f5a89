//! Pits, upstream fan-in and the upstream adjacency table of a flat array
//! of downstream indices, in which cell `i` drains into `idxs_ds[i]`.

use vstd::prelude::*;
use crate::rank::{
    count_resolved, drains, in_range, is_pit, lemma_distinct_len, lemma_out_of_range_not_drains,
    lemma_walk_shift, next, on_path, rank_is_correct, walk,
};

verus! {

/// The "no entry" value that pads the upstream adjacency table.
pub const MV: isize = -1;

/// The pits among the first `n` cells, in increasing order: the cells
/// that drain into themselves.
pub open spec fn pits_upto(ds: Seq<usize>, n: int) -> Seq<usize>
    decreases n,
{
    if n <= 0 {
        Seq::empty()
    } else {
        let prev = pits_upto(ds, n - 1);
        if ds[n - 1] == n - 1 {
            prev.push((n - 1) as usize)
        } else {
            prev
        }
    }
}

/// Whether cell `j` adds to the upstream count of the cell it drains into:
/// it drains into another cell of the array and the mask lets it count.
pub open spec fn contributes(ds: Seq<usize>, mask: Seq<bool>, j: int) -> bool {
    &&& ds[j] != j
    &&& ds[j] < ds.len()
    &&& mask[j]
}

/// Upstream count of every cell, from the contributions of the first `n` cells.
pub open spec fn up_counts(ds: Seq<usize>, mask: Seq<bool>, n: int) -> Seq<int>
    decreases n,
{
    if n <= 0 {
        Seq::new(ds.len(), |t: int| 0int)
    } else {
        let prev = up_counts(ds, mask, n - 1);
        if contributes(ds, mask, n - 1) {
            prev.update(ds[n - 1] as int, prev[ds[n - 1] as int] + 1)
        } else {
            prev
        }
    }
}

/// A mask that lets every one of `n` cells count.
pub open spec fn all_cells(n: int) -> Seq<bool> {
    Seq::new(n as nat, |i: int| true)
}

/// The mask that an optional mask stands for.
pub open spec fn mask_of(mask: Option<&[bool]>, n: int) -> Seq<bool> {
    match mask {
        Some(m) => m@,
        None => all_cells(n),
    }
}

/// No cell has more than the eight cells around it draining into it.
pub open spec fn fan_in_bounded(ds: Seq<usize>, mask: Seq<bool>) -> bool {
    forall|t: int| 0 <= t < ds.len() ==> #[trigger] up_counts(ds, mask, ds.len() as int)[t] <= 8
}

/// The cells among the first `m` that drain into `t` from elsewhere, in increasing order.
pub open spec fn ups_upto(ds: Seq<usize>, t: int, m: int) -> Seq<usize>
    decreases m,
{
    if m <= 0 {
        Seq::empty()
    } else {
        let prev = ups_upto(ds, t, m - 1);
        if ds[m - 1] == t && m - 1 != t {
            prev.push((m - 1) as usize)
        } else {
            prev
        }
    }
}

/// A row of the upstream table: the cells in `ups`, then the "no entry"
/// value up to `width`.
pub open spec fn padded_row(ups: Seq<usize>, width: int) -> Seq<isize> {
    Seq::new(width as nat, |k: int| if k < ups.len() { ups[k] as isize } else { MV })
}

/// The largest of the first `m` counts, or zero.
pub open spec fn max_count(counts: Seq<int>, m: int) -> int
    decreases m,
{
    if m <= 0 {
        0
    } else {
        let prev = max_count(counts, m - 1);
        if counts[m - 1] > prev {
            counts[m - 1]
        } else {
            prev
        }
    }
}

/// Width of the upstream table: the largest upstream count, and at least one.
pub open spec fn table_width(ds: Seq<usize>) -> int {
    let d = max_count(up_counts(ds, all_cells(ds.len() as int), ds.len() as int), ds.len() as int);
    if d == 0 {
        1
    } else {
        d
    }
}

proof fn lemma_pits_upto(ds: Seq<usize>, n: int)
    requires
        0 <= n <= ds.len(),
    ensures
        forall|k: int|
            0 <= k < pits_upto(ds, n).len() ==> #[trigger] pits_upto(ds, n)[k] < n && ds[pits_upto(
                ds,
                n,
            )[k] as int] == pits_upto(ds, n)[k],
        forall|a: int, b: int|
            0 <= a < b < pits_upto(ds, n).len() ==> #[trigger] pits_upto(ds, n)[a]
                < #[trigger] pits_upto(ds, n)[b],
        forall|i: int|
            0 <= i < n && ds[i] == i ==> exists|k: int|
                0 <= k < pits_upto(ds, n).len() && #[trigger] pits_upto(ds, n)[k] == i,
    decreases n,
{
    if n > 0 {
        lemma_pits_upto(ds, n - 1);
        let prev = pits_upto(ds, n - 1);
        if ds[n - 1] == n - 1 {
            assert(pits_upto(ds, n)[prev.len() as int] == n - 1);
        }
        assert forall|i: int| 0 <= i < n && ds[i] == i implies exists|k: int|
            0 <= k < pits_upto(ds, n).len() && #[trigger] pits_upto(ds, n)[k] == i by {
            if i < n - 1 {
                let k = choose|k: int| 0 <= k < prev.len() && #[trigger] prev[k] == i;
                assert(pits_upto(ds, n)[k] == i);
            } else {
                assert(pits_upto(ds, n)[prev.len() as int] == n - 1);
            }
        }
    }
}

/// The pit list holds exactly the cells that drain into themselves, each
/// once and in increasing order.
pub proof fn lemma_pits_are_self_loops(ds: Seq<usize>)
    ensures
        forall|i: int|
            0 <= i < ds.len() ==> (ds[i] == i <==> exists|k: int|
                0 <= k < pits_upto(ds, ds.len() as int).len() && #[trigger] pits_upto(
                    ds,
                    ds.len() as int,
                )[k] == i),
        forall|a: int, b: int|
            0 <= a < b < pits_upto(ds, ds.len() as int).len() ==> #[trigger] pits_upto(
                ds,
                ds.len() as int,
            )[a] < #[trigger] pits_upto(ds, ds.len() as int)[b],
{
    lemma_pits_upto(ds, ds.len() as int);
}

/// Returns the indices of the pits, the cells that drain into themselves,
/// in increasing order.
pub fn pit_indices(idxs_ds: &[usize]) -> (r: Vec<usize>)
    ensures
        r@ == pits_upto(idxs_ds@, idxs_ds@.len() as int),
{
    let size = idxs_ds.len();
    let mut pits: Vec<usize> = Vec::new();
    let mut idx: usize = 0;
    while idx < size
        invariant
            size == idxs_ds@.len(),
            idx <= size,
            pits@ == pits_upto(idxs_ds@, idx as int),
        decreases size - idx,
    {
        if idxs_ds[idx] == idx {
            pits.push(idx);
        }
        idx += 1;
    }
    pits
}

proof fn lemma_up_counts_len(ds: Seq<usize>, mask: Seq<bool>, n: int)
    ensures
        up_counts(ds, mask, n).len() == ds.len(),
        forall|t: int| 0 <= t < ds.len() ==> #[trigger] up_counts(ds, mask, n)[t] >= 0,
    decreases n,
{
    if n > 0 {
        lemma_up_counts_len(ds, mask, n - 1);
    }
}

proof fn lemma_up_counts_monotone(ds: Seq<usize>, mask: Seq<bool>, a: int, b: int, t: int)
    requires
        0 <= a <= b,
        0 <= t < ds.len(),
    ensures
        up_counts(ds, mask, a)[t] <= up_counts(ds, mask, b)[t],
    decreases b - a,
{
    lemma_up_counts_len(ds, mask, b);
    if a < b {
        lemma_up_counts_monotone(ds, mask, a, b - 1, t);
        lemma_up_counts_len(ds, mask, b - 1);
    }
}

/// Returns the number of cells that drain into each cell from elsewhere;
/// with a mask, only the cells the mask marks count.
pub fn upstream_count(idxs_ds: &[usize], mask: Option<&[bool]>) -> (r: Vec<i8>)
    requires
        mask matches Some(m) ==> m@.len() == idxs_ds@.len(),
        fan_in_bounded(idxs_ds@, mask_of(mask, idxs_ds@.len() as int)),
    ensures
        r@.len() == idxs_ds@.len(),
        forall|t: int|
            0 <= t < r@.len() ==> #[trigger] r@[t] as int == up_counts(
                idxs_ds@,
                mask_of(mask, idxs_ds@.len() as int),
                idxs_ds@.len() as int,
            )[t],
{
    let size = idxs_ds.len();
    let ghost m = mask_of(mask, size as int);
    let mut n_up: Vec<i8> = vec![0i8; size];
    let mut idx0: usize = 0;
    proof {
        lemma_up_counts_len(idxs_ds@, m, 0);
    }
    while idx0 < size
        invariant
            size == idxs_ds@.len() == n_up@.len() == m.len(),
            mask matches Some(mm) ==> mm@ == m,
            mask is None ==> m == all_cells(size as int),
            idx0 <= size,
            fan_in_bounded(idxs_ds@, m),
            forall|t: int|
                0 <= t < size ==> #[trigger] n_up@[t] as int == up_counts(
                    idxs_ds@,
                    m,
                    idx0 as int,
                )[t],
        decreases size - idx0,
    {
        let idx_ds = idxs_ds[idx0];
        let counts = match mask {
            Some(mm) => mm[idx0],
            None => true,
        };
        proof {
            lemma_up_counts_len(idxs_ds@, m, idx0 as int);
            lemma_up_counts_len(idxs_ds@, m, idx0 + 1);
        }
        if idx_ds != idx0 && idx_ds < size && counts {
            proof {
                lemma_up_counts_monotone(idxs_ds@, m, idx0 + 1, size as int, idx_ds as int);
                assert(up_counts(idxs_ds@, m, size as int)[idx_ds as int] <= 8);
            }
            n_up.set(idx_ds, n_up[idx_ds] + 1);
        }
        idx0 += 1;
    }
    n_up
}

/// Sum of a sequence of integers.
pub open spec fn seq_sum(s: Seq<int>) -> int
    decreases s.len(),
{
    if s.len() == 0 {
        0
    } else {
        seq_sum(s.drop_last()) + s.last()
    }
}

/// Number of the first `n` cells that drain into another cell.
pub open spec fn count_moving(ds: Seq<usize>, n: int) -> int
    decreases n,
{
    if n <= 0 {
        0
    } else {
        count_moving(ds, n - 1) + if ds[n - 1] != n - 1 {
            1int
        } else {
            0int
        }
    }
}

proof fn lemma_sum_update(s: Seq<int>, i: int, v: int)
    requires
        0 <= i < s.len(),
    ensures
        seq_sum(s.update(i, v)) == seq_sum(s) - s[i] + v,
    decreases s.len(),
{
    if i == s.len() - 1 {
        assert(s.update(i, v).drop_last() =~= s.drop_last());
    } else {
        assert(s.update(i, v).drop_last() =~= s.drop_last().update(i, v));
        lemma_sum_update(s.drop_last(), i, v);
    }
}

proof fn lemma_sum_zeros(len: nat)
    ensures
        seq_sum(Seq::new(len, |t: int| 0int)) == 0,
    decreases len,
{
    if len > 0 {
        assert(Seq::new(len, |t: int| 0int).drop_last() =~= Seq::new(
            (len - 1) as nat,
            |t: int| 0int,
        ));
        lemma_sum_zeros((len - 1) as nat);
    }
}

proof fn lemma_sum_up_counts(ds: Seq<usize>, n: int)
    requires
        0 <= n <= ds.len(),
        forall|j: int| 0 <= j < ds.len() ==> #[trigger] ds[j] < ds.len(),
    ensures
        seq_sum(up_counts(ds, all_cells(ds.len() as int), n)) == count_moving(ds, n),
    decreases n,
{
    let m = all_cells(ds.len() as int);
    if n == 0 {
        lemma_sum_zeros(ds.len());
    } else {
        lemma_sum_up_counts(ds, n - 1);
        lemma_up_counts_len(ds, m, n - 1);
        if contributes(ds, m, n - 1) {
            let prev = up_counts(ds, m, n - 1);
            lemma_sum_update(prev, ds[n - 1] as int, prev[ds[n - 1] as int] + 1);
        }
    }
}

/// The upstream counts add up to the number of cells that drain into
/// another cell.
pub proof fn lemma_fan_in_total(ds: Seq<usize>)
    requires
        forall|j: int| 0 <= j < ds.len() ==> #[trigger] ds[j] < ds.len(),
    ensures
        seq_sum(up_counts(ds, all_cells(ds.len() as int), ds.len() as int)) == count_moving(
            ds,
            ds.len() as int,
        ),
{
    lemma_sum_up_counts(ds, ds.len() as int);
}

/// Whether a step of `off` along the flat array leads to one of the eight
/// cells around a cell of a grid with `ncols` columns.
pub open spec fn is_neighbour_step(off: int, ncols: int) -> bool {
    ||| off == -ncols - 1
    ||| off == -ncols
    ||| off == -ncols + 1
    ||| off == -1
    ||| off == 1
    ||| off == ncols - 1
    ||| off == ncols
    ||| off == ncols + 1
}

/// Every cell drains into itself or into one of the cells around it.
pub open spec fn is_grid_graph(ds: Seq<usize>, ncols: int) -> bool {
    forall|j: int|
        0 <= j < ds.len() ==> #[trigger] ds[j] == j || is_neighbour_step(ds[j] - j, ncols)
}

spec fn below(x: int, n: int) -> int {
    if 0 <= x < n {
        1
    } else {
        0
    }
}

/// How many of the eight cells around `t` come before position `n`.
spec fn neighbours_before(t: int, ncols: int, n: int) -> int {
    below(t + ncols + 1, n) + below(t + ncols, n) + below(t + ncols - 1, n) + below(t + 1, n)
        + below(t - 1, n) + below(t - ncols + 1, n) + below(t - ncols, n) + below(
        t - ncols - 1,
        n,
    )
}

proof fn lemma_up_counts_by_neighbours(ds: Seq<usize>, mask: Seq<bool>, ncols: int, t: int, n: int)
    requires
        is_grid_graph(ds, ncols),
        0 <= t < ds.len(),
        0 <= n <= ds.len(),
    ensures
        up_counts(ds, mask, n)[t] <= neighbours_before(t, ncols, n),
    decreases n,
{
    lemma_up_counts_len(ds, mask, n);
    if n > 0 {
        lemma_up_counts_by_neighbours(ds, mask, ncols, t, n - 1);
        lemma_up_counts_len(ds, mask, n - 1);
        let j = n - 1;
        if contributes(ds, mask, j) && ds[j] == t {
            assert(is_neighbour_step(ds[j] - j, ncols));
        }
    }
}

/// In a grid, no cell has more than eight cells draining into it.
pub proof fn lemma_grid_fan_in_bounded(ds: Seq<usize>, mask: Seq<bool>, ncols: int)
    requires
        is_grid_graph(ds, ncols),
    ensures
        fan_in_bounded(ds, mask),
{
    assert forall|t: int| 0 <= t < ds.len() implies #[trigger] up_counts(
        ds,
        mask,
        ds.len() as int,
    )[t] <= 8 by {
        lemma_up_counts_by_neighbours(ds, mask, ncols, t, ds.len() as int);
    }
}

proof fn lemma_ups_upto(ds: Seq<usize>, t: int, m: int)
    requires
        ds.len() <= usize::MAX,
        0 <= t < ds.len(),
        0 <= m <= ds.len(),
    ensures
        ups_upto(ds, t, m).len() == up_counts(ds, all_cells(ds.len() as int), m)[t],
        forall|k: int|
            0 <= k < ups_upto(ds, t, m).len() ==> {
                let u = #[trigger] ups_upto(ds, t, m)[k];
                &&& u < m
                &&& ds[u as int] == t
                &&& u != t
            },
        forall|a: int, b: int|
            0 <= a < b < ups_upto(ds, t, m).len() ==> #[trigger] ups_upto(ds, t, m)[a]
                < #[trigger] ups_upto(ds, t, m)[b],
        forall|u: int|
            0 <= u < m && ds[u] == t && u != t ==> exists|k: int|
                0 <= k < ups_upto(ds, t, m).len() && #[trigger] ups_upto(ds, t, m)[k] == u,
    decreases m,
{
    lemma_up_counts_len(ds, all_cells(ds.len() as int), m);
    if m > 0 {
        lemma_ups_upto(ds, t, m - 1);
        lemma_up_counts_len(ds, all_cells(ds.len() as int), m - 1);
        let prev = ups_upto(ds, t, m - 1);
        let cur = ups_upto(ds, t, m);
        assert forall|u: int| 0 <= u < m && ds[u] == t && u != t implies exists|k: int|
            0 <= k < cur.len() && #[trigger] cur[k] == u by {
            if u < m - 1 {
                let k = choose|k: int| 0 <= k < prev.len() && #[trigger] prev[k] == u;
                assert(cur[k] == u);
            } else {
                assert(ds[m - 1] == t && m - 1 != t);
                assert(cur == prev.push((m - 1) as usize));
                assert(cur[prev.len() as int] == u);
            }
        }
    }
}

proof fn lemma_max_count(counts: Seq<int>, m: int)
    requires
        0 <= m <= counts.len(),
    ensures
        max_count(counts, m) >= 0,
        forall|t: int| 0 <= t < m ==> #[trigger] counts[t] <= max_count(counts, m),
        (forall|t: int| 0 <= t < m ==> #[trigger] counts[t] <= 8) ==> max_count(counts, m) <= 8,
    decreases m,
{
    if m > 0 {
        lemma_max_count(counts, m - 1);
    }
}

/// Returns the upstream adjacency table: for each cell, the cells that
/// drain into it from elsewhere in increasing order, padded with `MV` to
/// the largest upstream count (at least one entry per row).
pub fn upstream_matrix(idxs_ds: &[usize]) -> (r: Vec<Vec<isize>>)
    requires
        idxs_ds@.len() <= isize::MAX,
        fan_in_bounded(idxs_ds@, all_cells(idxs_ds@.len() as int)),
    ensures
        r@.len() == idxs_ds@.len(),
        forall|t: int|
            0 <= t < r@.len() ==> (#[trigger] r@[t])@ == padded_row(
                ups_upto(idxs_ds@, t, idxs_ds@.len() as int),
                table_width(idxs_ds@),
            ),
{
    let n = idxs_ds.len();
    let ghost ds = idxs_ds@;
    let ghost counts = up_counts(ds, all_cells(n as int), n as int);
    let n_up = upstream_count(idxs_ds, None);
    proof {
        lemma_up_counts_len(ds, all_cells(n as int), n as int);
    }
    let mut d: i8 = 0;
    let mut i: usize = 0;
    while i < n
        invariant
            n == ds.len() == n_up@.len() == counts.len(),
            i <= n,
            forall|t: int| 0 <= t < n ==> #[trigger] n_up@[t] as int == counts[t],
            d as int == max_count(counts, i as int),
        decreases n - i,
    {
        if n_up[i] > d {
            d = n_up[i];
        }
        i += 1;
    }
    proof {
        lemma_max_count(counts, n as int);
    }
    let width: usize = if d == 0 {
        1
    } else {
        d as usize
    };
    let mut idxs_us: Vec<Vec<isize>> = Vec::new();
    let mut t: usize = 0;
    while t < n
        invariant
            t <= n,
            idxs_us@.len() == t,
            forall|q: int|
                0 <= q < t ==> (#[trigger] idxs_us@[q])@ == padded_row(
                    ups_upto(ds, q, 0),
                    width as int,
                ),
        decreases n - t,
    {
        let row: Vec<isize> = vec![MV; width];
        proof {
            assert(row@ =~= padded_row(ups_upto(ds, t as int, 0), width as int));
        }
        idxs_us.push(row);
        t += 1;
    }
    let mut counter: Vec<usize> = vec![0usize; n];
    let mut idx0: usize = 0;
    while idx0 < n
        invariant
            n == ds.len() == counts.len() == idxs_ds@.len() <= isize::MAX,
            ds == idxs_ds@,
            counts == up_counts(ds, all_cells(n as int), n as int),
            width as int == table_width(ds),
            forall|q: int| 0 <= q < n ==> #[trigger] counts[q] <= width,
            idx0 <= n,
            idxs_us@.len() == n,
            counter@.len() == n,
            forall|q: int|
                0 <= q < n ==> #[trigger] counter@[q] as int == ups_upto(ds, q, idx0 as int).len(),
            forall|q: int|
                0 <= q < n ==> (#[trigger] idxs_us@[q])@ == padded_row(
                    ups_upto(ds, q, idx0 as int),
                    width as int,
                ),
        decreases n - idx0,
    {
        let idx_ds = idxs_ds[idx0];
        if idx_ds != idx0 && idx_ds < n {
            let k = counter[idx_ds];
            proof {
                lemma_ups_upto(ds, idx_ds as int, idx0 as int + 1);
                lemma_up_counts_monotone(
                    ds,
                    all_cells(n as int),
                    idx0 as int + 1,
                    n as int,
                    idx_ds as int,
                );
                assert(ups_upto(ds, idx_ds as int, idx0 as int + 1) == ups_upto(
                    ds,
                    idx_ds as int,
                    idx0 as int,
                ).push(idx0));
            }
            if k < width {
                let ghost before = idxs_us@;
                idxs_us[idx_ds][k] = idx0 as isize;
                counter.set(idx_ds, k + 1);
                proof {
                    assert(idxs_us@[idx_ds as int]@ =~= padded_row(
                        ups_upto(ds, idx_ds as int, idx0 as int + 1),
                        width as int,
                    ));
                    assert forall|q: int| 0 <= q < n && q != idx_ds implies (#[trigger] idxs_us@[q])@
                        == padded_row(ups_upto(ds, q, idx0 as int + 1), width as int) by {
                        assert(idxs_us@[q] == before[q]);
                        assert(ups_upto(ds, q, idx0 as int + 1) == ups_upto(ds, q, idx0 as int));
                    }
                    assert forall|q: int| 0 <= q < n implies #[trigger] counter@[q] as int
                        == ups_upto(ds, q, idx0 as int + 1).len() by {
                        if q != idx_ds {
                            assert(ups_upto(ds, q, idx0 as int + 1) == ups_upto(
                                ds,
                                q,
                                idx0 as int,
                            ));
                        }
                    }
                }
            }
        } else {
            proof {
                assert forall|q: int| 0 <= q < n implies ups_upto(ds, q, idx0 as int + 1)
                    == ups_upto(ds, q, idx0 as int) by {}
            }
        }
        idx0 += 1;
    }
    idxs_us
}

/// The given cells are distinct pits.
pub open spec fn are_distinct_pits(ds: Seq<usize>, pits: Seq<usize>) -> bool {
    &&& pits.no_duplicates()
    &&& forall|k: int|
        0 <= k < pits.len() ==> #[trigger] pits[k] < ds.len() && ds[pits[k] as int] == pits[k]
}

/// `x` is one of the first `i` cells of `s`.
spec fn expanded(s: Seq<usize>, i: int, x: int) -> bool {
    exists|i2: int| 0 <= i2 < i && i2 < s.len() && s[i2] == x
}

proof fn lemma_on_path_grows(s: Seq<usize>, v: usize, x: int)
    requires
        on_path(s, x),
    ensures
        on_path(s.push(v), x),
{
    let q = choose|q: int| 0 <= q < s.len() && s[q] == x;
    assert(s.push(v)[q] == x);
}

/// `s` followed by as many cells of `u` as fit within `n` entries.
pub open spec fn append_capped(s: Seq<usize>, u: Seq<usize>, n: int) -> Seq<usize> {
    let room = n - s.len();
    if room <= 0 {
        s
    } else if u.len() <= room {
        s + u
    } else {
        s + u.subrange(0, room)
    }
}

/// The order that grows from `s` when its cells from position `i` on are
/// expanded in turn, each appending the cells that drain into it.
pub open spec fn order_from(ds: Seq<usize>, s: Seq<usize>, i: int) -> Seq<usize>
    decreases ds.len() - i,
{
    if i < 0 || i >= s.len() || i >= ds.len() {
        s
    } else {
        order_from(
            ds,
            append_capped(s, ups_upto(ds, s[i] as int, ds.len() as int), ds.len() as int),
            i + 1,
        )
    }
}

/// How many of the given pits start the order: all of them, or as many as there are cells.
pub open spec fn n_start(ds: Seq<usize>, pits: Seq<usize>) -> int {
    if pits.len() < ds.len() {
        pits.len() as int
    } else {
        ds.len() as int
    }
}

/// The order `s` built so far, with its first `i` cells expanded: it
/// starts with the pits, every later cell drains into an expanded cell
/// before it, and, from distinct pits, no cell comes twice and every cell
/// that drains into an expanded cell is in it.
spec fn order_sound(ds: Seq<usize>, pits: Seq<usize>, s: Seq<usize>, i: int) -> bool {
    let npre = n_start(ds, pits);
    let n = ds.len();
    &&& npre <= s.len()
    &&& 0 <= i <= s.len()
    &&& forall|q: int| 0 <= q < s.len() ==> #[trigger] s[q] < n
    &&& forall|q: int| 0 <= q < npre ==> #[trigger] s[q] == pits[q]
    &&& forall|q: int|
        npre <= q < s.len() ==> {
            &&& ds[#[trigger] s[q] as int] != s[q]
            &&& exists|i2: int| 0 <= i2 < i && i2 < q && s[i2] == ds[s[q] as int]
        }
    &&& are_distinct_pits(ds, pits) ==> s.no_duplicates()
    &&& are_distinct_pits(ds, pits) ==> forall|u: int|
        0 <= u < n && ds[u] != u && #[trigger] expanded(s, i, ds[u] as int) ==> on_path(s, u)
}

/// What `upstream_matrix` returns for `ds`.
spec fn is_upstream_table(ds: Seq<usize>, table: Seq<Vec<isize>>) -> bool {
    &&& table.len() == ds.len()
    &&& forall|t: int|
        0 <= t < ds.len() ==> (#[trigger] table[t])@ == padded_row(
            ups_upto(ds, t, ds.len() as int),
            table_width(ds),
        )
}

/// Appends to `seq` the cells that drain into `seq[i]`, in the order of
/// their row of the upstream table, as long as `seq` is shorter than the
/// number of cells.
fn append_upstream(
    idxs_ds: &[usize],
    idxs_pit: &[usize],
    idxs_us: &Vec<Vec<isize>>,
    seq: &mut Vec<usize>,
    i: usize,
)
    requires
        idxs_ds@.len() <= isize::MAX,
        fan_in_bounded(idxs_ds@, all_cells(idxs_ds@.len() as int)),
        forall|k: int| 0 <= k < idxs_pit@.len() ==> #[trigger] idxs_pit@[k] < idxs_ds@.len(),
        is_upstream_table(idxs_ds@, idxs_us@),
        order_sound(idxs_ds@, idxs_pit@, old(seq)@, i as int),
        i < old(seq)@.len() <= idxs_ds@.len(),
    ensures
        order_sound(idxs_ds@, idxs_pit@, final(seq)@, i + 1),
        final(seq)@ == append_capped(
            old(seq)@,
            ups_upto(idxs_ds@, old(seq)@[i as int] as int, idxs_ds@.len() as int),
            idxs_ds@.len() as int,
        ),
        final(seq)@.len() <= idxs_ds@.len(),
{
    let n = idxs_ds.len();
    let ghost ds = idxs_ds@;
    let ghost pits = idxs_pit@;
    let ghost ok = are_distinct_pits(ds, pits);
    let ghost npre = n_start(ds, pits);
    let ghost width = table_width(ds);
    let idx0 = seq[i];
    let ghost x = idx0 as int;
    let ghost ups = ups_upto(ds, x, n as int);
    let ghost j0 = seq@.len() as int;
    let ghost seq0 = seq@;
    proof {
        lemma_ups_upto(ds, x, n as int);
        lemma_up_counts_len(ds, all_cells(n as int), n as int);
        lemma_max_count(up_counts(ds, all_cells(n as int), n as int), n as int);
        assert(ups.len() <= width);
    }
    let mut k: usize = 0;
    while k < idxs_us[idx0].len() && idxs_us[idx0][k] != MV
        invariant
            n == ds.len() <= isize::MAX,
            ds == idxs_ds@,
            pits == idxs_pit@,
            ok == are_distinct_pits(ds, pits),
            npre == n_start(ds, pits),
            order_sound(ds, pits, seq0, i as int),
            i < j0 == seq0.len(),
            seq0[i as int] == x,
            idx0 == x,
            idxs_us@.len() == n,
            0 <= x < n,
            (idxs_us@[x])@ == padded_row(ups, width),
            ups == ups_upto(ds, x, n as int),
            ups.len() <= width,
            forall|kk: int|
                0 <= kk < ups.len() ==> {
                    let u = #[trigger] ups[kk];
                    &&& u < n
                    &&& ds[u as int] == x
                    &&& u != x
                },
            forall|a: int, b: int| 0 <= a < b < ups.len() ==> #[trigger] ups[a] < #[trigger] ups[b],
            k <= ups.len(),
            j0 <= seq@.len(),
            seq@.subrange(0, j0) == seq0,
            forall|q: int| 0 <= q < seq@.len() ==> #[trigger] seq@[q] < n,
            forall|q: int|
                j0 <= q < seq@.len() ==> ds[#[trigger] seq@[q] as int] == x && seq@[q] != x,
            ok ==> seq@.no_duplicates(),
            j0 <= n,
            seq@.len() == if k <= n - j0 {
                j0 + k
            } else {
                n as int
            },
            forall|kk: int| j0 <= kk < seq@.len() ==> #[trigger] seq@[kk] == ups[kk - j0],
            ok ==> seq@.len() == j0 + k,
            ok ==> forall|kk: int| 0 <= kk < k ==> #[trigger] seq@[j0 + kk] == ups[kk],
            ok ==> forall|u: int|
                0 <= u < n && ds[u] != u && #[trigger] expanded(seq0, i as int, ds[u] as int)
                    ==> on_path(seq@, u),
        decreases width - k,
    {
        let idx = idxs_us[idx0][k];
        let u = idx as usize;
        assert(u == ups[k as int]);
        let ghost before = seq@;
        proof {
            if ok {
                assert(!on_path(before, u as int)) by {
                    if on_path(before, u as int) {
                        let q = choose|q: int| 0 <= q < before.len() && before[q] == u;
                        assert(ds[u as int] == x);
                        if q < npre {
                            assert(before[q] == seq0[q]);
                            assert(seq0[q] == pits[q]);
                            assert(ds[pits[q] as int] == pits[q]);
                        } else if q < j0 {
                            assert(before[q] == seq0[q]);
                            let i2 = choose|i2: int|
                                0 <= i2 < i && i2 < q && seq0[i2] == ds[seq0[q] as int];
                            assert(seq0[i2] == seq0[i as int]);
                        } else {
                            assert(before[j0 + (q - j0)] == ups[q - j0]);
                            assert(ups[q - j0] < ups[k as int]);
                        }
                    }
                }
                assert(before.push(u).no_duplicates()) by {
                    assert forall|a: int, b: int|
                        0 <= a < before.len() + 1 && 0 <= b < before.len() + 1 && a
                            != b implies before.push(u)[a] != before.push(u)[b] by {
                        if a == before.len() {
                            assert(before.push(u)[b] == before[b]);
                        } else if b == before.len() {
                            assert(before.push(u)[a] == before[a]);
                        }
                    }
                }
                assert forall|q: int| 0 <= q < before.len() + 1 implies #[trigger] before.push(
                    u,
                )[q] < n by {}
                lemma_distinct_len(before.push(u), n as nat);
            }
        }
        if seq.len() < n {
            seq.push(u);
        }
        proof {
            assert(seq@.subrange(0, j0) =~= seq0) by {
                assert forall|q: int| 0 <= q < j0 implies seq@[q] == before[q] by {}
            }
            if ok {
                assert forall|u2: int|
                    0 <= u2 < n && ds[u2] != u2 && #[trigger] expanded(
                        seq0,
                        i as int,
                        ds[u2] as int,
                    ) implies on_path(seq@, u2) by {
                    lemma_on_path_grows(before, u, u2);
                }
            }
        }
        k += 1;
    }
    proof {
        assert(k == ups.len()) by {
            if k < ups.len() {
                assert((idxs_us@[x])@[k as int] == ups[k as int] as isize);
            }
        }
        assert(seq@ =~= append_capped(seq0, ups, n as int)) by {
            assert forall|q: int| 0 <= q < j0 implies seq@[q] == seq0[q] by {
                assert(seq@.subrange(0, j0)[q] == seq@[q]);
            }
        }
        if ok {
            assert forall|u: int|
                0 <= u < n && ds[u] != u && #[trigger] expanded(
                    seq@,
                    i as int + 1,
                    ds[u] as int,
                ) implies on_path(seq@, u) by {
                let i2 = choose|i2: int|
                    0 <= i2 < i + 1 && i2 < seq@.len() && seq@[i2] == ds[u] as int;
                assert(seq@[i2] == seq0[i2]);
                if i2 < i {
                    assert(expanded(seq0, i as int, ds[u] as int));
                } else {
                    let kk = choose|kk: int| 0 <= kk < ups.len() && #[trigger] ups[kk] == u;
                    assert(seq@[j0 + kk] == u);
                }
            }
        }
        assert forall|q: int| 0 <= q < npre implies #[trigger] seq@[q] == pits[q] by {
            assert(seq@[q] == seq0[q]);
        }
        assert forall|q: int| npre <= q < seq@.len() implies {
            &&& ds[#[trigger] seq@[q] as int] != seq@[q]
            &&& exists|i2: int| 0 <= i2 < i + 1 && i2 < q && seq@[i2] == ds[seq@[q] as int]
        } by {
            if q >= j0 {
                assert(seq@[i as int] == seq0[i as int]);
            } else {
                assert(seq@[q] == seq0[q]);
                let i2 = choose|i2: int| 0 <= i2 < i && i2 < q && seq0[i2] == ds[seq0[q] as int];
                assert(seq@[i2] == seq0[i2]);
            }
        }
    }
}

/// Cell `s[q]` drains into another cell, and that cell comes earlier in `s`.
pub open spec fn follows_its_target(ds: Seq<usize>, s: Seq<usize>, q: int) -> bool {
    &&& ds[s[q] as int] != s[q]
    &&& exists|p: int| 0 <= p < q && s[p] == ds[s[q] as int]
}

proof fn lemma_order_parents(ds: Seq<usize>, pits: Seq<usize>, s: Seq<usize>, i: int)
    requires
        order_sound(ds, pits, s, i),
    ensures
        forall|q: int| n_start(ds, pits) <= q < s.len() ==> #[trigger] follows_its_target(ds, s, q),
{
    assert forall|q: int| n_start(ds, pits) <= q < s.len() implies #[trigger] follows_its_target(
        ds,
        s,
        q,
    ) by {
        assert(ds[s[q] as int] != s[q]);
        let i2 = choose|i2: int| 0 <= i2 < i && i2 < q && s[i2] == ds[s[q] as int];
        assert(0 <= i2 < q && s[i2] == ds[s[q] as int]);
    }
}

/// Returns the cells in an order from downstream to upstream: the pits
/// given, then, for each cell of the order in turn, the cells that drain
/// into it, in increasing order. Every cell after the pits comes after the
/// cell it drains into. Starting from distinct pits, no cell comes twice
/// and every cell that drains into a cell of the order is in it.
pub fn idxs_seq(idxs_ds: &[usize], idxs_pit: &[usize]) -> (r: Vec<usize>)
    requires
        idxs_ds@.len() <= isize::MAX,
        fan_in_bounded(idxs_ds@, all_cells(idxs_ds@.len() as int)),
        forall|k: int| 0 <= k < idxs_pit@.len() ==> #[trigger] idxs_pit@[k] < idxs_ds@.len(),
    ensures
        forall|q: int| 0 <= q < r@.len() ==> #[trigger] r@[q] < idxs_ds@.len(),
        n_start(idxs_ds@, idxs_pit@) <= r@.len(),
        forall|q: int| 0 <= q < n_start(idxs_ds@, idxs_pit@) ==> #[trigger] r@[q] == idxs_pit@[q],
        forall|q: int|
            n_start(idxs_ds@, idxs_pit@) <= q < r@.len() ==> #[trigger] follows_its_target(
                idxs_ds@,
                r@,
                q,
            ),
        are_distinct_pits(idxs_ds@, idxs_pit@) ==> r@.no_duplicates(),
        are_distinct_pits(idxs_ds@, idxs_pit@) ==> forall|u: int|
            0 <= u < idxs_ds@.len() && idxs_ds@[u] != u && on_path(r@, idxs_ds@[u] as int)
                ==> on_path(r@, u),
        idxs_pit@ == pits_upto(idxs_ds@, idxs_ds@.len() as int) ==> is_pit_order(idxs_ds@, r@),
        r@ == order_from(
            idxs_ds@,
            append_capped(Seq::empty(), idxs_pit@, idxs_ds@.len() as int),
            0,
        ),
{
    let n = idxs_ds.len();
    let ghost ds = idxs_ds@;
    let ghost pits = idxs_pit@;
    let ghost ok = are_distinct_pits(ds, pits);
    let ghost start = append_capped(Seq::empty(), pits, n as int);
    let idxs_us = upstream_matrix(idxs_ds);
    let mut seq: Vec<usize> = Vec::new();
    let mut p: usize = 0;
    while p < idxs_pit.len()
        invariant
            n == ds.len(),
            pits == idxs_pit@,
            p <= pits.len(),
            seq@.len() == if p < n {
                p as int
            } else {
                n as int
            },
            forall|q: int| 0 <= q < seq@.len() ==> #[trigger] seq@[q] == pits[q],
        decreases pits.len() - p,
    {
        if seq.len() < n {
            seq.push(idxs_pit[p]);
        }
        p += 1;
    }
    proof {
        if ok {
            assert(seq@.no_duplicates()) by {
                assert forall|a: int, b: int|
                    0 <= a < seq@.len() && 0 <= b < seq@.len() && a != b implies seq@[a]
                    != seq@[b] by {
                    assert(seq@[a] == pits[a] && seq@[b] == pits[b]);
                }
            }
        }
        assert forall|q: int| 0 <= q < seq@.len() implies #[trigger] seq@[q] < n by {
            assert(seq@[q] == pits[q]);
        }
        assert(seq@ =~= start);
    }
    let mut i: usize = 0;
    while i < seq.len() && i < n
        invariant
            n == ds.len() <= isize::MAX,
            ds == idxs_ds@,
            pits == idxs_pit@,
            ok == are_distinct_pits(ds, pits),
            fan_in_bounded(ds, all_cells(n as int)),
            forall|k: int| 0 <= k < pits.len() ==> #[trigger] pits[k] < n,
            is_upstream_table(ds, idxs_us@),
            order_sound(ds, pits, seq@, i as int),
            seq@.len() <= n,
            order_from(ds, seq@, i as int) == order_from(ds, start, 0),
        decreases n - i,
    {
        append_upstream(idxs_ds, idxs_pit, &idxs_us, &mut seq, i);
        i += 1;
    }
    proof {
        lemma_order_parents(ds, pits, seq@, i as int);
        lemma_pit_list_distinct(ds);
        if ok {
            lemma_distinct_len(seq@, n as nat);
            assert forall|u: int|
                0 <= u < n && ds[u] != u && on_path(seq@, ds[u] as int) implies on_path(seq@, u) by {
                let q = choose|q: int| 0 <= q < seq@.len() && seq@[q] == ds[u] as int;
                assert(expanded(seq@, i as int, ds[u] as int));
            }
        }
    }
    seq
}

/// The downstream indices as the signed integers that `rank` reads.
pub open spec fn as_i32(ds: Seq<usize>) -> Seq<i32> {
    ds.map_values(|v: usize| v as i32)
}

/// What `idxs_seq` returns when it starts from the pit list: the pits,
/// then cells each after the cell it drains into, none twice, and every
/// cell that drains into a cell of the order in it.
pub open spec fn is_pit_order(ds: Seq<usize>, r: Seq<usize>) -> bool {
    let pits = pits_upto(ds, ds.len() as int);
    &&& forall|q: int| 0 <= q < r.len() ==> #[trigger] r[q] < ds.len()
    &&& n_start(ds, pits) <= r.len()
    &&& forall|q: int| 0 <= q < n_start(ds, pits) ==> #[trigger] r[q] == pits[q]
    &&& forall|q: int|
        n_start(ds, pits) <= q < r.len() ==> #[trigger] follows_its_target(ds, r, q)
    &&& r.no_duplicates()
    &&& forall|u: int|
        0 <= u < ds.len() && ds[u] != u && on_path(r, ds[u] as int) ==> on_path(r, u)
}

pub(crate) proof fn lemma_pit_list_distinct(ds: Seq<usize>)
    ensures
        are_distinct_pits(ds, pits_upto(ds, ds.len() as int)),
        pits_upto(ds, ds.len() as int).len() <= ds.len(),
{
    let pits = pits_upto(ds, ds.len() as int);
    lemma_pits_upto(ds, ds.len() as int);
    assert(pits.no_duplicates()) by {
        assert forall|a: int, b: int|
            0 <= a < pits.len() && 0 <= b < pits.len() && a != b implies pits[a] != pits[b] by {
            if a < b {
                assert(pits[a] < pits[b]);
            } else {
                assert(pits[b] < pits[a]);
            }
        }
    }
    lemma_distinct_len(pits, ds.len());
}

proof fn lemma_order_cell_drains(ds: Seq<usize>, r: Seq<usize>, q: int)
    requires
        ds.len() <= i32::MAX,
        forall|j: int| 0 <= j < ds.len() ==> #[trigger] ds[j] < ds.len(),
        is_pit_order(ds, r),
        0 <= q < r.len(),
    ensures
        drains(as_i32(ds), r[q] as int),
    decreases q,
{
    let d = as_i32(ds);
    let pits = pits_upto(ds, ds.len() as int);
    lemma_pit_list_distinct(ds);
    let x = r[q] as int;
    if q < n_start(ds, pits) {
        assert(r[q] == pits[q]);
        assert(ds[pits[q] as int] == pits[q]);
        assert(d[x] == ds[x] as i32);
        assert(walk(d, x, 0) == x);
        assert(is_pit(d, walk(d, x, 0)));
    } else {
        assert(follows_its_target(ds, r, q));
        let p = choose|p: int| 0 <= p < q && r[p] == ds[r[q] as int];
        lemma_order_cell_drains(ds, r, p);
        let k = choose|k: nat| is_pit(d, #[trigger] walk(d, r[p] as int, k));
        lemma_walk_shift(d, x, k);
        assert(d[x] == ds[x] as i32);
        assert(next(d, x) == r[p]);
        assert(is_pit(d, walk(d, x, k + 1)));
    }
}

proof fn lemma_draining_cell_in_order(ds: Seq<usize>, r: Seq<usize>, x: int, k: nat)
    requires
        ds.len() <= i32::MAX,
        forall|j: int| 0 <= j < ds.len() ==> #[trigger] ds[j] < ds.len(),
        is_pit_order(ds, r),
        0 <= x < ds.len(),
        is_pit(as_i32(ds), walk(as_i32(ds), x, k)),
    ensures
        on_path(r, x),
    decreases k,
{
    let d = as_i32(ds);
    let pits = pits_upto(ds, ds.len() as int);
    lemma_pit_list_distinct(ds);
    assert(d[x] == ds[x] as i32);
    if ds[x] == x {
        lemma_pits_are_self_loops(ds);
        let j = choose|j: int| 0 <= j < pits.len() && #[trigger] pits[j] == x;
        assert(r[j] == x);
    } else {
        assert(k > 0) by {
            if k == 0 {
                assert(walk(d, x, 0) == x);
            }
        }
        lemma_walk_shift(d, x, (k - 1) as nat);
        let t = next(d, x);
        assert(t == ds[x]);
        if !in_range(d, t) {
            lemma_out_of_range_not_drains(d, t);
            assert(is_pit(d, walk(d, t, (k - 1) as nat)));
        }
        lemma_draining_cell_in_order(ds, r, t, (k - 1) as nat);
    }
}

/// The order that `idxs_seq` builds from the pit list holds exactly the
/// cells that drain into a pit.
pub proof fn lemma_order_is_draining_cells(ds: Seq<usize>, r: Seq<usize>)
    requires
        ds.len() <= i32::MAX,
        forall|j: int| 0 <= j < ds.len() ==> #[trigger] ds[j] < ds.len(),
        is_pit_order(ds, r),
    ensures
        forall|x: int| 0 <= x < ds.len() ==> (on_path(r, x) <==> drains(as_i32(ds), x)),
{
    assert forall|x: int| 0 <= x < ds.len() implies (on_path(r, x) <==> drains(as_i32(ds), x)) by {
        if on_path(r, x) {
            let q = choose|q: int| 0 <= q < r.len() && r[q] == x;
            lemma_order_cell_drains(ds, r, q);
        }
        if drains(as_i32(ds), x) {
            let k = choose|k: nat| is_pit(as_i32(ds), #[trigger] walk(as_i32(ds), x, k));
            lemma_draining_cell_in_order(ds, r, x, k);
        }
    }
}

proof fn lemma_count_matches(ranks: Seq<i32>, r: Seq<usize>)
    requires
        r.no_duplicates(),
        forall|q: int| 0 <= q < r.len() ==> #[trigger] r[q] < ranks.len(),
        forall|x: int| 0 <= x < ranks.len() ==> (on_path(r, x) <==> #[trigger] ranks[x] >= 0),
    ensures
        r.len() == count_resolved(ranks),
    decreases ranks.len(),
{
    if ranks.len() == 0 {
        if r.len() > 0 {
            assert(r[0] < 0);
        }
    } else {
        let m = ranks.len() - 1;
        let front = ranks.drop_last();
        if ranks[m] >= 0 {
            let j = choose|j: int| 0 <= j < r.len() && r[j] == m;
            let r2 = r.subrange(0, j) + r.subrange(j + 1, r.len() as int);
            assert forall|q: int| 0 <= q < r2.len() implies #[trigger] r2[q] < front.len() by {
                if q < j {
                    assert(r2[q] == r[q]);
                    assert(r[q] != r[j]);
                } else {
                    assert(r2[q] == r[q + 1]);
                    assert(r[q + 1] != r[j]);
                }
            }
            assert(r2.no_duplicates()) by {
                assert forall|a: int, b: int|
                    0 <= a < r2.len() && 0 <= b < r2.len() && a != b implies r2[a] != r2[b] by {
                    let a1 = if a < j {
                        a
                    } else {
                        a + 1
                    };
                    let b1 = if b < j {
                        b
                    } else {
                        b + 1
                    };
                    assert(r2[a] == r[a1] && r2[b] == r[b1]);
                }
            }
            assert forall|x: int| 0 <= x < front.len() implies (on_path(r2, x) <==> #[trigger] front[x]
                >= 0) by {
                assert(front[x] == ranks[x]);
                if on_path(r, x) {
                    let q = choose|q: int| 0 <= q < r.len() && r[q] == x;
                    assert(q != j);
                    if q < j {
                        assert(r2[q] == x);
                    } else {
                        assert(r2[q - 1] == x);
                    }
                }
                if on_path(r2, x) {
                    let q = choose|q: int| 0 <= q < r2.len() && r2[q] == x;
                    if q < j {
                        assert(r[q] == x);
                    } else {
                        assert(r[q + 1] == x);
                    }
                }
            }
            lemma_count_matches(front, r2);
        } else {
            assert forall|q: int| 0 <= q < r.len() implies #[trigger] r[q] < front.len() by {
                if r[q] == m {
                    assert(on_path(r, m));
                }
            }
            assert forall|x: int| 0 <= x < front.len() implies (on_path(r, x) <==> #[trigger] front[x]
                >= 0) by {
                assert(front[x] == ranks[x]);
            }
            lemma_count_matches(front, r);
        }
    }
}

/// The order built from the pit list has one entry for each cell with a
/// rank of zero or more.
pub proof fn lemma_order_len_is_resolved_count(ds: Seq<usize>, r: Seq<usize>, ranks: Seq<i32>)
    requires
        ds.len() <= i32::MAX,
        forall|j: int| 0 <= j < ds.len() ==> #[trigger] ds[j] < ds.len(),
        is_pit_order(ds, r),
        ranks.len() == ds.len(),
        forall|x: int| 0 <= x < ranks.len() ==> rank_is_correct(as_i32(ds), x, #[trigger] ranks[x]),
    ensures
        r.len() == count_resolved(ranks),
{
    lemma_order_is_draining_cells(ds, r);
    assert forall|x: int| 0 <= x < ranks.len() implies (on_path(r, x) <==> #[trigger] ranks[x]
        >= 0) by {
        assert(rank_is_correct(as_i32(ds), x, ranks[x]));
    }
    lemma_count_matches(ranks, r);
}

} // verus!
