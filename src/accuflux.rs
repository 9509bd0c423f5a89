//! Flow accumulation with unit weights: the number of cells upstream of
//! each cell, the cell itself included.

use vstd::prelude::*;
use crate::network::{
    all_cells, as_i32, fan_in_bounded, follows_its_target, idxs_seq, is_pit_order,
    lemma_order_is_draining_cells, n_start, pit_indices, pits_upto,
};
use crate::rank::{drains, is_pit, on_path, walk};

verus! {

/// Sum of `acc[u]` over the cells `u < m` that drain into `y` from elsewhere.
pub open spec fn inflow(ds: Seq<usize>, acc: Seq<usize>, y: int, m: int) -> int
    decreases m,
{
    if m <= 0 {
        0
    } else {
        inflow(ds, acc, y, m - 1) + if ds[m - 1] == y && m - 1 != y {
            acc[m - 1] as int
        } else {
            0
        }
    }
}

/// Like `inflow`, counting only the cells marked done.
spec fn inflow_done(ds: Seq<usize>, acc: Seq<usize>, done: Seq<bool>, y: int, m: int) -> int
    decreases m,
{
    if m <= 0 {
        0
    } else {
        inflow_done(ds, acc, done, y, m - 1) + if ds[m - 1] == y && m - 1 != y && done[m - 1] {
            acc[m - 1] as int
        } else {
            0
        }
    }
}

/// Sum of `acc[y]` over the cells `y < m` not marked done.
spec fn mass(acc: Seq<usize>, done: Seq<bool>, m: int) -> int
    decreases m,
{
    if m <= 0 {
        0
    } else {
        mass(acc, done, m - 1) + if !done[m - 1] {
            acc[m - 1] as int
        } else {
            0
        }
    }
}

proof fn lemma_inflow_acc_update(
    ds: Seq<usize>,
    acc: Seq<usize>,
    done: Seq<bool>,
    y: int,
    m: int,
    t: int,
    v: usize,
)
    requires
        0 <= t < acc.len(),
        m <= acc.len(),
        m <= done.len(),
        !done[t],
    ensures
        inflow_done(ds, acc.update(t, v), done, y, m) == inflow_done(ds, acc, done, y, m),
    decreases m,
{
    if m > 0 {
        lemma_inflow_acc_update(ds, acc, done, y, m - 1, t, v);
    }
}

proof fn lemma_inflow_mark_done(
    ds: Seq<usize>,
    acc: Seq<usize>,
    done: Seq<bool>,
    y: int,
    m: int,
    x: int,
)
    requires
        0 <= x < done.len(),
        m <= acc.len(),
        m <= done.len(),
        !done[x],
    ensures
        inflow_done(ds, acc, done.update(x, true), y, m) == inflow_done(ds, acc, done, y, m) + if x
            < m && ds[x] == y && x != y {
            acc[x] as int
        } else {
            0
        },
    decreases m,
{
    if m > 0 {
        lemma_inflow_mark_done(ds, acc, done, y, m - 1, x);
    }
}

proof fn lemma_inflow_all_done(ds: Seq<usize>, acc: Seq<usize>, done: Seq<bool>, y: int, m: int)
    requires
        forall|u: int| 0 <= u < m && ds[u] == y && u != y ==> #[trigger] done[u],
    ensures
        inflow_done(ds, acc, done, y, m) == inflow(ds, acc, y, m),
    decreases m,
{
    if m > 0 {
        lemma_inflow_all_done(ds, acc, done, y, m - 1);
    }
}

proof fn lemma_inflow_none_done(ds: Seq<usize>, acc: Seq<usize>, done: Seq<bool>, y: int, m: int)
    requires
        forall|u: int| 0 <= u < m && ds[u] == y && u != y ==> !#[trigger] done[u],
    ensures
        inflow_done(ds, acc, done, y, m) == 0,
    decreases m,
{
    if m > 0 {
        lemma_inflow_none_done(ds, acc, done, y, m - 1);
    }
}

proof fn lemma_mass_acc_update(acc: Seq<usize>, done: Seq<bool>, m: int, t: int, v: usize)
    requires
        0 <= t < acc.len(),
        m <= acc.len(),
        m <= done.len(),
        !done[t],
    ensures
        mass(acc.update(t, v), done, m) == mass(acc, done, m) + if t < m {
            v - acc[t]
        } else {
            0
        },
    decreases m,
{
    if m > 0 {
        lemma_mass_acc_update(acc, done, m - 1, t, v);
    }
}

proof fn lemma_mass_mark_done(acc: Seq<usize>, done: Seq<bool>, m: int, x: int)
    requires
        0 <= x < done.len(),
        m <= acc.len(),
        m <= done.len(),
        !done[x],
    ensures
        mass(acc, done.update(x, true), m) == mass(acc, done, m) - if x < m {
            acc[x] as int
        } else {
            0
        },
    decreases m,
{
    if m > 0 {
        lemma_mass_mark_done(acc, done, m - 1, x);
    }
}

proof fn lemma_mass_bounds(acc: Seq<usize>, done: Seq<bool>, m: int, a: int, b: int)
    requires
        0 <= a < m,
        0 <= b < m,
        !done[a],
        !done[b],
    ensures
        a != b ==> acc[a] + acc[b] <= mass(acc, done, m),
        acc[a] <= mass(acc, done, m),
    decreases m,
{
    lemma_mass_nonneg(acc, done, m - 1);
    if a < m - 1 && b < m - 1 {
        lemma_mass_bounds(acc, done, m - 1, a, b);
    } else if a < m - 1 {
        lemma_mass_bounds(acc, done, m - 1, a, a);
    } else if b < m - 1 {
        lemma_mass_bounds(acc, done, m - 1, b, b);
    }
}

proof fn lemma_mass_nonneg(acc: Seq<usize>, done: Seq<bool>, m: int)
    ensures
        mass(acc, done, m) >= 0,
    decreases m,
{
    if m > 0 {
        lemma_mass_nonneg(acc, done, m - 1);
    }
}

proof fn lemma_start(ds: Seq<usize>, acc: Seq<usize>, done: Seq<bool>, m: int)
    requires
        0 <= m <= acc.len() == done.len(),
        forall|i: int| 0 <= i < acc.len() ==> #[trigger] acc[i] == 1,
        forall|i: int| 0 <= i < done.len() ==> !#[trigger] done[i],
    ensures
        mass(acc, done, m) == m,
        forall|y: int| #[trigger] inflow_done(ds, acc, done, y, m) == 0,
    decreases m,
{
    if m > 0 {
        lemma_start(ds, acc, done, m - 1);
        assert forall|y: int| #[trigger] inflow_done(ds, acc, done, y, m) == 0 by {
            assert(inflow_done(ds, acc, done, y, m - 1) == 0);
        }
    }
}

/// `x` is one of the cells `s[lo..]`.
spec fn in_tail(s: Seq<usize>, lo: int, x: int) -> bool {
    exists|i: int| lo <= i < s.len() && s[i] == x
}

/// Returns, for every cell, the number of cells upstream of it, the cell
/// itself included: flow accumulation with a weight of one per cell,
/// propagated from the upstream end of the downstream-to-upstream order.
/// A cell that drains into a pit gets one more than the sum over the cells
/// draining into it; a cell that does not (one on a cycle, or whose chain
/// leaves the range) keeps one.
pub fn accuflux_count(idxs_ds: &[usize]) -> (r: Vec<usize>)
    requires
        idxs_ds@.len() <= i32::MAX,
        forall|j: int| 0 <= j < idxs_ds@.len() ==> #[trigger] idxs_ds@[j] < idxs_ds@.len(),
        fan_in_bounded(idxs_ds@, all_cells(idxs_ds@.len() as int)),
    ensures
        r@.len() == idxs_ds@.len(),
        forall|x: int|
            0 <= x < r@.len() && drains(as_i32(idxs_ds@), x) ==> #[trigger] r@[x] == 1 + inflow(
                idxs_ds@,
                r@,
                x,
                r@.len() as int,
            ),
        forall|x: int|
            0 <= x < r@.len() && !drains(as_i32(idxs_ds@), x) ==> #[trigger] r@[x] == 1,
{
    let n = idxs_ds.len();
    let ghost ds = idxs_ds@;
    let pits = pit_indices(idxs_ds);
    proof {
        crate::network::lemma_pit_list_distinct(ds);
    }
    let order = idxs_seq(idxs_ds, &pits);
    let ghost s = order@;
    let mut acc: Vec<usize> = vec![1usize; n];
    let ghost mut done: Seq<bool> = Seq::new(n as nat, |i: int| false);
    proof {
        lemma_start(ds, acc@, done, n as int);
    }
    let mut q: usize = order.len();
    while q > 0
        invariant
            n == ds.len() <= i32::MAX,
            ds == idxs_ds@,
            s == order@,
            is_pit_order(ds, s),
            q <= s.len(),
            acc@.len() == n,
            done.len() == n,
            forall|x: int| 0 <= x < n ==> (#[trigger] done[x] <==> in_tail(s, q as int, x)),
            forall|y: int|
                0 <= y < n ==> #[trigger] acc@[y] == 1 + inflow_done(ds, acc@, done, y, n as int),
            forall|y: int| 0 <= y < n ==> #[trigger] acc@[y] <= n,
            mass(acc@, done, n as int) <= n,
        decreases q,
    {
        q -= 1;
        let x = order[q];
        let t = idxs_ds[x];
        let ghost acc0 = acc@;
        let ghost done0 = done;
        proof {
            assert(!done0[x as int]) by {
                if in_tail(s, q + 1, x as int) {
                    let i = choose|i: int| q + 1 <= i < s.len() && s[i] == x;
                    assert(s[i] == s[q as int]);
                }
            }
        }
        if t != x {
            proof {
                let pits_s = pits_upto(ds, n as int);
                if q < n_start(ds, pits_s) {
                    crate::network::lemma_pits_are_self_loops(ds);
                    assert(s[q as int] == pits_s[q as int]);
                    assert(ds[pits_s[q as int] as int] == pits_s[q as int]);
                }
                assert(follows_its_target(ds, s, q as int));
                let p = choose|p: int| 0 <= p < q && s[p] == ds[s[q as int] as int];
                assert(!done0[t as int]) by {
                    if in_tail(s, q + 1, t as int) {
                        let i = choose|i: int| q + 1 <= i < s.len() && s[i] == t;
                        assert(s[i] == s[p]);
                    }
                }
                lemma_mass_bounds(acc0, done0, n as int, t as int, x as int);
            }
            acc.set(t, acc[t] + acc[x]);
            proof {
                done = done0.update(x as int, true);
                lemma_mass_acc_update(acc0, done0, n as int, t as int, (acc0[t as int] + acc0[x as int]) as usize);
                lemma_mass_mark_done(acc@, done0, n as int, x as int);
                assert forall|y: int| 0 <= y < n implies #[trigger] acc@[y] == 1 + inflow_done(
                    ds,
                    acc@,
                    done,
                    y,
                    n as int,
                ) by {
                    lemma_inflow_acc_update(ds, acc0, done0, y, n as int, t as int, acc@[t as int]);
                    lemma_inflow_acc_update(ds, acc0, done, y, n as int, t as int, acc@[t as int]);
                    lemma_inflow_mark_done(ds, acc0, done0, y, n as int, x as int);
                    assert(acc@ == acc0.update(t as int, acc@[t as int]));
                }
            }
        } else {
            proof {
                done = done0.update(x as int, true);
                lemma_mass_mark_done(acc@, done0, n as int, x as int);
                lemma_mass_nonneg(acc@, done0, n as int);
                lemma_mass_bounds(acc0, done0, n as int, x as int, x as int);
                assert forall|y: int| 0 <= y < n implies #[trigger] acc@[y] == 1 + inflow_done(
                    ds,
                    acc@,
                    done,
                    y,
                    n as int,
                ) by {
                    lemma_inflow_mark_done(ds, acc0, done0, y, n as int, x as int);
                }
            }
        }
        proof {
            assert forall|y: int| 0 <= y < n implies (#[trigger] done[y] <==> in_tail(
                s,
                q as int,
                y,
            )) by {
                if in_tail(s, q as int, y) && y != x {
                    let i = choose|i: int| q <= i < s.len() && s[i] == y;
                    assert(i != q);
                    assert(in_tail(s, q + 1, y));
                }
                if in_tail(s, q + 1, y) {
                    let i = choose|i: int| q + 1 <= i < s.len() && s[i] == y;
                    assert(in_tail(s, q as int, y));
                }
                if y == x {
                    assert(s[q as int] == y);
                }
            }
        }
    }
    proof {
        lemma_order_is_draining_cells(ds, s);
        assert forall|x: int| 0 <= x < n implies (#[trigger] done[x] <==> on_path(s, x)) by {
            if on_path(s, x) {
                let i = choose|i: int| 0 <= i < s.len() && s[i] == x;
                assert(in_tail(s, 0, x));
            }
        }
        assert forall|x: int| 0 <= x < n && drains(as_i32(ds), x) implies #[trigger] acc@[x]
            == 1 + inflow(ds, acc@, x, n as int) by {
            assert forall|u: int| 0 <= u < n && ds[u] == x && u != x implies #[trigger] done[u] by {
                assert(on_path(s, x));
            }
            lemma_inflow_all_done(ds, acc@, done, x, n as int);
        }
        assert forall|x: int| 0 <= x < n && !drains(as_i32(ds), x) implies #[trigger] acc@[x]
            == 1 by {
            assert forall|u: int| 0 <= u < n && ds[u] == x && u != x implies !#[trigger] done[u] by {
                if done[u] {
                    let i = choose|i: int| 0 <= i < s.len() && s[i] == u;
                    let pits_s = pits_upto(ds, n as int);
                    if i < n_start(ds, pits_s) {
                        crate::network::lemma_pits_are_self_loops(ds);
                        assert(s[i] == pits_s[i]);
                        assert(ds[pits_s[i] as int] == pits_s[i]);
                    } else {
                        assert(follows_its_target(ds, s, i));
                        let p = choose|p: int| 0 <= p < i && s[p] == ds[s[i] as int];
                        assert(on_path(s, x));
                    }
                }
            }
            lemma_inflow_none_done(ds, acc@, done, x, n as int);
        }
    }
    acc
}

/// With a weight of one per cell, a cell that no cell drains into gets
/// one, and a pit gets one more than the sum over the cells draining into it.
pub proof fn lemma_unit_accumulation(ds: Seq<usize>, acc: Seq<usize>)
    requires
        acc.len() == ds.len(),
        forall|x: int|
            0 <= x < acc.len() && drains(as_i32(ds), x) ==> #[trigger] acc[x] == 1 + inflow(
                ds,
                acc,
                x,
                acc.len() as int,
            ),
        forall|x: int| 0 <= x < acc.len() && !drains(as_i32(ds), x) ==> #[trigger] acc[x] == 1,
    ensures
        forall|x: int|
            0 <= x < ds.len() && (forall|u: int| 0 <= u < ds.len() ==> !(#[trigger] ds[u] == x && u != x))
                ==> #[trigger] acc[x] == 1,
        forall|p: int|
            0 <= p < ds.len() && is_pit(as_i32(ds), p) ==> #[trigger] acc[p] == 1 + inflow(
                ds,
                acc,
                p,
                ds.len() as int,
            ),
{
    assert forall|x: int|
        0 <= x < ds.len() && (forall|u: int| 0 <= u < ds.len() ==> !(#[trigger] ds[u] == x && u != x))
            implies #[trigger] acc[x] == 1 by {
        lemma_inflow_zero(ds, acc, x, ds.len() as int);
    }
    assert forall|p: int| 0 <= p < ds.len() && is_pit(as_i32(ds), p) implies #[trigger] acc[p] == 1
        + inflow(ds, acc, p, ds.len() as int) by {
        assert(walk(as_i32(ds), p, 0) == p);
    }
}

proof fn lemma_inflow_zero(ds: Seq<usize>, acc: Seq<usize>, y: int, m: int)
    requires
        m <= ds.len(),
        forall|u: int| 0 <= u < ds.len() ==> !(#[trigger] ds[u] == y && u != y),
    ensures
        inflow(ds, acc, y, m) == 0,
    decreases m,
{
    if m > 0 {
        lemma_inflow_zero(ds, acc, y, m - 1);
    }
}

} // verus!
