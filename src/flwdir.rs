//! The raster: a grid of D8 flow directions with the arrays derived from it.

use vstd::prelude::*;
use crate::accuflux::{accuflux_count, inflow};
use crate::d8::{
    cell_is_valid, code_dc, code_dr, code_of_step, d8_from_array, d8_to_array, downstream_of,
    is_direction, lemma_direction_step, lemma_downstream_in_grid, target_in_grid, D8_PIT,
};
use crate::network::{
    all_cells, as_i32, fan_in_bounded, idxs_seq, is_grid_graph, is_pit_order,
    lemma_grid_fan_in_bounded, pit_indices, pits_upto, up_counts, upstream_count,
};
use crate::rank::{count_resolved, drains, rank, rank_is_correct};

verus! {

/// Flow direction type.
#[derive(Debug, Clone, Copy, PartialEq, Eq, Structural)]
pub enum FlowType {
    D8,
}

/// A grid of flow directions and what is derived from it: the downstream
/// index of every cell, which cells are valid, the pits and the upstream
/// counts; the ranks are computed on first request and kept.
#[derive(Debug)]
pub struct FlwdirRaster {
    /// Downstream index of every cell, in row-major order.
    pub idxs_ds: Vec<usize>,
    /// Number of rows and columns of the grid.
    pub shape: (usize, usize),
    /// Kind of flow directions.
    pub ftype: FlowType,
    /// Which cells hold a pit or a direction into the grid.
    pub valid_mask: Vec<bool>,
    /// The cells that drain into themselves, in increasing order.
    pub pit_indices: Vec<usize>,
    /// Number of valid cells that drain into each cell.
    pub upstream_counts: Vec<i8>,
    /// The ranks, once they have been computed.
    pub rank_cache: Option<Vec<i32>>,
}

/// The indices among the first `n` where `mask` holds, in increasing order.
pub open spec fn marked_upto(mask: Seq<bool>, n: int) -> Seq<usize>
    decreases n,
{
    if n <= 0 {
        Seq::empty()
    } else {
        let prev = marked_upto(mask, n - 1);
        if mask[n - 1] {
            prev.push((n - 1) as usize)
        } else {
            prev
        }
    }
}

/// Number of the first `m` cells that drain into a pit.
pub open spec fn count_draining(d: Seq<i32>, m: int) -> nat
    decreases m,
{
    if m <= 0 {
        0
    } else {
        count_draining(d, m - 1) + if drains(d, m - 1) {
            1nat
        } else {
            0nat
        }
    }
}

proof fn lemma_count_draining(d: Seq<i32>, ranks: Seq<i32>, m: int)
    requires
        ranks.len() == d.len(),
        0 <= m <= ranks.len(),
        forall|x: int| 0 <= x < ranks.len() ==> rank_is_correct(d, x, #[trigger] ranks[x]),
    ensures
        count_resolved(ranks.subrange(0, m)) == count_draining(d, m),
    decreases m,
{
    if m > 0 {
        lemma_count_draining(d, ranks, m - 1);
        assert(ranks.subrange(0, m).drop_last() =~= ranks.subrange(0, m - 1));
        assert(rank_is_correct(d, m - 1, ranks[m - 1]));
    }
}

proof fn lemma_grid_graph(d8: Seq<u8>, ds: Seq<usize>, nrows: nat, ncols: nat)
    requires
        d8.len() == ds.len() == nrows * ncols,
        forall|i: int|
            0 <= i < ds.len() ==> #[trigger] ds[i] as int == downstream_of(
                d8[i],
                i,
                nrows as int,
                ncols as int,
            ),
    ensures
        is_grid_graph(ds, ncols as int),
        forall|i: int| 0 <= i < ds.len() ==> #[trigger] ds[i] < ds.len(),
        forall|i: int|
            0 <= i < ds.len() ==> (#[trigger] cell_is_valid(d8[i], i, nrows as int, ncols as int)
                <==> (ds[i] != i || d8[i] == D8_PIT)),
{
    assert forall|i: int| 0 <= i < ds.len() implies {
        &&& (#[trigger] ds[i] == i || crate::network::is_neighbour_step(ds[i] - i, ncols as int))
        &&& ds[i] < ds.len()
        &&& (cell_is_valid(d8[i], i, nrows as int, ncols as int) <==> (ds[i] != i || d8[i]
            == D8_PIT))
    } by {
        lemma_downstream_in_grid(d8[i], i, nrows, ncols);
        if is_direction(d8[i]) && target_in_grid(d8[i], i, nrows as int, ncols as int) {
            lemma_direction_step(d8[i], i, nrows, ncols);
            let dr = code_dr(d8[i]);
            let dc = code_dc(d8[i]);
            assert(dr == -1 || dr == 0 || dr == 1);
            if dr == -1 {
                assert(dr * ncols == -ncols) by (nonlinear_arith)
                    requires
                        dr == -1,
                ;
            } else if dr == 0 {
                assert(dr * ncols == 0) by (nonlinear_arith)
                    requires
                        dr == 0,
                ;
            } else {
                assert(dr * ncols == ncols) by (nonlinear_arith)
                    requires
                        dr == 1,
                ;
            }
        }
    }
}

impl FlwdirRaster {
    /// The arrays agree with one another and with the shape.
    pub open spec fn wf(&self) -> bool {
        let n = self.idxs_ds@.len();
        &&& n == self.shape.0 * self.shape.1
        &&& n <= i32::MAX
        &&& forall|i: int| 0 <= i < n ==> #[trigger] self.idxs_ds@[i] < n
        &&& is_grid_graph(self.idxs_ds@, self.shape.1 as int)
        &&& self.valid_mask@.len() == n
        &&& self.pit_indices@ == pits_upto(self.idxs_ds@, n as int)
        &&& self.upstream_counts@.len() == n
        &&& forall|t: int|
            0 <= t < n ==> #[trigger] self.upstream_counts@[t] as int == up_counts(
                self.idxs_ds@,
                self.valid_mask@,
                n as int,
            )[t]
        &&& self.rank_cache matches Some(r) ==> self.ranks_correct(r@)
    }

    /// `ranks` gives every cell its correct rank.
    pub open spec fn ranks_correct(&self, ranks: Seq<i32>) -> bool {
        &&& ranks.len() == self.idxs_ds@.len()
        &&& forall|x: int|
            0 <= x < ranks.len() ==> rank_is_correct(as_i32(self.idxs_ds@), x, #[trigger] ranks[x])
    }

    /// Create a raster from a row-major grid of D8 codes with `shape.0`
    /// rows and `shape.1` columns.
    pub fn from_array(d8: &[u8], shape: (usize, usize)) -> (r: Self)
        requires
            d8@.len() == shape.0 * shape.1,
            d8@.len() <= i32::MAX,
        ensures
            r.wf(),
            r.shape == shape,
            r.ftype == FlowType::D8,
            r.rank_cache is None,
            forall|i: int|
                0 <= i < d8@.len() ==> #[trigger] r.idxs_ds@[i] as int == downstream_of(
                    d8@[i],
                    i,
                    shape.0 as int,
                    shape.1 as int,
                ),
            r.valid_mask@.len() == d8@.len(),
            forall|i: int|
                0 <= i < d8@.len() ==> #[trigger] r.valid_mask@[i] == cell_is_valid(
                    d8@[i],
                    i,
                    shape.0 as int,
                    shape.1 as int,
                ),
    {
        let size = d8.len();
        let idxs_ds = d8_from_array(d8, shape);
        proof {
            lemma_grid_graph(d8@, idxs_ds@, shape.0 as nat, shape.1 as nat);
        }
        let mut valid_mask: Vec<bool> = Vec::with_capacity(size);
        let mut idx: usize = 0;
        while idx < size
            invariant
                size == d8@.len() == idxs_ds@.len(),
                idx <= size,
                valid_mask@.len() == idx,
                forall|i: int|
                    0 <= i < size ==> (#[trigger] cell_is_valid(
                        d8@[i],
                        i,
                        shape.0 as int,
                        shape.1 as int,
                    ) <==> (idxs_ds@[i] != i || d8@[i] == D8_PIT)),
                forall|i: int|
                    0 <= i < idx ==> #[trigger] valid_mask@[i] == cell_is_valid(
                        d8@[i],
                        i,
                        shape.0 as int,
                        shape.1 as int,
                    ),
            decreases size - idx,
        {
            valid_mask.push(idxs_ds[idx] != idx || d8[idx] == D8_PIT);
            idx += 1;
        }
        let pits = pit_indices(&idxs_ds);
        proof {
            lemma_grid_fan_in_bounded(idxs_ds@, valid_mask@, shape.1 as int);
        }
        let upstream_counts = upstream_count(&idxs_ds, Some(valid_mask.as_slice()));
        FlwdirRaster {
            idxs_ds,
            shape,
            ftype: FlowType::D8,
            valid_mask,
            pit_indices: pits,
            upstream_counts,
            rank_cache: None,
        }
    }

    /// Number of cells.
    pub fn size(&self) -> (r: usize)
        requires
            self.wf(),
        ensures
            r == self.shape.0 * self.shape.1,
    {
        self.idxs_ds.len()
    }

    /// Get downstream indices as signed integers.
    pub fn get_idxs_ds_i32(&self) -> (r: Vec<i32>)
        requires
            self.wf(),
        ensures
            r@ == as_i32(self.idxs_ds@),
    {
        let size = self.idxs_ds.len();
        let mut result: Vec<i32> = Vec::with_capacity(size);
        let mut idx: usize = 0;
        while idx < size
            invariant
                self.wf(),
                size == self.idxs_ds@.len(),
                idx <= size,
                result@.len() == idx,
                forall|i: int| 0 <= i < idx ==> #[trigger] result@[i] == self.idxs_ds@[i] as i32,
            decreases size - idx,
        {
            result.push(self.idxs_ds[idx] as i32);
            idx += 1;
        }
        proof {
            assert(result@ =~= as_i32(self.idxs_ds@));
        }
        result
    }

    /// The rank of every cell: its number of steps down to a pit, or -1
    /// when its chain never reaches one. Computed once, then kept.
    pub fn rank(&mut self) -> (r: &Vec<i32>)
        requires
            old(self).wf(),
        ensures
            final(self).wf(),
            final(self).idxs_ds == old(self).idxs_ds,
            final(self).shape == old(self).shape,
            final(self).valid_mask == old(self).valid_mask,
            final(self).pit_indices == old(self).pit_indices,
            final(self).upstream_counts == old(self).upstream_counts,
            final(self).ranks_correct(r@),
    {
        if self.rank_cache.is_none() {
            let idxs_ds_i32 = self.get_idxs_ds_i32();
            let pits: Vec<bool> = Vec::new();
            let (ranks, _) = rank(&idxs_ds_i32, &pits);
            self.rank_cache = Some(ranks);
        }
        self.rank_cache.as_ref().unwrap()
    }

    /// Number of cells that drain into a pit: those with a rank of zero or more.
    pub fn nnodes(&self) -> (r: usize)
        requires
            self.wf(),
        ensures
            r == count_draining(as_i32(self.idxs_ds@), self.idxs_ds@.len() as int),
    {
        let idxs_ds_i32 = self.get_idxs_ds_i32();
        let pits: Vec<bool> = Vec::new();
        let (ranks, n) = rank(&idxs_ds_i32, &pits);
        proof {
            lemma_count_draining(idxs_ds_i32@, ranks@, ranks@.len() as int);
            assert(ranks@.subrange(0, ranks@.len() as int) =~= ranks@);
        }
        n
    }

    /// Get valid cell indices, in increasing order.
    pub fn valid_indices(&self) -> (r: Vec<usize>)
        requires
            self.wf(),
        ensures
            r@ == marked_upto(self.valid_mask@, self.valid_mask@.len() as int),
    {
        let mut indices: Vec<usize> = Vec::new();
        let mut idx: usize = 0;
        while idx < self.valid_mask.len()
            invariant
                idx <= self.valid_mask@.len(),
                indices@ == marked_upto(self.valid_mask@, idx as int),
            decreases self.valid_mask@.len() - idx,
        {
            if self.valid_mask[idx] {
                indices.push(idx);
            }
            idx += 1;
        }
        indices
    }

    /// Check if a cell is valid.
    pub fn is_valid(&self, idx: usize) -> (r: bool)
        requires
            self.wf(),
        ensures
            r == (idx < self.valid_mask@.len() && self.valid_mask@[idx as int]),
    {
        idx < self.valid_mask.len() && self.valid_mask[idx]
    }

    /// Convert linear index to row, col coordinates.
    pub fn idx_to_rowcol(&self, idx: usize) -> (r: (usize, usize))
        requires
            self.shape.1 > 0,
        ensures
            r.0 == idx / self.shape.1,
            r.1 == idx % self.shape.1,
            idx == r.0 * self.shape.1 + r.1,
    {
        let ncols = self.shape.1;
        proof {
            assert(idx == (idx / ncols) * ncols + idx % ncols) by (nonlinear_arith)
                requires
                    ncols > 0,
            ;
        }
        (idx / ncols, idx % ncols)
    }

    /// Convert row, col coordinates to linear index.
    pub fn rowcol_to_idx(&self, row: usize, col: usize) -> (r: usize)
        requires
            row * self.shape.1 + col <= usize::MAX,
        ensures
            r == row * self.shape.1 + col,
    {
        proof {
            assert(0 <= row * self.shape.1) by (nonlinear_arith);
        }
        row * self.shape.1 + col
    }

    /// The grid of D8 codes that the downstream indices describe: a
    /// self-loop becomes a pit, a step to a neighbour its compass code.
    pub fn to_array(&self) -> (r: Vec<u8>)
        requires
            self.wf(),
        ensures
            r@.len() == self.idxs_ds@.len(),
            forall|i: int|
                0 <= i < r@.len() ==> #[trigger] r@[i] == code_of_step(
                    i,
                    self.idxs_ds@[i] as int,
                    self.idxs_ds@.len() as int,
                    self.shape.1 as int,
                ),
    {
        d8_to_array(self.idxs_ds.as_slice(), self.shape)
    }

    /// The pits, the cells that drain into themselves, in increasing order.
    pub fn pit_indices(&self) -> (r: Vec<usize>)
        requires
            self.wf(),
        ensures
            r@ == self.pit_indices@,
    {
        pit_indices(self.idxs_ds.as_slice())
    }

    /// Number of cells draining into each cell; with a mask, only the cells
    /// it marks count.
    pub fn upstream_count(&self, mask: Option<&[bool]>) -> (r: Vec<i8>)
        requires
            self.wf(),
            mask matches Some(m) ==> m@.len() == self.idxs_ds@.len(),
        ensures
            r@.len() == self.idxs_ds@.len(),
            forall|t: int|
                0 <= t < r@.len() ==> #[trigger] r@[t] as int == up_counts(
                    self.idxs_ds@,
                    crate::network::mask_of(mask, self.idxs_ds@.len() as int),
                    self.idxs_ds@.len() as int,
                )[t],
    {
        proof {
            lemma_grid_fan_in_bounded(
                self.idxs_ds@,
                crate::network::mask_of(mask, self.idxs_ds@.len() as int),
                self.shape.1 as int,
            );
        }
        upstream_count(self.idxs_ds.as_slice(), mask)
    }

    /// The cells from downstream to upstream: the pits, then every cell
    /// after the cell it drains into; each cell that drains into a pit once.
    pub fn idxs_seq(&self) -> (r: Vec<usize>)
        requires
            self.wf(),
        ensures
            is_pit_order(self.idxs_ds@, r@),
    {
        proof {
            lemma_grid_fan_in_bounded(
                self.idxs_ds@,
                all_cells(self.idxs_ds@.len() as int),
                self.shape.1 as int,
            );
            crate::network::lemma_pit_list_distinct(self.idxs_ds@);
        }
        idxs_seq(self.idxs_ds.as_slice(), self.pit_indices.as_slice())
    }

    /// Flow accumulation with a weight of one per cell: the number of
    /// cells upstream of each cell, itself included.
    pub fn accuflux_count(&self) -> (r: Vec<usize>)
        requires
            self.wf(),
        ensures
            r@.len() == self.idxs_ds@.len(),
            forall|x: int|
                0 <= x < r@.len() && drains(as_i32(self.idxs_ds@), x) ==> #[trigger] r@[x] == 1
                    + inflow(self.idxs_ds@, r@, x, r@.len() as int),
            forall|x: int|
                0 <= x < r@.len() && !drains(as_i32(self.idxs_ds@), x) ==> #[trigger] r@[x] == 1,
    {
        proof {
            lemma_grid_fan_in_bounded(
                self.idxs_ds@,
                all_cells(self.idxs_ds@.len() as int),
                self.shape.1 as int,
            );
        }
        accuflux_count(self.idxs_ds.as_slice())
    }
}

} // verus!
