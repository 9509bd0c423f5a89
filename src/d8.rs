//! The D8 direction codec and the conversion between a raster of
//! direction codes and a flat array of downstream cell indices.

use vstd::prelude::*;
use vstd::arithmetic::div_mod::lemma_fundamental_div_mod_converse;

verus! {

pub const D8_N: u8 = 64;
pub const D8_NE: u8 = 128;
pub const D8_E: u8 = 1;
pub const D8_SE: u8 = 2;
pub const D8_S: u8 = 4;
pub const D8_SW: u8 = 8;
pub const D8_W: u8 = 16;
pub const D8_NW: u8 = 32;
pub const D8_PIT: u8 = 0;
pub const D8_NODATA: u8 = 255;

/// The eight compass codes.
pub open spec fn is_direction(d: u8) -> bool {
    d == D8_N || d == D8_NE || d == D8_E || d == D8_SE || d == D8_S || d == D8_SW || d == D8_W
        || d == D8_NW
}

/// A code that describes a cell: a compass direction or a pit.
pub open spec fn is_valid_code(d: u8) -> bool {
    is_direction(d) || d == D8_PIT
}

/// Row offset of a code; zero for the pit and for anything that is not a direction.
pub open spec fn code_dr(d: u8) -> int {
    if d == D8_N || d == D8_NE || d == D8_NW {
        -1
    } else if d == D8_SE || d == D8_S || d == D8_SW {
        1
    } else {
        0
    }
}

/// Column offset of a code; zero for the pit and for anything that is not a direction.
pub open spec fn code_dc(d: u8) -> int {
    if d == D8_NE || d == D8_E || d == D8_SE {
        1
    } else if d == D8_SW || d == D8_W || d == D8_NW {
        -1
    } else {
        0
    }
}

/// The code whose offset is (dr, dc): a compass code, the pit for the zero
/// offset, and no-data for anything else.
pub open spec fn code_for_offset(dr: int, dc: int) -> u8 {
    if dr == -1 && dc == 0 {
        D8_N
    } else if dr == -1 && dc == 1 {
        D8_NE
    } else if dr == 0 && dc == 1 {
        D8_E
    } else if dr == 1 && dc == 1 {
        D8_SE
    } else if dr == 1 && dc == 0 {
        D8_S
    } else if dr == 1 && dc == -1 {
        D8_SW
    } else if dr == 0 && dc == -1 {
        D8_W
    } else if dr == -1 && dc == -1 {
        D8_NW
    } else if dr == 0 && dc == 0 {
        D8_PIT
    } else {
        D8_NODATA
    }
}

/// Whether the direction of `code` at cell `idx` leads to a cell inside
/// a grid of `nrows` by `ncols`.
pub open spec fn target_in_grid(code: u8, idx: int, nrows: int, ncols: int) -> bool {
    &&& 0 <= idx / ncols + code_dr(code) < nrows
    &&& 0 <= idx % ncols + code_dc(code) < ncols
}

/// The cell that cell `idx` with direction `code` drains into: the
/// neighbour its direction points at when that lies inside the grid, and
/// the cell itself for a pit, an invalid code or a direction that leaves the grid.
pub open spec fn downstream_of(code: u8, idx: int, nrows: int, ncols: int) -> int {
    if is_direction(code) && target_in_grid(code, idx, nrows, ncols) {
        (idx / ncols + code_dr(code)) * ncols + (idx % ncols + code_dc(code))
    } else {
        idx
    }
}

/// A cell is valid when its code is a pit, or a direction into the grid.
pub open spec fn cell_is_valid(code: u8, idx: int, nrows: int, ncols: int) -> bool {
    code == D8_PIT || (is_direction(code) && target_in_grid(code, idx, nrows, ncols))
}

/// The code that describes the step from cell `idx` to cell `idx_ds`.
pub open spec fn code_of_step(idx: int, idx_ds: int, size: int, ncols: int) -> u8 {
    if idx_ds == idx {
        D8_PIT
    } else if 0 <= idx_ds < size {
        code_for_offset(idx_ds / ncols - idx / ncols, idx_ds % ncols - idx % ncols)
    } else {
        D8_NODATA
    }
}

/// Encoding an offset and decoding the code gives the offset back, for
/// the eight compass offsets and the zero offset; decoding a compass code
/// or the pit and encoding the offset gives the code back.
pub proof fn lemma_codec_round_trip(dr: int, dc: int, code: u8)
    requires
        -1 <= dr <= 1,
        -1 <= dc <= 1,
    ensures
        code_dr(code_for_offset(dr, dc)) == dr,
        code_dc(code_for_offset(dr, dc)) == dc,
        (dr != 0 || dc != 0) ==> is_direction(code_for_offset(dr, dc)),
        (dr == 0 && dc == 0) ==> code_for_offset(dr, dc) == D8_PIT,
        is_valid_code(code) ==> code_for_offset(code_dr(code), code_dc(code)) == code,
{
}

/// Returns the row and column offset of a D8 code; (0, 0) for the pit and
/// for every other byte.
pub fn drdc(d8: u8) -> (r: (i8, i8))
    ensures
        r.0 as int == code_dr(d8),
        r.1 as int == code_dc(d8),
{
    let dr: i8 = if d8 == D8_N || d8 == D8_NE || d8 == D8_NW {
        -1
    } else if d8 == D8_SE || d8 == D8_S || d8 == D8_SW {
        1
    } else {
        0
    };
    let dc: i8 = if d8 == D8_NE || d8 == D8_E || d8 == D8_SE {
        1
    } else if d8 == D8_SW || d8 == D8_W || d8 == D8_NW {
        -1
    } else {
        0
    };
    (dr, dc)
}

/// Whether a D8 value is one of the eight compass codes.
pub fn d8_isdirection(d8: u8) -> (r: bool)
    ensures
        r == is_direction(d8),
{
    d8 == D8_N || d8 == D8_NE || d8 == D8_E || d8 == D8_SE || d8 == D8_S || d8 == D8_SW || d8
        == D8_W || d8 == D8_NW
}

/// Check if a D8 value is a pit.
pub fn d8_ispit(d8: u8) -> (r: bool)
    ensures
        r == (d8 == D8_PIT),
{
    d8 == D8_PIT
}

/// Check if a D8 value is nodata.
pub fn d8_isnodata(d8: u8) -> (r: bool)
    ensures
        r == (d8 == D8_NODATA),
{
    d8 == D8_NODATA
}

/// Returns the code for a row and column offset: a compass code, the pit
/// for (0, 0), no-data for anything else.
pub fn offset_to_d8(dr: i8, dc: i8) -> (r: u8)
    ensures
        r == code_for_offset(dr as int, dc as int),
{
    if dr == -1 && dc == 0 {
        D8_N
    } else if dr == -1 && dc == 1 {
        D8_NE
    } else if dr == 0 && dc == 1 {
        D8_E
    } else if dr == 1 && dc == 1 {
        D8_SE
    } else if dr == 1 && dc == 0 {
        D8_S
    } else if dr == 1 && dc == -1 {
        D8_SW
    } else if dr == 0 && dc == -1 {
        D8_W
    } else if dr == -1 && dc == -1 {
        D8_NW
    } else if dr == 0 && dc == 0 {
        D8_PIT
    } else {
        D8_NODATA
    }
}

/// Moves `pos` by `d` on an axis of length `len`: `None` when that leaves the axis.
fn shift(pos: usize, d: i8, len: usize) -> (r: Option<usize>)
    requires
        -1 <= d <= 1,
    ensures
        r is Some <==> 0 <= pos + d < len,
        r is Some ==> r->0 == pos + d,
{
    if d < 0 {
        if pos == 0 || pos - 1 >= len {
            None
        } else {
            Some(pos - 1)
        }
    } else if d == 0 {
        if pos < len {
            Some(pos)
        } else {
            None
        }
    } else {
        if pos >= len || pos + 1 >= len {
            None
        } else {
            Some(pos + 1)
        }
    }
}

/// The difference `a - b` when it is -1, 0 or 1.
fn unit_delta(a: usize, b: usize) -> (r: Option<i8>)
    ensures
        r is Some <==> -1 <= a - b <= 1,
        r is Some ==> r->0 as int == a - b,
{
    if a == b {
        Some(0)
    } else if a < b {
        if a + 1 == b {
            Some(-1)
        } else {
            None
        }
    } else {
        if b + 1 == a {
            Some(1)
        } else {
            None
        }
    }
}

proof fn lemma_cell_in_grid(idx: int, nrows: int, ncols: int)
    requires
        0 <= idx < nrows * ncols,
        ncols > 0,
    ensures
        0 <= idx / ncols < nrows,
        0 <= idx % ncols < ncols,
        idx == (idx / ncols) * ncols + idx % ncols,
{
    assert(0 <= idx / ncols < nrows) by (nonlinear_arith)
        requires
            0 <= idx < nrows * ncols,
            ncols > 0,
    ;
    assert(idx == (idx / ncols) * ncols + idx % ncols) by (nonlinear_arith)
        requires
            ncols > 0,
    ;
}

proof fn lemma_rowcol_in_grid(r: int, c: int, nrows: int, ncols: int)
    requires
        0 <= r < nrows,
        0 <= c < ncols,
    ensures
        0 <= r * ncols + c < nrows * ncols,
        (r * ncols + c) / ncols == r,
        (r * ncols + c) % ncols == c,
{
    assert(0 <= r * ncols + c < nrows * ncols) by (nonlinear_arith)
        requires
            0 <= r < nrows,
            0 <= c < ncols,
    ;
    lemma_fundamental_div_mod_converse(r * ncols + c, ncols, r, c);
}

/// Converts a row-major raster of D8 codes, `shape.0` rows by `shape.1`
/// columns, into the downstream index of every cell.
pub fn d8_from_array(d8: &[u8], shape: (usize, usize)) -> (r: Vec<usize>)
    requires
        d8@.len() == shape.0 * shape.1,
    ensures
        r@.len() == d8@.len(),
        forall|i: int|
            0 <= i < r@.len() ==> r@[i] as int == downstream_of(
                d8@[i],
                i,
                shape.0 as int,
                shape.1 as int,
            ),
        forall|i: int| 0 <= i < r@.len() ==> r@[i] == i || r@[i] < r@.len(),
{
    let (nrows, ncols) = shape;
    let size = d8.len();
    let mut idxs_ds: Vec<usize> = Vec::with_capacity(size);
    let mut idx: usize = 0;
    while idx < size
        invariant
            size == d8@.len() == nrows * ncols,
            idx <= size,
            idxs_ds@.len() == idx,
            forall|i: int|
                0 <= i < idx ==> idxs_ds@[i] as int == downstream_of(
                    d8@[i],
                    i,
                    nrows as int,
                    ncols as int,
                ),
            forall|i: int| 0 <= i < idx ==> idxs_ds@[i] == i || idxs_ds@[i] < size,
        decreases size - idx,
    {
        proof {
            assert(ncols > 0) by (nonlinear_arith)
                requires
                    idx < nrows * ncols,
            ;
            lemma_cell_in_grid(idx as int, nrows as int, ncols as int);
        }
        let row = idx / ncols;
        let col = idx % ncols;
        let code = d8[idx];
        let mut target = idx;
        if d8_isdirection(code) {
            let (dr, dc) = drdc(code);
            match (shift(row, dr, nrows), shift(col, dc, ncols)) {
                (Some(row_ds), Some(col_ds)) => {
                    proof {
                        lemma_rowcol_in_grid(
                            row_ds as int,
                            col_ds as int,
                            nrows as int,
                            ncols as int,
                        );
                    }
                    target = row_ds * ncols + col_ds;
                },
                _ => {},
            }
        }
        idxs_ds.push(target);
        idx += 1;
    }
    idxs_ds
}

/// Every cell of a raster drains into itself or into a cell of the grid.
pub proof fn lemma_downstream_in_grid(code: u8, idx: int, nrows: nat, ncols: nat)
    requires
        0 <= idx < nrows * ncols,
    ensures
        0 <= downstream_of(code, idx, nrows as int, ncols as int) < nrows * ncols,
{
    if is_direction(code) && target_in_grid(code, idx, nrows as int, ncols as int) {
        lemma_rowcol_in_grid(
            idx / ncols as int + code_dr(code),
            idx % ncols as int + code_dc(code),
            nrows as int,
            ncols as int,
        );
    }
}

/// For a raster that holds only compass codes and pits, where no
/// direction leads out of the grid, turning its downstream indices back
/// into codes gives the raster again.
pub proof fn lemma_round_trip(d8: Seq<u8>, nrows: nat, ncols: nat)
    requires
        d8.len() == nrows * ncols,
        forall|i: int| 0 <= i < d8.len() ==> is_valid_code(#[trigger] d8[i]),
        forall|i: int|
            0 <= i < d8.len() && is_direction(#[trigger] d8[i]) ==> target_in_grid(
                d8[i],
                i,
                nrows as int,
                ncols as int,
            ),
    ensures
        forall|i: int|
            0 <= i < d8.len() ==> code_of_step(
                i,
                downstream_of(#[trigger] d8[i], i, nrows as int, ncols as int),
                d8.len() as int,
                ncols as int,
            ) == d8[i],
{
    assert forall|i: int| 0 <= i < d8.len() implies code_of_step(
        i,
        downstream_of(#[trigger] d8[i], i, nrows as int, ncols as int),
        d8.len() as int,
        ncols as int,
    ) == d8[i] by {
        assert(ncols > 0) by (nonlinear_arith)
            requires
                0 <= i < nrows * ncols,
        ;
        lemma_cell_in_grid(i, nrows as int, ncols as int);
        if is_direction(d8[i]) {
            let row = i / ncols as int;
            let col = i % ncols as int;
            lemma_rowcol_in_grid(
                row + code_dr(d8[i]),
                col + code_dc(d8[i]),
                nrows as int,
                ncols as int,
            );
            if (row + code_dr(d8[i])) * ncols + (col + code_dc(d8[i])) == i {
                lemma_fundamental_div_mod_converse(
                    i,
                    ncols as int,
                    row + code_dr(d8[i]),
                    col + code_dc(d8[i]),
                );
            }
        }
    }
}

/// Converts downstream indices back to a row-major raster of D8 codes of
/// `shape.0` rows by `shape.1` columns: a self-loop becomes a pit, a step
/// to a neighbour its compass code, anything else no-data.
pub fn d8_to_array(idxs_ds: &[usize], shape: (usize, usize)) -> (r: Vec<u8>)
    requires
        idxs_ds@.len() == shape.0 * shape.1,
    ensures
        r@.len() == idxs_ds@.len(),
        forall|i: int|
            0 <= i < r@.len() ==> r@[i] == code_of_step(
                i,
                idxs_ds@[i] as int,
                idxs_ds@.len() as int,
                shape.1 as int,
            ),
{
    let (nrows, ncols) = shape;
    let size = idxs_ds.len();
    let mut d8: Vec<u8> = Vec::with_capacity(size);
    let mut idx: usize = 0;
    while idx < size
        invariant
            size == idxs_ds@.len() == nrows * ncols,
            idx <= size,
            d8@.len() == idx,
            forall|i: int|
                0 <= i < idx ==> d8@[i] == code_of_step(
                    i,
                    idxs_ds@[i] as int,
                    size as int,
                    ncols as int,
                ),
        decreases size - idx,
    {
        proof {
            assert(ncols > 0) by (nonlinear_arith)
                requires
                    idx < nrows * ncols,
            ;
        }
        let idx_ds = idxs_ds[idx];
        let code = if idx_ds == idx {
            D8_PIT
        } else if idx_ds < size {
            match (unit_delta(idx_ds / ncols, idx / ncols), unit_delta(idx_ds % ncols, idx % ncols)) {
                (Some(dr), Some(dc)) => offset_to_d8(dr, dc),
                _ => D8_NODATA,
            }
        } else {
            D8_NODATA
        };
        d8.push(code);
        idx += 1;
    }
    d8
}

/// Whether every cell of a raster holds a compass code or the pit.
pub fn d8_isvalid(d8: &[u8]) -> (r: bool)
    ensures
        r == (forall|i: int| 0 <= i < d8@.len() ==> is_valid_code(#[trigger] d8@[i])),
{
    let mut i: usize = 0;
    while i < d8.len()
        invariant
            i <= d8@.len(),
            forall|j: int| 0 <= j < i ==> is_valid_code(#[trigger] d8@[j]),
        decreases d8@.len() - i,
    {
        if !(d8[i] == D8_PIT || d8_isdirection(d8[i])) {
            return false;
        }
        i += 1;
    }
    true
}

/// Row offset of the `k`-th neighbour scanned for upstream cells.
pub open spec fn neighbour_dr(k: int) -> int {
    if k == 0 || k == 1 || k == 7 {
        1
    } else if k == 3 || k == 4 || k == 5 {
        -1
    } else {
        0
    }
}

/// Column offset of the `k`-th neighbour scanned for upstream cells.
pub open spec fn neighbour_dc(k: int) -> int {
    if k == 1 || k == 2 || k == 3 {
        -1
    } else if k == 5 || k == 6 || k == 7 {
        1
    } else {
        0
    }
}

/// The linear indices of the first `k` neighbours of (row, col) that lie
/// inside the grid, in scan order.
pub open spec fn neighbours_upto(row: int, col: int, nrows: int, ncols: int, k: int) -> Seq<usize>
    decreases k,
{
    if k <= 0 {
        Seq::empty()
    } else {
        let prev = neighbours_upto(row, col, nrows, ncols, k - 1);
        let r = row + neighbour_dr(k - 1);
        let c = col + neighbour_dc(k - 1);
        if 0 <= r < nrows && 0 <= c < ncols {
            prev.push((r * ncols + c) as usize)
        } else {
            prev
        }
    }
}

/// Returns the linear indices of the neighbours of cell `idx` that lie
/// inside a grid of `shape.0` rows by `shape.1` columns: the cells that
/// could drain into it.
pub fn d8_upstream_idx(idx: usize, shape: (usize, usize)) -> (r: Vec<usize>)
    requires
        shape.1 > 0,
        shape.0 * shape.1 <= usize::MAX,
    ensures
        r@ == neighbours_upto(
            (idx / shape.1) as int,
            (idx % shape.1) as int,
            shape.0 as int,
            shape.1 as int,
            8,
        ),
        r@.len() <= 8,
{
    let (nrows, ncols) = shape;
    let row = idx / ncols;
    let col = idx % ncols;
    let drs: [i8; 8] = [1, 1, 0, -1, -1, -1, 0, 1];
    let dcs: [i8; 8] = [0, -1, -1, -1, 0, 1, 1, 1];
    let mut upstream: Vec<usize> = Vec::with_capacity(8);
    let mut k: usize = 0;
    assert(drs@[0] == 1 && drs@[1] == 1 && drs@[2] == 0 && drs@[3] == -1 && drs@[4] == -1
        && drs@[5] == -1 && drs@[6] == 0 && drs@[7] == 1);
    assert(dcs@[0] == 0 && dcs@[1] == -1 && dcs@[2] == -1 && dcs@[3] == -1 && dcs@[4] == 0
        && dcs@[5] == 1 && dcs@[6] == 1 && dcs@[7] == 1);
    while k < 8
        invariant
            k <= 8,
            ncols > 0,
            nrows * ncols <= usize::MAX,
            row == idx / ncols,
            col == idx % ncols,
            forall|j: int| 0 <= j < 8 ==> #[trigger] drs@[j] as int == neighbour_dr(j),
            forall|j: int| 0 <= j < 8 ==> #[trigger] dcs@[j] as int == neighbour_dc(j),
            upstream@ == neighbours_upto(row as int, col as int, nrows as int, ncols as int, k as int),
            upstream@.len() <= k,
        decreases 8 - k,
    {
        match (shift(row, drs[k], nrows), shift(col, dcs[k], ncols)) {
            (Some(r), Some(c)) => {
                proof {
                    lemma_rowcol_in_grid(r as int, c as int, nrows as int, ncols as int);
                    assert(0 <= r * ncols + c < nrows * ncols);
                }
                upstream.push(r * ncols + c);
            },
            _ => {},
        }
        k += 1;
    }
    upstream
}

/// A direction that stays inside the grid leads to another cell, one of
/// the eight around it, and never back to the cell itself.
pub proof fn lemma_direction_step(code: u8, idx: int, nrows: nat, ncols: nat)
    requires
        0 <= idx < nrows * ncols,
        is_direction(code),
        target_in_grid(code, idx, nrows as int, ncols as int),
    ensures
        downstream_of(code, idx, nrows as int, ncols as int) != idx,
        downstream_of(code, idx, nrows as int, ncols as int) - idx == code_dr(code) * ncols
            + code_dc(code),
{
    let row = idx / ncols as int;
    let col = idx % ncols as int;
    lemma_cell_in_grid(idx, nrows as int, ncols as int);
    let dr = code_dr(code);
    let dc = code_dc(code);
    assert((row + dr) * ncols + (col + dc) == row * ncols + col + dr * ncols + dc) by (nonlinear_arith);
    lemma_rowcol_in_grid(row + dr, col + dc, nrows as int, ncols as int);
    if (row + dr) * ncols + (col + dc) == idx {
        lemma_fundamental_div_mod_converse(idx, ncols as int, row + dr, col + dc);
    }
}

} // verus!
