//! The [`Panel`]: a dense dates x symbols matrix whose cells are IEEE-754
//! bit patterns (`f64::to_bits`), so every reshaping operation here moves
//! values exactly without interpreting them. Missing cells hold the bits of
//! the canonical NaN, [`MISSING`].
//!
//! The matrix itself is an `ndarray::Array2<u64>` held inside [`CellGrid`];
//! its contents are named by [`grid_cells`] (row-major) and its shape by
//! [`grid_shape`].

use vstd::prelude::*;
use crate::error::EngineError;

verus! {

/// Bit pattern of the canonical NaN (`f64::NAN.to_bits()`): a missing cell.
pub const MISSING: u64 = 0x7FF8_0000_0000_0000;

/// Bits of an `f64` that is neither infinite nor NaN.
pub open spec fn is_finite_bits(x: u64) -> bool {
    (x >> 52u64) & 0x7FFu64 != 0x7FFu64
}

/// Bits of an `f64` equal to zero (either sign).
pub open spec fn is_zero_bits(x: u64) -> bool {
    x & 0x7FFF_FFFF_FFFF_FFFFu64 == 0
}

/// A rows x cols matrix of cell bit patterns (an `ndarray::Array2<u64>`).
#[verifier::external_body]
pub struct CellGrid {
    inner: ndarray::Array2<u64>,
}

/// The cells of a grid, row by row.
pub uninterp spec fn grid_cells(g: CellGrid) -> Seq<u64>;

/// The (rows, cols) shape of a grid.
pub uninterp spec fn grid_shape(g: CellGrid) -> (nat, nat);

pub open spec fn grid_rows(g: CellGrid) -> nat {
    grid_shape(g).0
}

pub open spec fn grid_cols(g: CellGrid) -> nat {
    grid_shape(g).1
}

/// The cell at row `r`, column `c`.
pub open spec fn grid_at(g: CellGrid, r: int, c: int) -> u64 {
    grid_cells(g)[r * grid_cols(g) + c]
}

/// A grid whose cell list matches its shape, each axis within `isize`.
pub open spec fn grid_wf(g: CellGrid) -> bool {
    &&& grid_cells(g).len() == grid_rows(g) * grid_cols(g)
    &&& grid_rows(g) <= isize::MAX
    &&& grid_cols(g) <= isize::MAX
}

pub(crate) proof fn lemma_index_in_bounds(r: int, c: int, rows: int, cols: int)
    requires
        0 <= r < rows,
        0 <= c < cols,
    ensures
        0 <= r * cols + c < rows * cols,
{
    assert(r * cols + c < rows * cols) by (nonlinear_arith)
        requires
            0 <= r < rows,
            0 <= c < cols,
    ;
    assert(r * cols >= 0) by (nonlinear_arith)
        requires
            r >= 0,
            cols >= 0,
    ;
}

pub(crate) proof fn lemma_index_distinct(r1: int, c1: int, r2: int, c2: int, cols: int)
    requires
        0 <= c1 < cols,
        0 <= c2 < cols,
        r1 >= 0,
        r2 >= 0,
        r1 * cols + c1 == r2 * cols + c2,
    ensures
        r1 == r2 && c1 == c2,
{
    if r1 < r2 {
        assert(r1 * cols + c1 < r2 * cols + c2) by (nonlinear_arith)
            requires
                r1 < r2,
                0 <= c1 < cols,
                0 <= c2,
        ;
    } else if r2 < r1 {
        assert(r2 * cols + c2 < r1 * cols + c1) by (nonlinear_arith)
            requires
                r2 < r1,
                0 <= c2 < cols,
                0 <= c1,
        ;
    }
}

/// A grid of `rows x cols` copies of `v`, from `ndarray::Array2::from_elem`
/// (which panics only when the product of the non-zero axis lengths
/// overflows `isize`; each axis within `isize` and their product within
/// `isize` exclude that).
#[verifier::external_body]
pub(crate) fn grid_filled(rows: usize, cols: usize, v: u64) -> (g: CellGrid)
    requires
        rows <= isize::MAX,
        cols <= isize::MAX,
        rows * cols <= isize::MAX,
    ensures
        grid_shape(g) == (rows as nat, cols as nat),
        grid_cells(g) == Seq::new((rows * cols) as nat, |i: int| v),
{
    CellGrid { inner: ndarray::Array2::from_elem((rows, cols), v) }
}

/// A grid over a row-major cell list, from `ndarray::Array2::from_shape_vec`,
/// which fails unless the length is `rows * cols` (and each axis fits
/// `isize`).
#[verifier::external_body]
pub(crate) fn grid_from_cells(rows: usize, cols: usize, cells: Vec<u64>) -> (g: Option<CellGrid>)
    ensures
        g matches Some(g) ==> grid_shape(g) == (rows as nat, cols as nat) && grid_cells(g)
            == cells@,
        g is Some ==> cells@.len() == rows * cols && rows <= isize::MAX && cols <= isize::MAX,
        cells@.len() == rows * cols && rows <= isize::MAX && cols <= isize::MAX ==> g is Some,
{
    ndarray::Array2::from_shape_vec((rows, cols), cells).ok().map(|a| CellGrid { inner: a })
}

/// The cell at `[[r, c]]` (ndarray indexing).
#[verifier::external_body]
pub(crate) fn grid_get(g: &CellGrid, r: usize, c: usize) -> (v: u64)
    requires
        r < grid_rows(*g),
        c < grid_cols(*g),
    ensures
        v == grid_at(*g, r as int, c as int),
{
    g.inner[[r, c]]
}

/// Overwrite the cell at `[[r, c]]` (ndarray mutable indexing).
#[verifier::external_body]
pub(crate) fn grid_set(g: &mut CellGrid, r: usize, c: usize, v: u64)
    requires
        r < grid_rows(*old(g)),
        c < grid_cols(*old(g)),
    ensures
        grid_shape(*final(g)) == grid_shape(*old(g)),
        grid_cells(*final(g)) == grid_cells(*old(g)).update(r * grid_cols(*old(g)) + c, v),
{
    g.inner[[r, c]] = v;
}

/// The (rows, cols) shape, from `ndarray::ArrayBase::dim`. Every axis of
/// an ndarray array lies within `isize` (its constructors refuse a shape
/// whose non-zero axis lengths multiply past `isize::MAX`).
#[verifier::external_body]
pub(crate) fn grid_dim(g: &CellGrid) -> (d: (usize, usize))
    ensures
        d.0 as nat == grid_rows(*g),
        d.1 as nat == grid_cols(*g),
        d.0 <= isize::MAX,
        d.1 <= isize::MAX,
{
    g.inner.dim()
}

impl CellGrid {
    /// A `rows x cols` grid over a row-major cell list; `None` unless the
    /// list holds exactly `rows * cols` cells.
    pub fn from_cells(rows: usize, cols: usize, cells: Vec<u64>) -> (g: Option<CellGrid>)
        requires
            rows <= isize::MAX,
            cols <= isize::MAX,
        ensures
            g is Some <==> cells@.len() == rows * cols,
            g matches Some(g) ==> grid_shape(g) == (rows as nat, cols as nat) && grid_cells(g) == cells@
                && grid_wf(g),
    {
        grid_from_cells(rows, cols, cells)
    }
}

/// An independent copy of a grid (`Clone` of `ndarray::Array2`).
#[verifier::external_body]
pub(crate) fn grid_clone(g: &CellGrid) -> (r: CellGrid)
    ensures
        grid_shape(r) == grid_shape(*g),
        grid_cells(r) == grid_cells(*g),
{
    CellGrid { inner: g.inner.clone() }
}

/// Number of cells, from `ndarray::ArrayBase::len`.
#[verifier::external_body]
pub(crate) fn grid_len(g: &CellGrid) -> (n: usize)
    ensures
        n as nat == grid_cells(*g).len(),
{
    g.inner.len()
}

/// Rows `start..end` as a new grid (`slice_axis(Axis(0), start..end).to_owned()`).
#[verifier::external_body]
pub(crate) fn grid_row_block(g: &CellGrid, start: usize, end: usize) -> (b: CellGrid)
    requires
        start <= end <= grid_rows(*g),
        grid_wf(*g),
    ensures
        grid_shape(b) == ((end - start) as nat, grid_cols(*g)),
        grid_cells(b) == grid_cells(*g).subrange(start * grid_cols(*g), end * grid_cols(*g)),
{
    CellGrid {
        inner: g.inner.slice_axis(ndarray::Axis(0), ndarray::Slice::from(start..end)).to_owned(),
    }
}

/// Copy `count` rows of `src` starting at `src_start` over the rows of `dst`
/// starting at `dst_start` (`slice_axis_mut(..).assign(&slice_axis(..))`).
#[verifier::external_body]
pub(crate) fn grid_copy_rows(dst: &mut CellGrid, dst_start: usize, src: &CellGrid, src_start: usize, count: usize)
    requires
        dst_start + count <= grid_rows(*old(dst)),
        src_start + count <= grid_rows(*src),
        grid_cols(*old(dst)) == grid_cols(*src),
        grid_wf(*old(dst)),
        grid_wf(*src),
    ensures
        grid_shape(*final(dst)) == grid_shape(*old(dst)),
        grid_cells(*final(dst)) == grid_cells(*old(dst)).subrange(0, dst_start * grid_cols(*src))
            + grid_cells(*src).subrange(src_start * grid_cols(*src), (src_start + count) * grid_cols(*src))
            + grid_cells(*old(dst)).subrange((dst_start + count) * grid_cols(*src), grid_cells(*old(dst)).len() as int),
{
    dst.inner.slice_axis_mut(ndarray::Axis(0), ndarray::Slice::from(dst_start..dst_start + count))
        .assign(&src.inner.slice_axis(ndarray::Axis(0), ndarray::Slice::from(src_start..src_start + count)));
}

/// Cell-wise reading of a row-block copy.
pub(crate) proof fn lemma_copy_rows_at(
    old_g: CellGrid,
    new_g: CellGrid,
    src: CellGrid,
    dst_start: int,
    src_start: int,
    count: int,
)
    requires
        0 <= dst_start,
        0 <= src_start,
        0 <= count,
        dst_start + count <= grid_rows(old_g),
        src_start + count <= grid_rows(src),
        grid_cols(old_g) == grid_cols(src),
        grid_wf(old_g),
        grid_wf(src),
        grid_shape(new_g) == grid_shape(old_g),
        grid_cells(new_g) == grid_cells(old_g).subrange(0, dst_start * grid_cols(src)) + grid_cells(
            src,
        ).subrange(src_start * grid_cols(src), (src_start + count) * grid_cols(src)) + grid_cells(
            old_g,
        ).subrange((dst_start + count) * grid_cols(src), grid_cells(old_g).len() as int),
    ensures
        grid_wf(new_g),
        forall|r: int, c: int|
            0 <= r < grid_rows(old_g) && 0 <= c < grid_cols(old_g) ==> #[trigger] grid_at(new_g, r, c)
                == if dst_start <= r < dst_start + count {
                grid_at(src, src_start + (r - dst_start), c)
            } else {
                grid_at(old_g, r, c)
            },
{
    let w = grid_cols(src) as int;
    let rows = grid_rows(old_g) as int;
    let srows = grid_rows(src) as int;
    assert(dst_start * w <= (dst_start + count) * w <= rows * w) by (nonlinear_arith)
        requires
            0 <= dst_start,
            0 <= count,
            dst_start + count <= rows,
            w >= 0,
    ;
    assert(src_start * w <= (src_start + count) * w <= srows * w) by (nonlinear_arith)
        requires
            0 <= src_start,
            0 <= count,
            src_start + count <= srows,
            w >= 0,
    ;
    let pre = grid_cells(old_g).subrange(0, dst_start * w);
    let mid = grid_cells(src).subrange(src_start * w, (src_start + count) * w);
    let suf = grid_cells(old_g).subrange((dst_start + count) * w, grid_cells(old_g).len() as int);
    assert((src_start + count) * w - src_start * w == count * w) by (nonlinear_arith);
    assert((dst_start + count) * w - dst_start * w == count * w) by (nonlinear_arith);
    assert forall|r: int, c: int| 0 <= r < rows && 0 <= c < w implies #[trigger] grid_at(new_g, r, c)
        == if dst_start <= r < dst_start + count {
        grid_at(src, src_start + (r - dst_start), c)
    } else {
        grid_at(old_g, r, c)
    } by {
        lemma_index_in_bounds(r, c, rows, w);
        let k = r * w + c;
        if r < dst_start {
            assert(k < dst_start * w) by (nonlinear_arith)
                requires
                    r < dst_start,
                    0 <= c < w,
                    k == r * w + c,
            ;
            assert(grid_cells(new_g)[k] == pre[k]);
        } else if r < dst_start + count {
            let rr = r - dst_start;
            assert(k == dst_start * w + (rr * w + c)) by (nonlinear_arith)
                requires
                    k == r * w + c,
                    rr == r - dst_start,
            ;
            lemma_index_in_bounds(rr, c, count, w);
            assert(grid_cells(new_g)[k] == mid[rr * w + c]);
            assert(src_start * w + (rr * w + c) == (src_start + rr) * w + c) by (nonlinear_arith);
        } else {
            assert(k >= (dst_start + count) * w) by (nonlinear_arith)
                requires
                    r >= dst_start + count,
                    0 <= c,
                    w >= 0,
                    k == r * w + c,
            ;
            assert(grid_cells(new_g)[k] == suf[k - (dst_start + count) * w]);
        }
    }
}

/// Cell-wise reading of a single-cell update.
pub(crate) proof fn lemma_set_at(old_g: CellGrid, new_g: CellGrid, r0: int, c0: int, v: u64)
    requires
        grid_wf(old_g),
        0 <= r0 < grid_rows(old_g),
        0 <= c0 < grid_cols(old_g),
        grid_shape(new_g) == grid_shape(old_g),
        grid_cells(new_g) == grid_cells(old_g).update(r0 * grid_cols(old_g) + c0, v),
    ensures
        grid_wf(new_g),
        forall|r: int, c: int|
            0 <= r < grid_rows(old_g) && 0 <= c < grid_cols(old_g) ==> #[trigger] grid_at(new_g, r, c)
                == if r == r0 && c == c0 {
                v
            } else {
                grid_at(old_g, r, c)
            },
{
    let w = grid_cols(old_g) as int;
    lemma_index_in_bounds(r0, c0, grid_rows(old_g) as int, w);
    assert forall|r: int, c: int| 0 <= r < grid_rows(old_g) && 0 <= c < w implies #[trigger] grid_at(
        new_g,
        r,
        c,
    ) == if r == r0 && c == c0 {
        v
    } else {
        grid_at(old_g, r, c)
    } by {
        lemma_index_in_bounds(r, c, grid_rows(old_g) as int, w);
        lemma_index_in_bounds(r0, c0, grid_rows(old_g) as int, w);
        if r * w + c == r0 * w + c0 {
            lemma_index_distinct(r, c, r0, c0, w);
        }
    }
}

/// Cell-wise reading of a filled grid.
pub(crate) proof fn lemma_filled_at(g: CellGrid, v: u64)
    requires
        grid_cells(g) == Seq::new((grid_rows(g) * grid_cols(g)) as nat, |i: int| v),
        grid_rows(g) <= isize::MAX,
        grid_cols(g) <= isize::MAX,
    ensures
        grid_wf(g),
        forall|r: int, c: int|
            0 <= r < grid_rows(g) && 0 <= c < grid_cols(g) ==> #[trigger] grid_at(g, r, c) == v,
{
    assert forall|r: int, c: int| 0 <= r < grid_rows(g) && 0 <= c < grid_cols(g) implies #[trigger] grid_at(
        g,
        r,
        c,
    ) == v by {
        lemma_index_in_bounds(r, c, grid_rows(g) as int, grid_cols(g) as int);
    }
}

/// Dense dates x symbols matrix of cell bit patterns.
pub struct Panel {
    pub dates: Vec<i32>,
    pub symbols: Vec<String>,
    pub data: CellGrid,
}

impl Panel {
    /// The matrix matches the axes.
    pub open spec fn wf(&self) -> bool {
        &&& grid_wf(self.data)
        &&& grid_rows(self.data) == self.dates@.len()
        &&& grid_cols(self.data) == self.symbols@.len()
    }

    /// The cell at row `r`, column `c`.
    pub open spec fn at(&self, r: int, c: int) -> u64 {
        grid_at(self.data, r, c)
    }

    /// Build a panel from an already-shaped grid; `ShapeMismatch` when the
    /// grid does not match the axes.
    pub fn new(dates: Vec<i32>, symbols: Vec<String>, data: CellGrid) -> (r: Result<Panel, EngineError>)
        requires
            grid_wf(data),
        ensures
            r is Ok <==> (grid_rows(data) == dates@.len() && grid_cols(data) == symbols@.len()),
            r matches Ok(p) ==> p.wf() && p.dates == dates && p.symbols == symbols && p.data == data,
            r matches Err(e) ==> e == (EngineError::ShapeMismatch {
                rows: dates@.len() as usize,
                cols: symbols@.len() as usize,
                data_len: grid_cells(data).len() as usize,
            }),
    {
        let (nr, nc) = grid_dim(&data);
        if nr != dates.len() || nc != symbols.len() {
            return Err(
                EngineError::ShapeMismatch {
                    rows: dates.len(),
                    cols: symbols.len(),
                    data_len: grid_len(&data),
                },
            );
        }
        Ok(Panel { dates, symbols, data })
    }

    pub fn nrows(&self) -> (n: usize)
        ensures
            n == self.dates@.len(),
    {
        self.dates.len()
    }

    pub fn ncols(&self) -> (n: usize)
        ensures
            n == self.symbols@.len(),
    {
        self.symbols.len()
    }

    /// An independent copy with the same axes and cells.
    pub fn clone_panel(&self) -> (r: Panel)
        ensures
            r.dates@ == self.dates@,
            names(r.symbols@) == names(self.symbols@),
            r.symbols@.len() == self.symbols@.len(),
            grid_shape(r.data) == grid_shape(self.data),
            grid_cells(r.data) == grid_cells(self.data),
            self.wf() ==> r.wf(),
    {
        let dates = self.dates.clone();
        let symbols = clone_names(&self.symbols);
        proof {
            assert(names(symbols@).len() == symbols@.len());
            assert(names(self.symbols@).len() == self.symbols@.len());
        }
        Panel { dates, symbols, data: grid_clone(&self.data) }
    }

    /// The cell at row `r`, column `c`.
    pub fn cell(&self, r: usize, c: usize) -> (v: u64)
        requires
            self.wf(),
            r < self.dates@.len(),
            c < self.symbols@.len(),
        ensures
            v == self.at(r as int, c as int),
    {
        grid_get(&self.data, r, c)
    }

    /// Build a panel from row-major rows (one inner list per date): the rows
    /// are flattened and reshaped to `rows x symbols`, so the flattened length
    /// must be `rows * symbols`, and the row count must match the dates.
    pub fn from_rows(dates: Vec<i32>, symbols: Vec<String>, rows: Vec<Vec<u64>>) -> (r: Result<Panel, EngineError>)
        requires
            rows@.len() <= isize::MAX,
            symbols@.len() <= isize::MAX,
        ensures
            r is Ok <==> (flatten_rows(rows@).len() == rows@.len() * symbols@.len() && rows@.len()
                == dates@.len()),
            r matches Ok(p) ==> p.wf() && p.dates == dates && p.symbols == symbols && grid_cells(p.data)
                == flatten_rows(rows@),
            r matches Ok(p) ==> forall|i: int, j: int|
                0 <= i < rows@.len() && 0 <= j < symbols@.len() && (forall|k: int| 0 <= k < rows@.len() ==> (#[trigger] rows@[k])@.len() == symbols@.len())
                    ==> p.at(i, j) == rows@[i]@[j],
            r matches Err(e) ==> (flatten_rows(rows@).len() != rows@.len() * symbols@.len()
                && e == EngineError::ShapeMismatch { rows: rows@.len() as usize, cols: symbols@.len() as usize, data_len: 0 })
                || (flatten_rows(rows@).len() == rows@.len() * symbols@.len() && e == EngineError::ShapeMismatch {
                    rows: dates@.len() as usize,
                    cols: symbols@.len() as usize,
                    data_len: flatten_rows(rows@).len() as usize,
                }),
    {
        let nrows = rows.len();
        let ncols = symbols.len();
        let mut flat: Vec<u64> = Vec::new();
        let mut i: usize = 0;
        while i < nrows
            invariant
                i <= nrows,
                nrows == rows@.len(),
                flat@ == flatten_rows(rows@.subrange(0, i as int)),
            decreases nrows - i,
        {
            let row = &rows[i];
            let ghost before = flat@;
            let mut j: usize = 0;
            while j < row.len()
                invariant
                    j <= row@.len(),
                    flat@ == before + row@.subrange(0, j as int),
                decreases row@.len() - j,
            {
                flat.push(row[j]);
                j = j + 1;
                assert(flat@ =~= before + row@.subrange(0, j as int));
            }
            proof {
                assert(rows@.subrange(0, i + 1).drop_last() =~= rows@.subrange(0, i as int));
                assert(row@.subrange(0, row@.len() as int) =~= row@);
            }
            i = i + 1;
        }
        assert(rows@.subrange(0, nrows as int) =~= rows@);
        match grid_from_cells(nrows, ncols, flat) {
            Some(g) => {
                proof {
                    assert forall|a: int, b: int|
                        0 <= a < rows@.len() && 0 <= b < ncols && (forall|k: int| 0 <= k < rows@.len() ==> (#[trigger] rows@[k])@.len() == ncols)
                        implies grid_at(g, a, b) == rows@[a]@[b] by {
                        lemma_flatten_index(rows@, ncols as nat, a, b);
                    }
                }
                Panel::new(dates, symbols, g)
            },
            None => Err(EngineError::ShapeMismatch { rows: nrows, cols: ncols, data_len: 0 }),
        }
    }
}

/// All rows flattened into one list.
pub open spec fn flatten_rows(rows: Seq<Vec<u64>>) -> Seq<u64>
    decreases rows.len(),
{
    if rows.len() == 0 {
        Seq::empty()
    } else {
        flatten_rows(rows.drop_last()) + rows.last()@
    }
}

proof fn lemma_flatten_len(rows: Seq<Vec<u64>>, w: nat)
    requires
        forall|i: int| 0 <= i < rows.len() ==> (#[trigger] rows[i])@.len() == w,
    ensures
        flatten_rows(rows).len() == rows.len() * w,
    decreases rows.len(),
{
    if rows.len() > 0 {
        lemma_flatten_len(rows.drop_last(), w);
        assert(rows.last() == rows[rows.len() - 1]);
        assert((rows.len() - 1) * w + w == rows.len() * w) by (nonlinear_arith);
    }
}

proof fn lemma_flatten_index(rows: Seq<Vec<u64>>, w: nat, a: int, b: int)
    requires
        forall|i: int| 0 <= i < rows.len() ==> (#[trigger] rows[i])@.len() == w,
        0 <= a < rows.len(),
        0 <= b < w,
    ensures
        flatten_rows(rows)[a * w + b] == rows[a]@[b],
    decreases rows.len(),
{
    let init = rows.drop_last();
    lemma_flatten_len(init, w);
    assert(rows.last() == rows[rows.len() - 1]);
    if a < rows.len() - 1 {
        lemma_flatten_index(init, w, a, b);
        lemma_index_in_bounds(a, b, init.len() as int, w as int);
        assert(init[a] == rows[a]);
    } else {
        assert(a * w == init.len() * w);
    }
}

/// The character views of a list of names.
pub open spec fn names(v: Seq<String>) -> Seq<Seq<char>> {
    v.map_values(|s: String| s@)
}

/// A copy of a list of names.
pub fn clone_names(v: &Vec<String>) -> (r: Vec<String>)
    ensures
        names(r@) == names(v@),
{
    let mut out: Vec<String> = Vec::new();
    let mut i: usize = 0;
    while i < v.len()
        invariant
            i <= v@.len(),
            out@.len() == i,
            forall|k: int| 0 <= k < i ==> (#[trigger] out@[k])@ == v@[k]@,
        decreases v@.len() - i,
    {
        out.push(v[i].clone());
        i = i + 1;
    }
    assert(names(out@) =~= names(v@));
    out
}

/// Dates in ascending order (ties allowed).
pub open spec fn sorted_asc(d: Seq<i32>) -> bool {
    forall|i: int, j: int| 0 <= i <= j < d.len() ==> d[i] <= d[j]
}

/// The partition point of `d < x` in an ascending list.
pub fn partition_below(dates: &Vec<i32>, x: i32) -> (r: usize)
    requires
        sorted_asc(dates@),
    ensures
        r <= dates@.len(),
        forall|k: int| 0 <= k < r ==> dates@[k] < x,
        forall|k: int| r <= k < dates@.len() ==> dates@[k] >= x,
{
    let mut lo: usize = 0;
    let mut hi: usize = dates.len();
    while lo < hi
        invariant
            lo <= hi <= dates@.len(),
            sorted_asc(dates@),
            forall|k: int| 0 <= k < lo ==> dates@[k] < x,
            forall|k: int| hi <= k < dates@.len() ==> dates@[k] >= x,
        decreases hi - lo,
    {
        let mid = lo + (hi - lo) / 2;
        if dates[mid] < x {
            lo = mid + 1;
        } else {
            hi = mid;
        }
    }
    lo
}

/// The partition point of `d <= x` in an ascending list.
pub fn partition_through(dates: &Vec<i32>, x: i32) -> (r: usize)
    requires
        sorted_asc(dates@),
    ensures
        r <= dates@.len(),
        forall|k: int| 0 <= k < r ==> dates@[k] <= x,
        forall|k: int| r <= k < dates@.len() ==> dates@[k] > x,
{
    let mut lo: usize = 0;
    let mut hi: usize = dates.len();
    while lo < hi
        invariant
            lo <= hi <= dates@.len(),
            sorted_asc(dates@),
            forall|k: int| 0 <= k < lo ==> dates@[k] <= x,
            forall|k: int| hi <= k < dates@.len() ==> dates@[k] > x,
        decreases hi - lo,
    {
        let mid = lo + (hi - lo) / 2;
        if dates[mid] <= x {
            lo = mid + 1;
        } else {
            hi = mid;
        }
    }
    lo
}

impl Panel {
    /// The sub-panel whose dates fall in `[from, to]` (inclusive). Symbols
    /// are unchanged; the kept rows are one contiguous block of the
    /// ascending date axis, and an empty range (`to < from`) gives a
    /// zero-row panel.
    pub fn slice_dates(&self, from: i32, to: i32) -> (r: Panel)
        requires
            self.wf(),
            sorted_asc(self.dates@),
        ensures
            r.wf(),
            names(r.symbols@) == names(self.symbols@),
            to < from ==> r.dates@.len() == 0,
            exists|start: int, end: int|
                {
                    &&& 0 <= start <= end <= self.dates@.len()
                    &&& r.dates@ == self.dates@.subrange(start, end)
                    &&& forall|k: int| 0 <= k < start ==> self.dates@[k] < from
                    &&& forall|k: int| start <= k < end ==> from <= #[trigger] self.dates@[k] <= to
                    &&& forall|k: int| end <= k < self.dates@.len() ==> self.dates@[k] > to
                    &&& forall|i: int, j: int| 0 <= i < end - start && 0 <= j < self.symbols@.len()
                        ==> #[trigger] r.at(i, j) == self.at(start + i, j)
                },
    {
        let start = partition_below(&self.dates, from);
        let end0 = partition_through(&self.dates, to);
        // Past the end of an inverted range: keep no row.
        let end = if end0 < start {
            start
        } else {
            end0
        };
        proof {
            if end0 < start {
                assert(self.dates@[end0 as int] > to && self.dates@[end0 as int] < from);
                assert forall|k: int| end <= k < self.dates@.len() implies self.dates@[k] > to by {
                    assert(self.dates@[k] >= from);
                }
            }
            if to < from && start < end {
                assert(from <= self.dates@[start as int] <= to);
            }
        }
        let mut dates: Vec<i32> = Vec::new();
        let mut i: usize = start;
        while i < end
            invariant
                start <= i <= end <= self.dates@.len(),
                dates@ == self.dates@.subrange(start as int, i as int),
            decreases end - i,
        {
            dates.push(self.dates[i]);
            i = i + 1;
            assert(dates@ =~= self.dates@.subrange(start as int, i as int));
        }
        let data = grid_row_block(&self.data, start, end);
        let ghost w = grid_cols(self.data) as int;
        proof {
            assert(end * w - start * w == (end - start) * w) by (nonlinear_arith);
            assert(start * w <= end * w) by (nonlinear_arith)
                requires
                    start <= end,
                    w >= 0,
            ;
            assert(end * w <= self.dates@.len() * w) by (nonlinear_arith)
                requires
                    end <= self.dates@.len(),
                    w >= 0,
            ;
            assert(grid_cols(data) == w);
            assert(grid_wf(data));
            assert forall|i: int, j: int| 0 <= i < end - start && 0 <= j < self.symbols@.len() implies #[trigger] grid_at(data, i, j)
                == self.at(start + i, j) by {
                lemma_index_in_bounds(i, j, (end - start) as int, w);
                assert(start * w + (i * w + j) == (start + i) * w + j) by (nonlinear_arith);
                assert(grid_at(data, i, j) == grid_cells(data)[i * w + j]);
                assert(grid_cells(data)[i * w + j] == grid_cells(self.data)[start * w + (i * w + j)]);
            }
        }
        let symbols = clone_names(&self.symbols);
        assert(symbols@.len() == names(symbols@).len());
        let p = Panel { dates, symbols, data };
        p
    }

    /// Lag every column by `n` rows: row `i` takes row `i - n`, and the
    /// first `n` rows are missing.
    pub fn shift(&self, n: usize) -> (r: Panel)
        requires
            self.wf(),
            self.dates@.len() * self.symbols@.len() <= isize::MAX,
        ensures
            r.wf(),
            r.dates@ == self.dates@,
            names(r.symbols@) == names(self.symbols@),
            forall|i: int, j: int| 0 <= i < self.dates@.len() && 0 <= j < self.symbols@.len()
                ==> #[trigger] r.at(i, j) == if i >= n { self.at(i - n, j) } else { MISSING },
    {
        let (nr, nc) = grid_dim(&self.data);
        let mut out = grid_filled(nr, nc, MISSING);
        let ghost filled = out;
        proof { lemma_filled_at(out, MISSING); }
        if n < nr {
            grid_copy_rows(&mut out, n, &self.data, 0, nr - n);
            proof { lemma_copy_rows_at(filled, out, self.data, n as int, 0, (nr - n) as int); }
        }
        let symbols = clone_names(&self.symbols);
        assert(symbols@.len() == names(symbols@).len());
        let dates = self.dates.clone();
        assert(dates@ == self.dates@);
        let p = Panel { dates, symbols, data: out };
        p
    }
}

} // verus!
