//! Boolean signal panels: a cell is true exactly when it holds `1.0`, and
//! boolean results are written as `1.0` / `0.0`. Negation, conjunction and
//! disjunction (over aligned panels), masking, sector membership and
//! grouping, lags, rising and falling edges,
//! rolling persistence, and the entry/exit hold state machine.

use vstd::prelude::*;
use crate::align::{
    align, projected, spec_common_names, strictly_ascending, lemma_distinct_subset_len,
    lemma_common_names_len,
};
use crate::panel::{
    Panel, MISSING, names, clone_names, grid_filled, grid_set, grid_get, grid_dim, grid_at, grid_wf,
    grid_rows, grid_cols, grid_shape, lemma_set_at, lemma_filled_at,
};
use crate::rebalance::last_row_of;
use crate::align::last_name_of;
use crate::text::str_eq;
use crate::assemble::lemma_ascending_unique;

verus! {

/// Bit pattern of `1.0`.
pub const TRUE_BITS: u64 = 0x3FF0_0000_0000_0000;

/// Bit pattern of `0.0`.
pub const FALSE_BITS: u64 = 0;

/// A cell is true when it holds exactly `1.0`.
pub open spec fn is_true(x: u64) -> bool {
    x == TRUE_BITS
}

/// A boolean as a cell.
pub open spec fn bool_cell(b: bool) -> u64 {
    if b { TRUE_BITS } else { FALSE_BITS }
}

/// How a two-panel boolean op combines cells.
#[derive(Debug, Clone, Copy, PartialEq, Eq, Structural)]
pub enum BoolOp {
    And,
    Or,
}

pub open spec fn combine(op: BoolOp, a: bool, b: bool) -> bool {
    match op {
        BoolOp::And => a && b,
        BoolOp::Or => a || b,
    }
}

/// Cell-wise `op` over two panels of one shape, on the axes of the first.
fn zip_cells(a: &Panel, b: &Panel, op: BoolOp) -> (r: Panel)
    requires
        a.wf(),
        b.wf(),
        b.dates@.len() == a.dates@.len(),
        b.symbols@.len() == a.symbols@.len(),
        a.dates@.len() * a.symbols@.len() <= isize::MAX,
    ensures
        r.wf(),
        r.dates@ == a.dates@,
        names(r.symbols@) == names(a.symbols@),
        forall|i: int, j: int| 0 <= i < a.dates@.len() && 0 <= j < a.symbols@.len() ==> #[trigger] r.at(i, j)
            == bool_cell(combine(op, is_true(a.at(i, j)), is_true(b.at(i, j)))),
{
    let (nr, nc) = grid_dim(&a.data);
    let mut out = grid_filled(nr, nc, FALSE_BITS);
    proof { lemma_filled_at(out, FALSE_BITS); }
    let mut i: usize = 0;
    while i < nr
        invariant
            a.wf(),
            b.wf(),
            nr == a.dates@.len(),
            nc == a.symbols@.len(),
            b.dates@.len() == nr,
            b.symbols@.len() == nc,
            i <= nr,
            grid_shape(out) == (nr as nat, nc as nat),
            grid_wf(out),
            forall|p: int, q: int| 0 <= p < nr && 0 <= q < nc ==> #[trigger] grid_at(out, p, q) == if p < i {
                bool_cell(combine(op, is_true(a.at(p, q)), is_true(b.at(p, q))))
            } else {
                FALSE_BITS
            },
        decreases nr - i,
    {
        let mut j: usize = 0;
        while j < nc
            invariant
                a.wf(),
                b.wf(),
                nr == a.dates@.len(),
                nc == a.symbols@.len(),
                b.dates@.len() == nr,
                b.symbols@.len() == nc,
                i < nr,
                j <= nc,
                grid_shape(out) == (nr as nat, nc as nat),
                grid_wf(out),
                forall|p: int, q: int| 0 <= p < nr && 0 <= q < nc ==> #[trigger] grid_at(out, p, q) == if p < i
                    || (p == i && q < j) {
                    bool_cell(combine(op, is_true(a.at(p, q)), is_true(b.at(p, q))))
                } else {
                    FALSE_BITS
                },
            decreases nc - j,
        {
            let x = a.cell(i, j) == TRUE_BITS;
            let y = b.cell(i, j) == TRUE_BITS;
            let v = match op {
                BoolOp::And => x && y,
                BoolOp::Or => x || y,
            };
            let bits = if v { TRUE_BITS } else { FALSE_BITS };
            let ghost before = out;
            grid_set(&mut out, i, j, bits);
            proof { lemma_set_at(before, out, i as int, j as int, bits); }
            j = j + 1;
        }
        i = i + 1;
    }
    let symbols = clone_names(&a.symbols);
    proof {
        assert(names(symbols@).len() == symbols@.len());
        assert(names(a.symbols@).len() == a.symbols@.len());
    }
    Panel { dates: a.dates.clone(), symbols, data: out }
}

/// The cell-wise `op` of two panels after aligning them (rows: the sorted
/// union of their days; columns: the first panel's symbols that the second
/// also has), a missing side reading false.
pub open spec fn aligned_op(r: &Panel, a: &Panel, b: &Panel, op: BoolOp) -> bool {
    &&& r.wf()
    &&& strictly_ascending(r.dates@)
    &&& forall|y: i32| r.dates@.contains(y) <==> (a.dates@.contains(y) || b.dates@.contains(y))
    &&& names(r.symbols@) == spec_common_names(names(a.symbols@), names(b.symbols@))
    &&& forall|i: int, j: int| 0 <= i < r.dates@.len() && 0 <= j < r.symbols@.len() ==> #[trigger] r.at(i, j)
        == bool_cell(combine(op, is_true(projected(a, r.dates@[i], r.symbols@[j]@)), is_true(
            projected(b, r.dates@[i], r.symbols@[j]@),
        )))
}

fn aligned(a: &Panel, b: &Panel, op: BoolOp) -> (r: Panel)
    requires
        a.wf(),
        b.wf(),
        a.dates@.len() + b.dates@.len() <= isize::MAX,
        (a.dates@.len() + b.dates@.len()) * a.symbols@.len() <= isize::MAX,
    ensures
        aligned_op(&r, a, b, op),
{
    let (pa, pb) = align(a, b);
    proof {
        assert(names(pa.symbols@).len() == pa.symbols@.len());
        assert(names(pb.symbols@).len() == pb.symbols@.len());
        assert(pa.dates@.len() <= a.dates@.len() + b.dates@.len()) by {
            lemma_distinct_subset_len(pa.dates@, a.dates@, b.dates@);
        }
        lemma_common_names_len(names(a.symbols@), names(b.symbols@));
        assert(names(a.symbols@).len() == a.symbols@.len());
        assert(pa.dates@.len() * pa.symbols@.len() <= (a.dates@.len() + b.dates@.len()) * a.symbols@.len()) by (nonlinear_arith)
            requires
                pa.dates@.len() <= a.dates@.len() + b.dates@.len(),
                pa.symbols@.len() <= a.symbols@.len(),
        ;
    }
    let r = zip_cells(&pa, &pb, op);
    proof {
        assert forall|i: int, j: int| 0 <= i < r.dates@.len() && 0 <= j < r.symbols@.len() implies #[trigger] r.at(i, j)
            == bool_cell(combine(op, is_true(projected(a, r.dates@[i], r.symbols@[j]@)), is_true(
                projected(b, r.dates@[i], r.symbols@[j]@),
            ))) by {
            assert(names(r.symbols@)[j] == names(pa.symbols@)[j]);
            assert(names(pb.symbols@)[j] == names(pa.symbols@)[j]);
            assert(r.symbols@[j]@ == pa.symbols@[j]@);
            assert(pb.symbols@[j]@ == pa.symbols@[j]@);
        }
    }
    r
}

/// The cells of `a` where `b` is true, missing elsewhere; two panels of one
/// shape, on the axes of the first.
fn mask_cells(a: &Panel, b: &Panel) -> (r: Panel)
    requires
        a.wf(),
        b.wf(),
        b.dates@.len() == a.dates@.len(),
        b.symbols@.len() == a.symbols@.len(),
        a.dates@.len() * a.symbols@.len() <= isize::MAX,
    ensures
        r.wf(),
        r.dates@ == a.dates@,
        names(r.symbols@) == names(a.symbols@),
        forall|i: int, j: int| 0 <= i < a.dates@.len() && 0 <= j < a.symbols@.len() ==> #[trigger] r.at(i, j)
            == if is_true(b.at(i, j)) { a.at(i, j) } else { MISSING },
{
    let (nr, nc) = grid_dim(&a.data);
    let mut out = grid_filled(nr, nc, MISSING);
    proof { lemma_filled_at(out, MISSING); }
    let mut i: usize = 0;
    while i < nr
        invariant
            a.wf(),
            b.wf(),
            nr == a.dates@.len(),
            nc == a.symbols@.len(),
            b.dates@.len() == nr,
            b.symbols@.len() == nc,
            i <= nr,
            grid_shape(out) == (nr as nat, nc as nat),
            grid_wf(out),
            forall|p: int, q: int| 0 <= p < nr && 0 <= q < nc ==> #[trigger] grid_at(out, p, q) == if p < i
                && is_true(b.at(p, q)) {
                a.at(p, q)
            } else {
                MISSING
            },
        decreases nr - i,
    {
        let mut j: usize = 0;
        while j < nc
            invariant
                a.wf(),
                b.wf(),
                nr == a.dates@.len(),
                nc == a.symbols@.len(),
                b.dates@.len() == nr,
                b.symbols@.len() == nc,
                i < nr,
                j <= nc,
                grid_shape(out) == (nr as nat, nc as nat),
                grid_wf(out),
                forall|p: int, q: int| 0 <= p < nr && 0 <= q < nc ==> #[trigger] grid_at(out, p, q) == if (p < i
                    || (p == i && q < j)) && is_true(b.at(p, q)) {
                    a.at(p, q)
                } else {
                    MISSING
                },
            decreases nc - j,
        {
            if b.cell(i, j) == TRUE_BITS {
                let v = a.cell(i, j);
                let ghost before = out;
                grid_set(&mut out, i, j, v);
                proof { lemma_set_at(before, out, i as int, j as int, v); }
            }
            j = j + 1;
        }
        i = i + 1;
    }
    let symbols = clone_names(&a.symbols);
    proof {
        assert(names(symbols@).len() == symbols@.len());
        assert(names(a.symbols@).len() == a.symbols@.len());
    }
    Panel { dates: a.dates.clone(), symbols, data: out }
}

/// `r` is `a` masked by `b` after aligning the two (rows: the sorted union
/// of their days; columns: the symbols of `a` that `b` also has): the cell
/// of `a` where `b` holds `1.0`, missing elsewhere (and where `a` has none).
pub open spec fn masked(r: &Panel, a: &Panel, b: &Panel) -> bool {
    &&& r.wf()
    &&& strictly_ascending(r.dates@)
    &&& forall|y: i32| r.dates@.contains(y) <==> (a.dates@.contains(y) || b.dates@.contains(y))
    &&& names(r.symbols@) == spec_common_names(names(a.symbols@), names(b.symbols@))
    &&& forall|i: int, j: int| 0 <= i < r.dates@.len() && 0 <= j < r.symbols@.len() ==> #[trigger] r.at(i, j)
        == if is_true(projected(b, r.dates@[i], r.symbols@[j]@)) {
            projected(a, r.dates@[i], r.symbols@[j]@)
        } else {
            MISSING
        }
}

/// The sector an industry table gives a symbol: that of its first entry.
pub open spec fn sector_of(industry: Seq<(String, String)>, sym: Seq<char>) -> Option<Seq<char>>
    decreases industry.len(),
{
    if industry.len() == 0 {
        None
    } else if industry[0].0@ == sym {
        Some(industry[0].1@)
    } else {
        sector_of(industry.drop_first(), sym)
    }
}

proof fn lemma_sector_at(industry: Seq<(String, String)>, sym: Seq<char>, i: int)
    requires
        0 <= i <= industry.len(),
        forall|j: int| 0 <= j < i ==> (#[trigger] industry[j]).0@ != sym,
        i < industry.len() ==> industry[i].0@ == sym,
    ensures
        sector_of(industry, sym) == if i < industry.len() { Some(industry[i].1@) } else { None },
    decreases i,
{
    if i > 0 {
        let t = industry.drop_first();
        assert forall|j: int| 0 <= j < i - 1 implies (#[trigger] t[j]).0@ != sym by {
            assert(t[j] == industry[j + 1]);
        }
        assert(industry[0].0@ != sym);
        lemma_sector_at(t, sym, i - 1);
    }
}

/// `sym` belongs to sector `name` (exactly, case included).
fn in_named_sector(industry: &Vec<(String, String)>, sym: &str, name: &str) -> (r: bool)
    ensures
        r == (sector_of(industry@, sym@) == Some(name@)),
{
    let mut i: usize = 0;
    while i < industry.len()
        invariant
            i <= industry@.len(),
            forall|j: int| 0 <= j < i ==> (#[trigger] industry@[j]).0@ != sym@,
        decreases industry@.len() - i,
    {
        if str_eq(industry[i].0.as_str(), sym) {
            proof {
                lemma_sector_at(industry@, sym@, i as int);
            }
            return str_eq(industry[i].1.as_str(), name);
        }
        i = i + 1;
    }
    proof {
        lemma_sector_at(industry@, sym@, i as int);
    }
    false
}

/// The sector of a symbol the industry table lacks.
pub const OTHER_SECTOR: &'static str = "其他";

/// The sector a grouping files a symbol under: its table entry, else
/// [`OTHER_SECTOR`].
pub open spec fn category(industry: Seq<(String, String)>, sym: Seq<char>) -> Seq<char> {
    match sector_of(industry, sym) {
        Some(s) => s,
        None => OTHER_SECTOR@,
    }
}

/// The distinct entries of `s`, in order of first appearance.
pub open spec fn first_seen(s: Seq<Seq<char>>) -> Seq<Seq<char>>
    decreases s.len(),
{
    if s.len() == 0 {
        Seq::empty()
    } else {
        let p = first_seen(s.drop_last());
        if p.contains(s.last()) {
            p
        } else {
            p.push(s.last())
        }
    }
}

/// The columns (in order) whose category is `key`.
pub open spec fn members(cols: Seq<usize>, cats: Seq<Seq<char>>, key: Seq<char>) -> Seq<usize>
    decreases cols.len(),
{
    if cols.len() == 0 || cats.len() != cols.len() {
        Seq::empty()
    } else {
        let rest = members(cols.drop_last(), cats.drop_last(), key);
        if cats.last() == key {
            rest.push(cols.last())
        } else {
            rest
        }
    }
}

/// The sector of `sym` in the table, when it has one.
fn sector_name<'a>(industry: &'a Vec<(String, String)>, sym: &str) -> (r: Option<&'a String>)
    ensures
        match r {
            Some(s) => sector_of(industry@, sym@) == Some(s@),
            None => sector_of(industry@, sym@) is None,
        },
{
    let mut i: usize = 0;
    while i < industry.len()
        invariant
            i <= industry@.len(),
            forall|j: int| 0 <= j < i ==> (#[trigger] industry@[j]).0@ != sym@,
        decreases industry@.len() - i,
    {
        if str_eq(industry[i].0.as_str(), sym) {
            proof {
                lemma_sector_at(industry@, sym@, i as int);
            }
            return Some(&industry[i].1);
        }
        i = i + 1;
    }
    proof {
        lemma_sector_at(industry@, sym@, i as int);
    }
    None
}

fn contains_name(v: &Vec<String>, x: &str) -> (r: bool)
    ensures
        r == names(v@).contains(x@),
{
    let mut i: usize = 0;
    while i < v.len()
        invariant
            i <= v@.len(),
            forall|j: int| 0 <= j < i ==> (#[trigger] v@[j])@ != x@,
        decreases v@.len() - i,
    {
        if str_eq(v[i].as_str(), x) {
            assert(names(v@)[i as int] == x@);
            return true;
        }
        i = i + 1;
    }
    proof {
        if names(v@).contains(x@) {
            let j = choose|j: int| 0 <= j < names(v@).len() && names(v@)[j] == x@;
            assert(v@[j]@ == x@);
        }
    }
    false
}

impl Panel {
    /// Group the columns `valid_cols` by sector (see [`category`]): one
    /// group per sector in order of first appearance, each holding its
    /// columns in the order given.
    pub fn group_cols_by_industry(&self, industry: &Vec<(String, String)>, valid_cols: &Vec<usize>) -> (r: Vec<(String, Vec<usize>)>)
        requires
            forall|i: int| 0 <= i < valid_cols@.len() ==> (#[trigger] valid_cols@[i]) < self.symbols@.len(),
        ensures
            ({
                let cats = Seq::new(valid_cols@.len(), |i: int| category(industry@, self.symbols@[valid_cols@[i] as int]@));
                &&& r@.len() == first_seen(cats).len()
                &&& forall|k: int| 0 <= k < r@.len() ==> (#[trigger] r@[k]).0@ == first_seen(cats)[k]
                    && r@[k].1@ == members(valid_cols@, cats, first_seen(cats)[k])
            }),
    {
        let ghost cats = Seq::new(valid_cols@.len(), |i: int| category(industry@, self.symbols@[valid_cols@[i] as int]@));
        // The category of each column.
        let mut cat_names: Vec<String> = Vec::new();
        let mut i: usize = 0;
        while i < valid_cols.len()
            invariant
                forall|q: int| 0 <= q < valid_cols@.len() ==> (#[trigger] valid_cols@[q]) < self.symbols@.len(),
                cats == Seq::new(valid_cols@.len(), |i: int| category(industry@, self.symbols@[valid_cols@[i] as int]@)),
                i <= valid_cols@.len(),
                cat_names@.len() == i,
                forall|j: int| 0 <= j < i ==> (#[trigger] cat_names@[j])@ == cats[j],
            decreases valid_cols@.len() - i,
        {
            let c = valid_cols[i];
            let cat = match sector_name(industry, self.symbols[c].as_str()) {
                Some(s) => s.clone(),
                None => String::from_str(OTHER_SECTOR),
            };
            cat_names.push(cat);
            i = i + 1;
        }
        proof {
            assert(names(cat_names@) =~= cats);
        }
        // The distinct categories, in order of first appearance.
        let mut keys: Vec<String> = Vec::new();
        let mut i: usize = 0;
        while i < cat_names.len()
            invariant
                names(cat_names@) == cats,
                i <= cat_names@.len(),
                names(keys@) == first_seen(cats.subrange(0, i as int)),
            decreases cat_names@.len() - i,
        {
            let ghost pre = cats.subrange(0, i as int);
            let ghost next = cats.subrange(0, i + 1);
            proof {
                assert(next.drop_last() =~= pre);
                assert(next.last() == cats[i as int]);
                assert(names(cat_names@)[i as int] == cat_names@[i as int]@);
            }
            if !contains_name(&keys, cat_names[i].as_str()) {
                keys.push(cat_names[i].clone());
                proof {
                    assert(names(keys@) =~= first_seen(pre).push(cats[i as int]));
                }
            }
            i = i + 1;
        }
        proof {
            assert(cats.subrange(0, cats.len() as int) =~= cats);
        }
        // Each category's columns.
        let mut out: Vec<(String, Vec<usize>)> = Vec::new();
        let mut k: usize = 0;
        while k < keys.len()
            invariant
                names(cat_names@) == cats,
                cat_names@.len() == valid_cols@.len(),
                names(keys@) == first_seen(cats),
                k <= keys@.len(),
                out@.len() == k,
                forall|q: int| 0 <= q < k ==> (#[trigger] out@[q]).0@ == first_seen(cats)[q]
                    && out@[q].1@ == members(valid_cols@, cats, first_seen(cats)[q]),
            decreases keys@.len() - k,
        {
            let key = keys[k].as_str();
            proof {
                assert(names(keys@)[k as int] == keys@[k as int]@);
            }
            let mut cols: Vec<usize> = Vec::new();
            let mut i: usize = 0;
            while i < valid_cols.len()
                invariant
                    names(cat_names@) == cats,
                    cat_names@.len() == valid_cols@.len(),
                    i <= valid_cols@.len(),
                    cols@ == members(valid_cols@.subrange(0, i as int), cats.subrange(0, i as int), key@),
                decreases valid_cols@.len() - i,
            {
                let ghost vc = valid_cols@.subrange(0, i + 1);
                let ghost cs = cats.subrange(0, i + 1);
                proof {
                    assert(vc.drop_last() =~= valid_cols@.subrange(0, i as int));
                    assert(cs.drop_last() =~= cats.subrange(0, i as int));
                    assert(names(cat_names@)[i as int] == cat_names@[i as int]@);
                }
                if str_eq(cat_names[i].as_str(), key) {
                    cols.push(valid_cols[i]);
                }
                i = i + 1;
            }
            proof {
                assert(valid_cols@.subrange(0, valid_cols@.len() as int) =~= valid_cols@);
                assert(cats.subrange(0, cats.len() as int) =~= cats);
            }
            out.push((keys[k].clone(), cols));
            k = k + 1;
        }
        out
    }

    /// Membership of a named sector, on the axes of `self`: every row of a
    /// column is `1.0` when the industry table (symbol, sector) puts its
    /// symbol exactly in `name`, else `0.0` (a symbol the table lacks is not
    /// a member).
    pub fn in_sector(&self, industry: &Vec<(String, String)>, name: &str) -> (r: Panel)
        requires
            self.wf(),
            self.dates@.len() * self.symbols@.len() <= isize::MAX,
        ensures
            r.wf(),
            r.dates@ == self.dates@,
            names(r.symbols@) == names(self.symbols@),
            forall|i: int, j: int| 0 <= i < self.dates@.len() && 0 <= j < self.symbols@.len() ==> #[trigger] r.at(i, j)
                == bool_cell(sector_of(industry@, self.symbols@[j]@) == Some(name@)),
    {
        let (nr, nc) = grid_dim(&self.data);
        let mut out = grid_filled(nr, nc, FALSE_BITS);
        proof { lemma_filled_at(out, FALSE_BITS); }
        let mut j: usize = 0;
        while j < nc
            invariant
                self.wf(),
                nr == self.dates@.len(),
                nc == self.symbols@.len(),
                j <= nc,
                grid_shape(out) == (nr as nat, nc as nat),
                grid_wf(out),
                forall|p: int, q: int| 0 <= p < nr && 0 <= q < nc ==> #[trigger] grid_at(out, p, q) == if q < j {
                    bool_cell(sector_of(industry@, self.symbols@[q]@) == Some(name@))
                } else {
                    FALSE_BITS
                },
            decreases nc - j,
        {
            let hit = in_named_sector(industry, self.symbols[j].as_str(), name);
            let bits = if hit { TRUE_BITS } else { FALSE_BITS };
            let mut i: usize = 0;
            while i < nr
                invariant
                    self.wf(),
                    nr == self.dates@.len(),
                    nc == self.symbols@.len(),
                    j < nc,
                    i <= nr,
                    bits == bool_cell(sector_of(industry@, self.symbols@[j as int]@) == Some(name@)),
                    grid_shape(out) == (nr as nat, nc as nat),
                    grid_wf(out),
                    forall|p: int, q: int| 0 <= p < nr && 0 <= q < nc ==> #[trigger] grid_at(out, p, q) == if q < j
                        || (q == j && p < i) {
                        bool_cell(sector_of(industry@, self.symbols@[q]@) == Some(name@))
                    } else {
                        FALSE_BITS
                    },
                decreases nr - i,
            {
                let ghost before = out;
                grid_set(&mut out, i, j, bits);
                proof { lemma_set_at(before, out, i as int, j as int, bits); }
                i = i + 1;
            }
            j = j + 1;
        }
        let symbols = clone_names(&self.symbols);
        proof {
            assert(names(symbols@).len() == symbols@.len());
            assert(names(self.symbols@).len() == self.symbols@.len());
        }
        Panel { dates: self.dates.clone(), symbols, data: out }
    }

    /// Keep the cells where `by` is true (`1.0`), missing elsewhere: a
    /// boolean mask over the aligned panels (see [`masked`]).
    pub fn mask(&self, by: &Panel) -> (r: Panel)
        requires
            self.wf(),
            by.wf(),
            self.dates@.len() + by.dates@.len() <= isize::MAX,
            (self.dates@.len() + by.dates@.len()) * self.symbols@.len() <= isize::MAX,
        ensures
            masked(&r, self, by),
    {
        let (pa, pb) = align(self, by);
        proof {
            assert(names(pa.symbols@).len() == pa.symbols@.len());
            assert(names(pb.symbols@).len() == pb.symbols@.len());
            assert(pa.dates@.len() <= self.dates@.len() + by.dates@.len()) by {
                lemma_distinct_subset_len(pa.dates@, self.dates@, by.dates@);
            }
            lemma_common_names_len(names(self.symbols@), names(by.symbols@));
            assert(names(self.symbols@).len() == self.symbols@.len());
            assert(pa.dates@.len() * pa.symbols@.len() <= (self.dates@.len() + by.dates@.len()) * self.symbols@.len())
                by (nonlinear_arith)
                requires
                    pa.dates@.len() <= self.dates@.len() + by.dates@.len(),
                    pa.symbols@.len() <= self.symbols@.len(),
            ;
        }
        let r = mask_cells(&pa, &pb);
        proof {
            assert forall|i: int, j: int| 0 <= i < r.dates@.len() && 0 <= j < r.symbols@.len() implies #[trigger] r.at(i, j)
                == if is_true(projected(by, r.dates@[i], r.symbols@[j]@)) {
                    projected(self, r.dates@[i], r.symbols@[j]@)
                } else {
                    MISSING
                } by {
                assert(names(r.symbols@)[j] == names(pa.symbols@)[j]);
                assert(names(pb.symbols@)[j] == names(pa.symbols@)[j]);
                assert(r.symbols@[j]@ == pa.symbols@[j]@);
                assert(pb.symbols@[j]@ == pa.symbols@[j]@);
            }
        }
        r
    }

    /// Cell-wise negation: true where the cell is not `1.0`.
    pub fn not(&self) -> (r: Panel)
        requires
            self.wf(),
            self.dates@.len() * self.symbols@.len() <= isize::MAX,
        ensures
            r.wf(),
            r.dates@ == self.dates@,
            names(r.symbols@) == names(self.symbols@),
            forall|i: int, j: int| 0 <= i < self.dates@.len() && 0 <= j < self.symbols@.len() ==> #[trigger] r.at(i, j)
                == bool_cell(!is_true(self.at(i, j))),
    {
        let (nr, nc) = grid_dim(&self.data);
        let mut out = grid_filled(nr, nc, FALSE_BITS);
        proof { lemma_filled_at(out, FALSE_BITS); }
        let mut i: usize = 0;
        while i < nr
            invariant
                self.wf(),
                nr == self.dates@.len(),
                nc == self.symbols@.len(),
                i <= nr,
                grid_shape(out) == (nr as nat, nc as nat),
                grid_wf(out),
                forall|p: int, q: int| 0 <= p < nr && 0 <= q < nc ==> #[trigger] grid_at(out, p, q) == if p < i {
                    bool_cell(!is_true(self.at(p, q)))
                } else {
                    FALSE_BITS
                },
            decreases nr - i,
        {
            let mut j: usize = 0;
            while j < nc
                invariant
                    self.wf(),
                    nr == self.dates@.len(),
                    nc == self.symbols@.len(),
                    i < nr,
                    j <= nc,
                    grid_shape(out) == (nr as nat, nc as nat),
                    grid_wf(out),
                    forall|p: int, q: int| 0 <= p < nr && 0 <= q < nc ==> #[trigger] grid_at(out, p, q) == if p < i
                        || (p == i && q < j) {
                        bool_cell(!is_true(self.at(p, q)))
                    } else {
                        FALSE_BITS
                    },
                decreases nc - j,
            {
                let bits = if self.cell(i, j) == TRUE_BITS { FALSE_BITS } else { TRUE_BITS };
                let ghost before = out;
                grid_set(&mut out, i, j, bits);
                proof { lemma_set_at(before, out, i as int, j as int, bits); }
                j = j + 1;
            }
            i = i + 1;
        }
        let symbols = clone_names(&self.symbols);
        proof {
            assert(names(symbols@).len() == symbols@.len());
            assert(names(self.symbols@).len() == self.symbols@.len());
        }
        Panel { dates: self.dates.clone(), symbols, data: out }
    }

    /// Cell-wise conjunction of the aligned panels (see [`aligned_op`]).
    pub fn and(&self, o: &Panel) -> (r: Panel)
        requires
            self.wf(),
            o.wf(),
            self.dates@.len() + o.dates@.len() <= isize::MAX,
            (self.dates@.len() + o.dates@.len()) * self.symbols@.len() <= isize::MAX,
        ensures
            aligned_op(&r, self, o, BoolOp::And),
    {
        aligned(self, o, BoolOp::And)
    }

    /// Cell-wise disjunction of the aligned panels (see [`aligned_op`]).
    pub fn or(&self, o: &Panel) -> (r: Panel)
        requires
            self.wf(),
            o.wf(),
            self.dates@.len() + o.dates@.len() <= isize::MAX,
            (self.dates@.len() + o.dates@.len()) * self.symbols@.len() <= isize::MAX,
        ensures
            aligned_op(&r, self, o, BoolOp::Or),
    {
        aligned(self, o, BoolOp::Or)
    }

    /// Lag a boolean panel by `n` rows: row `i` is true when row `i - n` was;
    /// the first `n` rows are false.
    pub fn shift_false(&self, n: usize) -> (r: Panel)
        requires
            self.wf(),
            self.dates@.len() * self.symbols@.len() <= isize::MAX,
        ensures
            r.wf(),
            r.dates@ == self.dates@,
            names(r.symbols@) == names(self.symbols@),
            forall|i: int, j: int| 0 <= i < self.dates@.len() && 0 <= j < self.symbols@.len() ==> #[trigger] r.at(i, j)
                == bool_cell(i >= n && is_true(self.at(i - n, j))),
    {
        let (nr, nc) = grid_dim(&self.data);
        let mut out = grid_filled(nr, nc, FALSE_BITS);
        proof { lemma_filled_at(out, FALSE_BITS); }
        let mut i: usize = 0;
        while i < nr
            invariant
                self.wf(),
                nr == self.dates@.len(),
                nc == self.symbols@.len(),
                i <= nr,
                grid_shape(out) == (nr as nat, nc as nat),
                grid_wf(out),
                forall|p: int, q: int| 0 <= p < nr && 0 <= q < nc ==> #[trigger] grid_at(out, p, q) == if p < i {
                    bool_cell(p >= n && is_true(self.at(p - n, q)))
                } else {
                    FALSE_BITS
                },
            decreases nr - i,
        {
            let mut j: usize = 0;
            while j < nc
                invariant
                    self.wf(),
                    nr == self.dates@.len(),
                    nc == self.symbols@.len(),
                    i < nr,
                    j <= nc,
                    grid_shape(out) == (nr as nat, nc as nat),
                    grid_wf(out),
                    forall|p: int, q: int| 0 <= p < nr && 0 <= q < nc ==> #[trigger] grid_at(out, p, q) == if p < i
                        || (p == i && q < j) {
                        bool_cell(p >= n && is_true(self.at(p - n, q)))
                    } else {
                        FALSE_BITS
                    },
                decreases nc - j,
            {
                let bits = if i >= n && self.cell(i - n, j) == TRUE_BITS { TRUE_BITS } else { FALSE_BITS };
                let ghost before = out;
                grid_set(&mut out, i, j, bits);
                proof { lemma_set_at(before, out, i as int, j as int, bits); }
                j = j + 1;
            }
            i = i + 1;
        }
        let symbols = clone_names(&self.symbols);
        proof {
            assert(names(symbols@).len() == symbols@.len());
            assert(names(self.symbols@).len() == self.symbols@.len());
        }
        Panel { dates: self.dates.clone(), symbols, data: out }
    }
}


// ---------------------------------------------------------------------------
// Edges, persistence, hold state
// ---------------------------------------------------------------------------

/// The cell of a panel at day `d` and symbol `s` (its last row of the day
/// and last column of the symbol) is true, and the row before it is not.
pub open spec fn rising(p: &Panel, d: i32, s: Seq<char>) -> bool {
    match (last_row_of(p.dates@, d), last_name_of(names(p.symbols@), s)) {
        (Some(k), Some(c)) => is_true(p.at(k, c)) && !(k >= 1 && is_true(p.at(k - 1, c))),
        _ => false,
    }
}

/// The cell at day `d` and symbol `s` is not true, and the row before it is.
pub open spec fn falling(p: &Panel, d: i32, s: Seq<char>) -> bool {
    match (last_row_of(p.dates@, d), last_name_of(names(p.symbols@), s)) {
        (Some(k), Some(c)) => !is_true(p.at(k, c)) && (k >= 1 && is_true(p.at(k - 1, c))),
        _ => false,
    }
}

/// The days of a list, ascending and without repeats.
pub open spec fn sorted_days(s: Seq<i32>) -> Seq<i32> {
    choose|u: Seq<i32>| strictly_ascending(u) && forall|y: i32| #[trigger] u.contains(y) <==> s.contains(y)
}

/// The edge panels have the axes of an aligned pair of copies of `p`.
pub open spec fn edge_axes(r: &Panel, p: &Panel) -> bool {
    &&& r.wf()
    &&& r.dates@ == sorted_days(p.dates@)
    &&& strictly_ascending(r.dates@)
    &&& forall|y: i32| r.dates@.contains(y) <==> p.dates@.contains(y)
    &&& names(r.symbols@) == spec_common_names(names(p.symbols@), names(p.symbols@))
}

proof fn lemma_sorted_days(u: Seq<i32>, s: Seq<i32>)
    requires
        strictly_ascending(u),
        forall|y: i32| u.contains(y) <==> s.contains(y),
    ensures
        sorted_days(s) == u,
{
    assert(exists|w: Seq<i32>| strictly_ascending(w) && forall|y: i32| #[trigger] w.contains(y) <==> s.contains(y)) by {
        assert(forall|y: i32| #[trigger] u.contains(y) <==> s.contains(y));
    }
    let w = sorted_days(s);
    lemma_ascending_unique(w, u);
}

proof fn lemma_common_contains(a: Seq<Seq<char>>, b: Seq<Seq<char>>, y: Seq<char>)
    ensures
        spec_common_names(a, b).contains(y) <==> (a.contains(y) && b.contains(y)),
    decreases a.len(),
{
    if a.len() > 0 {
        let init = a.drop_last();
        lemma_common_contains(init, b, y);
        let r = spec_common_names(init, b);
        let k = spec_common_names(a, b);
        if k.contains(y) {
            let j = choose|j: int| 0 <= j < k.len() && k[j] == y;
            if b.contains(a.last()) && j == r.len() {
                assert(a[a.len() - 1] == y);
            } else {
                assert(r[j] == y);
                let q = choose|q: int| 0 <= q < init.len() && init[q] == y;
                assert(a[q] == y);
            }
        }
        if a.contains(y) && b.contains(y) {
            let j = choose|j: int| 0 <= j < a.len() && a[j] == y;
            if j == a.len() - 1 {
                assert(k[r.len() as int] == y);
            } else {
                assert(init[j] == y);
                let q = choose|q: int| 0 <= q < r.len() && r[q] == y;
                assert(k[q] == y);
            }
        }
    }
}

proof fn lemma_found(dates: Seq<i32>, d: i32, v: Seq<Seq<char>>, s: Seq<char>)
    ensures
        last_row_of(dates, d) matches Some(k) ==> 0 <= k < dates.len() && dates[k] == d,
        last_name_of(v, s) matches Some(c) ==> 0 <= c < v.len() && v[c] == s,
{
    if exists|i: int| 0 <= i < dates.len() && dates[i] == d {
        let i = choose|i: int| 0 <= i < dates.len() && dates[i] == d;
        assert(exists|k: int| 0 <= k < dates.len() && dates[k] == d && forall|q: int| k < q < dates.len() ==> dates[q] != d) by {
            lemma_last_occurrence_i32(dates, d, i);
        }
    }
    if exists|i: int| 0 <= i < v.len() && v[i] == s {
        let i = choose|i: int| 0 <= i < v.len() && v[i] == s;
        assert(exists|k: int| 0 <= k < v.len() && v[k] == s && forall|q: int| k < q < v.len() ==> v[q] != s) by {
            lemma_last_occurrence_name(v, s, i);
        }
    }
}

proof fn lemma_last_occurrence_i32(v: Seq<i32>, x: i32, i: int)
    requires
        0 <= i < v.len(),
        v[i] == x,
    ensures
        exists|k: int| 0 <= k < v.len() && v[k] == x && forall|q: int| k < q < v.len() ==> v[q] != x,
    decreases v.len() - i,
{
    if exists|q: int| i < q < v.len() && v[q] == x {
        let q = choose|q: int| i < q < v.len() && v[q] == x;
        lemma_last_occurrence_i32(v, x, q);
    } else {
        assert(forall|q: int| i < q < v.len() ==> v[q] != x);
    }
}

proof fn lemma_last_occurrence_name(v: Seq<Seq<char>>, x: Seq<char>, i: int)
    requires
        0 <= i < v.len(),
        v[i] == x,
    ensures
        exists|k: int| 0 <= k < v.len() && v[k] == x && forall|q: int| k < q < v.len() ==> v[q] != x,
    decreases v.len() - i,
{
    if exists|q: int| i < q < v.len() && v[q] == x {
        let q = choose|q: int| i < q < v.len() && v[q] == x;
        lemma_last_occurrence_name(v, x, q);
    } else {
        assert(forall|q: int| i < q < v.len() ==> v[q] != x);
    }
}

impl Panel {
    /// Rising edges: true where the cell is true and the row before it is
    /// not (see [`rising`]), on the aligned axes of the panel with itself.
    pub fn is_entry(&self) -> (r: Panel)
        requires
            self.wf(),
            self.dates@.len() + self.dates@.len() <= isize::MAX,
            (self.dates@.len() + self.dates@.len()) * self.symbols@.len() <= isize::MAX,
        ensures
            edge_axes(&r, self),
            forall|i: int, j: int| 0 <= i < r.dates@.len() && 0 <= j < r.symbols@.len() ==> #[trigger] r.at(i, j)
                == bool_cell(rising(self, r.dates@[i], r.symbols@[j]@)),
    {
        proof {
            assert(self.dates@.len() * self.symbols@.len() <= (self.dates@.len() + self.dates@.len()) * self.symbols@.len())
                by (nonlinear_arith);
        }
        let prev = self.shift_false(1);
        proof {
            assert(names(prev.symbols@).len() == prev.symbols@.len());
            assert(names(self.symbols@).len() == self.symbols@.len());
        }
        let fresh = prev.not();
        proof {
            assert(names(fresh.symbols@).len() == fresh.symbols@.len());
            assert(names(self.symbols@).len() == self.symbols@.len());
        }
        let r = self.and(&fresh);
        proof {
            lemma_sorted_days(r.dates@, self.dates@);
            assert forall|i: int, j: int| 0 <= i < r.dates@.len() && 0 <= j < r.symbols@.len() implies #[trigger] r.at(i, j)
                == bool_cell(rising(self, r.dates@[i], r.symbols@[j]@)) by {
                let d = r.dates@[i];
                let s = r.symbols@[j]@;
                lemma_found(self.dates@, d, names(self.symbols@), s);
                assert(fresh.dates@ == self.dates@);
                assert(names(fresh.symbols@) == names(self.symbols@));
                match (last_row_of(self.dates@, d), last_name_of(names(self.symbols@), s)) {
                    (Some(k), Some(c)) => {
                        assert(names(self.symbols@)[c] == s);
                        assert(fresh.at(k, c) == bool_cell(!is_true(prev.at(k, c))));
                        assert(prev.at(k, c) == bool_cell(k >= 1 && is_true(self.at(k - 1, c))));
                    },
                    _ => {},
                }
            }
        }
        r
    }

    /// Falling edges: true where the cell is not true and the row before it
    /// is (see [`falling`]), on the aligned axes of the panel with itself.
    pub fn is_exit(&self) -> (r: Panel)
        requires
            self.wf(),
            self.dates@.len() + self.dates@.len() <= isize::MAX,
            (self.dates@.len() + self.dates@.len()) * self.symbols@.len() <= isize::MAX,
        ensures
            edge_axes(&r, self),
            forall|i: int, j: int| 0 <= i < r.dates@.len() && 0 <= j < r.symbols@.len() ==> #[trigger] r.at(i, j)
                == bool_cell(falling(self, r.dates@[i], r.symbols@[j]@)),
    {
        proof {
            assert(self.dates@.len() * self.symbols@.len() <= (self.dates@.len() + self.dates@.len()) * self.symbols@.len())
                by (nonlinear_arith);
        }
        let neg = self.not();
        let prev = self.shift_false(1);
        proof {
            assert(names(neg.symbols@).len() == neg.symbols@.len());
            assert(names(self.symbols@).len() == self.symbols@.len());
        }
        let r = neg.and(&prev);
        proof {
            lemma_sorted_days(r.dates@, self.dates@);
            assert forall|i: int, j: int| 0 <= i < r.dates@.len() && 0 <= j < r.symbols@.len() implies #[trigger] r.at(i, j)
                == bool_cell(falling(self, r.dates@[i], r.symbols@[j]@)) by {
                let d = r.dates@[i];
                let s = r.symbols@[j]@;
                lemma_found(self.dates@, d, names(self.symbols@), s);
                match (last_row_of(self.dates@, d), last_name_of(names(self.symbols@), s)) {
                    (Some(k), Some(c)) => {
                        assert(names(self.symbols@)[c] == s);
                        assert(neg.at(k, c) == bool_cell(!is_true(self.at(k, c))));
                        assert(prev.at(k, c) == bool_cell(k >= 1 && is_true(self.at(k - 1, c))));
                    },
                    _ => {},
                }
            }
        }
        r
    }
}

/// Number of true cells of column `c` in rows `lo..hi`.
pub open spec fn count_true(p: &Panel, c: int, lo: int, hi: int) -> nat
    decreases hi - lo,
{
    if hi <= lo {
        0
    } else {
        count_true(p, c, lo, hi - 1) + if is_true(p.at(hi - 1, c)) { 1nat } else { 0nat }
    }
}

impl Panel {
    /// Persistence: row `i` is true when the window of the last `nwindow`
    /// rows (through `i`) is complete and holds at least `nsatisfy`
    /// (default `nwindow`) true cells.
    pub fn sustain(&self, nwindow: usize, nsatisfy: Option<usize>) -> (r: Panel)
        requires
            self.wf(),
            self.dates@.len() * self.symbols@.len() <= isize::MAX,
        ensures
            r.wf(),
            r.dates@ == self.dates@,
            names(r.symbols@) == names(self.symbols@),
            forall|i: int, j: int| 0 <= i < self.dates@.len() && 0 <= j < self.symbols@.len() ==> #[trigger] r.at(i, j)
                == bool_cell(i + 1 >= nwindow && count_true(self, j, i + 1 - nwindow, i + 1) >= match nsatisfy {
                    Some(k) => k,
                    None => nwindow,
                }),
    {
        let need = match nsatisfy {
            Some(k) => k,
            None => nwindow,
        };
        let (nr, nc) = grid_dim(&self.data);
        let mut out = grid_filled(nr, nc, FALSE_BITS);
        proof { lemma_filled_at(out, FALSE_BITS); }
        let mut c: usize = 0;
        while c < nc
            invariant
                self.wf(),
                nr == self.dates@.len(),
                nc == self.symbols@.len(),
                c <= nc,
                grid_shape(out) == (nr as nat, nc as nat),
                grid_wf(out),
                forall|p: int, q: int| 0 <= p < nr && 0 <= q < nc ==> #[trigger] grid_at(out, p, q) == if q < c {
                    bool_cell(p + 1 >= nwindow && count_true(self, q, p + 1 - nwindow, p + 1) >= need)
                } else {
                    FALSE_BITS
                },
            decreases nc - c,
        {
            let mut r: usize = 0;
            while r < nr
                invariant
                    self.wf(),
                    nr == self.dates@.len(),
                    nc == self.symbols@.len(),
                    c < nc,
                    r <= nr,
                    grid_shape(out) == (nr as nat, nc as nat),
                    grid_wf(out),
                    forall|p: int, q: int| 0 <= p < nr && 0 <= q < nc ==> #[trigger] grid_at(out, p, q) == if q < c
                        || (q == c && p < r) {
                        bool_cell(p + 1 >= nwindow && count_true(self, q, p + 1 - nwindow, p + 1) >= need)
                    } else {
                        FALSE_BITS
                    },
                decreases nr - r,
            {
                let mut bits = FALSE_BITS;
                if r + 1 >= nwindow {
                    let lo = r + 1 - nwindow;
                    let mut k = lo;
                    let mut sum: usize = 0;
                    while k <= r
                        invariant
                            self.wf(),
                            nr == self.dates@.len(),
                            nc == self.symbols@.len(),
                            c < nc,
                            r < nr,
                            lo <= k <= r + 1,
                            sum == count_true(self, c as int, lo as int, k as int),
                            sum <= k - lo,
                        decreases r + 1 - k,
                    {
                        if self.cell(k, c) == TRUE_BITS {
                            sum = sum + 1;
                        }
                        k = k + 1;
                    }
                    if sum >= need {
                        bits = TRUE_BITS;
                    }
                }
                let ghost before = out;
                grid_set(&mut out, r, c, bits);
                proof { lemma_set_at(before, out, r as int, c as int, bits); }
                r = r + 1;
            }
            c = c + 1;
        }
        let symbols = clone_names(&self.symbols);
        proof {
            assert(names(symbols@).len() == symbols@.len());
            assert(names(self.symbols@).len() == self.symbols@.len());
        }
        Panel { dates: self.dates.clone(), symbols, data: out }
    }
}


/// Every name of `a` is a name of `b`.
pub open spec fn names_within(a: Seq<Seq<char>>, b: Seq<Seq<char>>) -> bool {
    forall|i: int| 0 <= i < a.len() ==> b.contains(#[trigger] a[i])
}

proof fn lemma_common_within(a: Seq<Seq<char>>, b: Seq<Seq<char>>)
    requires
        names_within(a, b),
    ensures
        spec_common_names(a, b) == a,
    decreases a.len(),
{
    if a.len() > 0 {
        let init = a.drop_last();
        assert(names_within(init, b)) by {
            assert forall|i: int| 0 <= i < init.len() implies b.contains(#[trigger] init[i]) by {
                assert(init[i] == a[i]);
            }
        }
        lemma_common_within(init, b);
        assert(b.contains(a[a.len() - 1]));
        assert(init.push(a.last()) =~= a);
    }
}

proof fn lemma_common_prefix_len(a: Seq<Seq<char>>, b: Seq<Seq<char>>)
    ensures
        spec_common_names(a, b).len() <= a.len(),
        spec_common_names(a, b).len() == a.len() ==> names_within(a, b),
    decreases a.len(),
{
    if a.len() > 0 {
        let init = a.drop_last();
        lemma_common_prefix_len(init, b);
        if spec_common_names(a, b).len() == a.len() {
            assert(b.contains(a.last()));
            assert forall|i: int| 0 <= i < a.len() implies b.contains(#[trigger] a[i]) by {
                if i < a.len() - 1 {
                    assert(init[i] == a[i]);
                    assert(names_within(init, b));
                }
            }
        }
    }
}

/// No day occurs twice.
pub open spec fn distinct_days(d: Seq<i32>) -> bool {
    forall|i: int, j: int| 0 <= i < j < d.len() ==> d[i] != d[j]
}

proof fn lemma_distinct_within_len(a: Seq<i32>, u: Seq<i32>)
    requires
        distinct_days(a),
        strictly_ascending(u),
        forall|y: i32| a.contains(y) ==> u.contains(y),
    ensures
        a.len() <= u.len(),
{
    let sa = a.to_set();
    let su = u.to_set();
    assert(sa.subset_of(su)) by {
        assert forall|y: i32| sa.contains(y) implies su.contains(y) by {
            assert(a.contains(y));
        }
    }
    vstd::seq_lib::seq_to_set_is_finite(u);
    vstd::set_lib::lemma_len_subset(sa, su);
    assert(a.no_duplicates());
    a.unique_seq_to_set();
    u.lemma_cardinality_of_set();
}

/// The hold state of column `c` after row `r` of [`Panel::exit_when`]:
/// entered on a rising edge of the panel, left on an exit signal (a
/// falling edge of the panel or a true cell of `exit`), kept otherwise,
/// and out before the first entry. Row `r` of the entry signal and of the
/// exit signal are read by position on their own (aligned) axes.
pub open spec fn exit_when_state(p: &Panel, exit: &Panel, c: int, r: int) -> bool
    decreases r + 1,
{
    if r < 0 {
        false
    } else {
        let ed = sorted_days(p.dates@);
        let es = spec_common_names(names(p.symbols@), names(p.symbols@));
        let xd = sorted_days(p.dates@ + exit.dates@);
        let xs = spec_common_names(es, names(exit.symbols@));
        if rising(p, ed[r], es[c]) {
            true
        } else if falling(p, xd[r], xs[c]) || is_true(projected(exit, xd[r], xs[c])) {
            false
        } else {
            exit_when_state(p, exit, c, r - 1)
        }
    }
}

proof fn lemma_projected_edges(e: &Panel, p: &Panel, d: i32, s: Seq<char>)
    requires
        edge_axes(e, p),
        forall|i: int, j: int| 0 <= i < e.dates@.len() && 0 <= j < e.symbols@.len() ==> #[trigger] e.at(i, j)
            == bool_cell(falling(p, e.dates@[i], e.symbols@[j]@)),
    ensures
        is_true(projected(e, d, s)) == falling(p, d, s),
{
    let ed = e.dates@;
    let es = names(e.symbols@);
    let pn = names(p.symbols@);
    lemma_found(ed, d, es, s);
    lemma_found(p.dates@, d, pn, s);
    lemma_common_contains(pn, pn, s);
    match (last_row_of(ed, d), last_name_of(es, s)) {
        (Some(k), Some(c)) => {
            assert(es[c] == s);
            assert(e.symbols@[c]@ == es[c]);
            assert(ed[k] == d);
        },
        (None, _) => {
            if last_row_of(p.dates@, d) is Some {
                let k = last_row_of(p.dates@, d)->0;
                assert(p.dates@.contains(d));
                assert(ed.contains(d));
                let i = choose|i: int| 0 <= i < ed.len() && ed[i] == d;
                assert(last_row_of(ed, d) is Some);
            }
        },
        (_, None) => {
            if last_name_of(pn, s) is Some {
                let c = last_name_of(pn, s)->0;
                assert(pn.contains(s));
                assert(es.contains(s));
                let i = choose|i: int| 0 <= i < es.len() && es[i] == s;
                assert(last_name_of(es, s) is Some);
            }
        },
    }
}


impl Panel {
    /// Hold a position from each rising edge of the panel until an exit (a
    /// falling edge of the panel, or a true cell of `exit`), per column (see
    /// [`exit_when_state`]). Row `i` of the result is labelled with the
    /// panel's own row `i`. The panel's days must be distinct and `exit`
    /// must carry every symbol of the panel.
    pub fn exit_when(&self, exit: &Panel) -> (r: Panel)
        requires
            self.wf(),
            exit.wf(),
            distinct_days(self.dates@),
            names_within(names(self.symbols@), names(exit.symbols@)),
            self.dates@.len() + self.dates@.len() <= isize::MAX,
            self.dates@.len() + exit.dates@.len() <= isize::MAX,
            (self.dates@.len() + self.dates@.len()) * self.symbols@.len() <= isize::MAX,
            (self.dates@.len() + exit.dates@.len()) * self.symbols@.len() <= isize::MAX,
        ensures
            r.wf(),
            r.dates@ == self.dates@,
            names(r.symbols@) == names(self.symbols@),
            forall|i: int, j: int| 0 <= i < self.dates@.len() && 0 <= j < self.symbols@.len() ==> #[trigger] r.at(i, j)
                == bool_cell(exit_when_state(self, exit, j, i)),
    {
        let ghost n = self.dates@.len();
        let ghost pn = names(self.symbols@);
        let entry = self.is_entry();
        let ex = self.is_exit();
        proof {
            assert forall|i: int| 0 <= i < pn.len() implies pn.contains(#[trigger] pn[i]) by {}
            lemma_common_within(pn, pn);
            assert(names(entry.symbols@) == pn);
            assert(names(ex.symbols@) == pn);
            assert(names(entry.symbols@).len() == entry.symbols@.len());
            assert(names(ex.symbols@).len() == ex.symbols@.len());
            assert(pn.len() == self.symbols@.len());
            lemma_distinct_within_len(self.dates@, entry.dates@);
            lemma_distinct_subset_len(entry.dates@, self.dates@, Seq::<i32>::empty());
            assert(entry.dates@.len() == n);
            assert(ex.dates@ == entry.dates@);
            assert(ex.dates@.len() * ex.symbols@.len() <= (self.dates@.len() + exit.dates@.len()) * self.symbols@.len())
                by (nonlinear_arith)
                requires
                    ex.dates@.len() == self.dates@.len(),
                    ex.symbols@.len() == self.symbols@.len(),
            ;
        }
        let xs = ex.or(exit);
        let ghost ed = entry.dates@;
        let ghost xd = xs.dates@;
        proof {
            lemma_common_within(pn, names(exit.symbols@));
            assert(names(xs.symbols@) == pn);
            assert(names(xs.symbols@).len() == xs.symbols@.len());
            assert forall|y: i32| xd.contains(y) <==> (self.dates@ + exit.dates@).contains(y) by {
                if (self.dates@ + exit.dates@).contains(y) {
                    let k = choose|k: int| 0 <= k < (self.dates@ + exit.dates@).len() && (self.dates@ + exit.dates@)[k] == y;
                    if k < self.dates@.len() {
                        assert(self.dates@[k] == y);
                    } else {
                        assert(exit.dates@[k - self.dates@.len()] == y);
                    }
                }
                if self.dates@.contains(y) {
                    let k = choose|k: int| 0 <= k < self.dates@.len() && self.dates@[k] == y;
                    assert((self.dates@ + exit.dates@)[k] == y);
                }
                if exit.dates@.contains(y) {
                    let k = choose|k: int| 0 <= k < exit.dates@.len() && exit.dates@[k] == y;
                    assert((self.dates@ + exit.dates@)[self.dates@.len() + k] == y);
                }
            }
            lemma_sorted_days(xd, self.dates@ + exit.dates@);
            assert forall|y: i32| self.dates@.contains(y) implies xd.contains(y) by {}
            lemma_distinct_within_len(self.dates@, xd);
            assert forall|i: int, j: int| 0 <= i < xs.dates@.len() && 0 <= j < xs.symbols@.len() implies #[trigger] xs.at(i, j)
                == bool_cell(falling(self, xs.dates@[i], xs.symbols@[j]@) || is_true(
                    projected(exit, xs.dates@[i], xs.symbols@[j]@),
                )) by {
                lemma_projected_edges(&ex, self, xs.dates@[i], xs.symbols@[j]@);
            }
        }
        let (nr, nc) = grid_dim(&self.data);
        let mut out = grid_filled(nr, nc, FALSE_BITS);
        proof { lemma_filled_at(out, FALSE_BITS); }
        let mut c: usize = 0;
        while c < nc
            invariant
                self.wf(),
                entry.wf(),
                xs.wf(),
                nr == self.dates@.len(),
                nc == self.symbols@.len(),
                entry.dates@.len() == nr,
                entry.symbols@.len() == nc,
                xs.dates@.len() >= nr,
                xs.symbols@.len() == nc,
                ed == entry.dates@,
                xd == xs.dates@,
                ed == sorted_days(self.dates@),
                xd == sorted_days(self.dates@ + exit.dates@),
                names(entry.symbols@) == spec_common_names(pn, pn),
                names(xs.symbols@) == spec_common_names(spec_common_names(pn, pn), names(exit.symbols@)),
                pn == names(self.symbols@),
                forall|i: int, j: int| 0 <= i < entry.dates@.len() && 0 <= j < entry.symbols@.len() ==> #[trigger] entry.at(i, j)
                    == bool_cell(rising(self, entry.dates@[i], entry.symbols@[j]@)),
                forall|i: int, j: int| 0 <= i < xs.dates@.len() && 0 <= j < xs.symbols@.len() ==> #[trigger] xs.at(i, j)
                    == bool_cell(falling(self, xs.dates@[i], xs.symbols@[j]@) || is_true(
                        projected(exit, xs.dates@[i], xs.symbols@[j]@),
                    )),
                c <= nc,
                grid_shape(out) == (nr as nat, nc as nat),
                grid_wf(out),
                forall|p: int, q: int| 0 <= p < nr && 0 <= q < nc ==> #[trigger] grid_at(out, p, q) == if q < c {
                    bool_cell(exit_when_state(self, exit, q, p))
                } else {
                    FALSE_BITS
                },
            decreases nc - c,
        {
            let mut held = false;
            let mut r: usize = 0;
            while r < nr
                invariant
                    self.wf(),
                    entry.wf(),
                    xs.wf(),
                    nr == self.dates@.len(),
                    nc == self.symbols@.len(),
                    entry.dates@.len() == nr,
                    entry.symbols@.len() == nc,
                    xs.dates@.len() >= nr,
                    xs.symbols@.len() == nc,
                    ed == entry.dates@,
                    xd == xs.dates@,
                    ed == sorted_days(self.dates@),
                    xd == sorted_days(self.dates@ + exit.dates@),
                    names(entry.symbols@) == spec_common_names(pn, pn),
                    names(xs.symbols@) == spec_common_names(spec_common_names(pn, pn), names(exit.symbols@)),
                    pn == names(self.symbols@),
                    forall|i: int, j: int| 0 <= i < entry.dates@.len() && 0 <= j < entry.symbols@.len() ==> #[trigger] entry.at(i, j)
                        == bool_cell(rising(self, entry.dates@[i], entry.symbols@[j]@)),
                    forall|i: int, j: int| 0 <= i < xs.dates@.len() && 0 <= j < xs.symbols@.len() ==> #[trigger] xs.at(i, j)
                        == bool_cell(falling(self, xs.dates@[i], xs.symbols@[j]@) || is_true(
                            projected(exit, xs.dates@[i], xs.symbols@[j]@),
                        )),
                    c < nc,
                    r <= nr,
                    held == exit_when_state(self, exit, c as int, r - 1),
                    grid_shape(out) == (nr as nat, nc as nat),
                    grid_wf(out),
                    forall|p: int, q: int| 0 <= p < nr && 0 <= q < nc ==> #[trigger] grid_at(out, p, q) == if q < c
                        || (q == c && p < r) {
                        bool_cell(exit_when_state(self, exit, q, p))
                    } else {
                        FALSE_BITS
                    },
                decreases nr - r,
            {
                if entry.cell(r, c) == TRUE_BITS {
                    held = true;
                } else if xs.cell(r, c) == TRUE_BITS {
                    held = false;
                }
                proof {
                    assert(names(entry.symbols@)[c as int] == entry.symbols@[c as int]@);
                    assert(names(xs.symbols@)[c as int] == xs.symbols@[c as int]@);
                    assert(held == exit_when_state(self, exit, c as int, r as int));
                }
                let bits = if held { TRUE_BITS } else { FALSE_BITS };
                let ghost before = out;
                grid_set(&mut out, r, c, bits);
                proof { lemma_set_at(before, out, r as int, c as int, bits); }
                r = r + 1;
            }
            c = c + 1;
        }
        let symbols = clone_names(&self.symbols);
        proof {
            assert(names(symbols@).len() == symbols@.len());
        }
        Panel { dates: self.dates.clone(), symbols, data: out }
    }
}

} // verus!
