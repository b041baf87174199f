//! Combined per-series panel rebuild: which series a rebuild writes, where the
//! per-symbol archives and the combined files live, and the transposition of
//! every series' per-symbol rows into one union-of-days panel.

use vstd::prelude::*;
use vstd::string::*;
use crate::assemble::{assemble, is_assembly, total_rows, law_assembly_unique};
use crate::combined::combined_text;
use crate::fields::{Field, FUNDAMENTAL_FIELDS, REPORT_EVENT_FIELD, spec_fundamental_fields};
use crate::panel::{Panel, names, grid_shape, grid_cells};

verus! {

/// Default object-key directory of the per-symbol price archives.
pub const PRICES_DIR: &'static str = "prices";

/// Default object-key directory of the per-symbol fundamentals archives.
pub const FUNDAMENTALS_DIR: &'static str = "fundamentals";

/// Default object-key directory of the combined per-series panel files.
pub const PANELS_DIR: &'static str = "panels";

/// Number of series a rebuild writes: five OHLCV series, the sixteen
/// fundamental factors and the report-event signal.
pub const REBUILD_SERIES_COUNT: usize = 22;

/// Object-key layout of a data tree.
pub struct DataDirs {
    pub prices: String,
    pub fundamentals: String,
    pub panels: String,
}

impl Default for DataDirs {
    fn default() -> (d: Self)
        ensures
            d.prices@ == PRICES_DIR@,
            d.fundamentals@ == FUNDAMENTALS_DIR@,
            d.panels@ == PANELS_DIR@,
    {
        DataDirs {
            prices: String::from_str(PRICES_DIR),
            fundamentals: String::from_str(FUNDAMENTALS_DIR),
            panels: String::from_str(PANELS_DIR),
        }
    }
}

/// One rebuild request: the symbol universe to transpose.
pub struct RebuildRequest {
    pub symbols: Vec<String>,
}

/// What a rebuild wrote: the number of series files and the largest day
/// count among them.
pub struct RebuildSummary {
    pub fields: usize,
    pub days: usize,
}

/// Where the rows of a rebuilt series come from.
#[derive(Debug, Clone, Copy, PartialEq, Eq, Structural)]
pub enum SeriesSource {
    /// A column of the per-symbol price archive.
    Prices(Field),
    /// A column (0 = `day`) of the per-symbol fundamentals archive.
    Fundamentals(usize),
}

/// One series of a rebuild: its name (the combined file's stem) and source.
pub struct RebuildSeries {
    pub name: &'static str,
    pub source: SeriesSource,
}

/// Name of the `k`-th rebuilt series.
pub open spec fn spec_series_name(k: int) -> Seq<char> {
    if k == 0 {
        "open"@
    } else if k == 1 {
        "high"@
    } else if k == 2 {
        "low"@
    } else if k == 3 {
        "close"@
    } else if k == 4 {
        "volume"@
    } else if k < 21 {
        spec_fundamental_fields()[k - 5]
    } else {
        "report_event"@
    }
}

/// Source of the `k`-th rebuilt series.
pub open spec fn spec_series_source(k: int) -> SeriesSource {
    if k == 0 {
        SeriesSource::Prices(Field::AdjOpen)
    } else if k == 1 {
        SeriesSource::Prices(Field::AdjHigh)
    } else if k == 2 {
        SeriesSource::Prices(Field::AdjLow)
    } else if k == 3 {
        SeriesSource::Prices(Field::AdjClose)
    } else if k == 4 {
        SeriesSource::Prices(Field::Volume)
    } else if k < 21 {
        SeriesSource::Fundamentals((k - 4) as usize)
    } else {
        SeriesSource::Fundamentals(17)
    }
}

fn price_series(name: &'static str, field: Field) -> (r: RebuildSeries)
    ensures
        r.name@ == name@,
        r.source == SeriesSource::Prices(field),
{
    RebuildSeries { name, source: SeriesSource::Prices(field) }
}

/// The series a rebuild writes, in order: OHLCV (`open`, `high`, `low`,
/// `close`, `volume`), then every fundamental factor in column order, then
/// the report-event signal.
pub fn rebuild_series() -> (r: Vec<RebuildSeries>)
    ensures
        r@.len() == REBUILD_SERIES_COUNT,
        forall|k: int| 0 <= k < r@.len() ==> (#[trigger] r@[k]).name@ == spec_series_name(k)
            && r@[k].source == spec_series_source(k),
{
    let mut out: Vec<RebuildSeries> = Vec::new();
    out.push(price_series("open", Field::AdjOpen));
    out.push(price_series("high", Field::AdjHigh));
    out.push(price_series("low", Field::AdjLow));
    out.push(price_series("close", Field::AdjClose));
    out.push(price_series("volume", Field::Volume));
    let names = FUNDAMENTAL_FIELDS;
    let mut i: usize = 0;
    while i < 16
        invariant
            i <= 16,
            out@.len() == 5 + i,
            names@.map_values(|s: &str| s@) == spec_fundamental_fields(),
            forall|k: int| 0 <= k < out@.len() ==> (#[trigger] out@[k]).name@ == spec_series_name(k)
                && out@[k].source == spec_series_source(k),
        decreases 16 - i,
    {
        let n = names[i];
        assert(n@ == spec_fundamental_fields()[i as int]);
        out.push(RebuildSeries { name: n, source: SeriesSource::Fundamentals(i + 1) });
        i = i + 1;
    }
    out.push(RebuildSeries { name: REPORT_EVENT_FIELD, source: SeriesSource::Fundamentals(17) });
    out
}

/// Object key of a series or symbol file: `{dir}/{stem}.csv.gz`.
pub open spec fn spec_object_key(dir: Seq<char>, stem: Seq<char>) -> Seq<char> {
    dir + "/"@ + stem + ".csv.gz"@
}

/// `{dir}/{stem}.csv.gz`.
pub fn object_key(dir: &str, stem: &str) -> (k: String)
    ensures
        k@ == spec_object_key(dir@, stem@),
{
    let mut k = String::from_str(dir);
    k.append("/");
    k.append(stem);
    k.append(".csv.gz");
    k
}

/// The archive key of every symbol under `dir`, in symbol order.
pub fn archive_keys(symbols: &Vec<String>, dir: &str) -> (r: Vec<String>)
    ensures
        r@.len() == symbols@.len(),
        forall|i: int| 0 <= i < r@.len() ==> (#[trigger] r@[i])@ == spec_object_key(dir@, symbols@[i]@),
{
    let mut out: Vec<String> = Vec::new();
    let mut i: usize = 0;
    while i < symbols.len()
        invariant
            i <= symbols@.len(),
            out@.len() == i,
            forall|k: int| 0 <= k < i ==> (#[trigger] out@[k])@ == spec_object_key(dir@, symbols@[k]@),
        decreases symbols@.len() - i,
    {
        out.push(object_key(dir, symbols[i].as_str()));
        i = i + 1;
    }
    out
}

/// One combined file to write: its key and its panel.
pub struct CombinedWrite {
    pub key: String,
    pub panel: Panel,
}

/// Largest day count among the written panels (0 for none).
pub open spec fn max_days(writes: Seq<CombinedWrite>) -> nat
    decreases writes.len(),
{
    if writes.len() == 0 {
        0
    } else {
        let rest = max_days(writes.drop_last());
        let n = writes.last().panel.dates@.len();
        if n > rest { n } else { rest }
    }
}

/// The per-symbol rows of every rebuilt series are small enough to lay out.
pub open spec fn rebuild_fits(symbols: Seq<String>, series: Seq<Vec<Vec<(i32, u64)>>>) -> bool {
    &&& series.len() == REBUILD_SERIES_COUNT
    &&& symbols.len() <= isize::MAX
    &&& forall|k: int| 0 <= k < series.len() ==> total_rows((#[trigger] series[k])@) <= isize::MAX
    &&& forall|k: int| 0 <= k < series.len() ==> (#[trigger] series[k])@.len() == symbols.len()
    &&& forall|k: int| 0 <= k < series.len() ==> total_rows((#[trigger] series[k])@) * symbols.len() <= isize::MAX
}

/// What a rebuild of `series` for `symbols` into `panels_dir` returns: one
/// file per series of [`rebuild_series`], in order, keyed
/// `{panels_dir}/{name}.csv.gz` and holding the assembly of that series'
/// rows; the summary counts the series and the longest panel's days.
pub open spec fn rebuild_result(
    symbols: Seq<String>,
    series: Seq<Vec<Vec<(i32, u64)>>>,
    panels_dir: Seq<char>,
    writes: Seq<CombinedWrite>,
    summary: RebuildSummary,
) -> bool {
    &&& writes.len() == REBUILD_SERIES_COUNT
    &&& forall|k: int| 0 <= k < REBUILD_SERIES_COUNT ==> (#[trigger] writes[k]).key@
        == spec_object_key(panels_dir, spec_series_name(k))
    &&& forall|k: int| 0 <= k < REBUILD_SERIES_COUNT ==> is_assembly(&(#[trigger] writes[k]).panel, symbols, series[k]@)
    &&& summary.fields == REBUILD_SERIES_COUNT
    &&& summary.days == max_days(writes)
}

/// Transpose every rebuilt series into its combined panel. `series[k]`
/// holds, for the `k`-th series of [`rebuild_series`], the rows of each
/// symbol in `symbols` order (empty for a missing or unreadable archive).
/// Returns the files to write under `panels_dir`, in series order, and the
/// summary of the rebuild.
pub fn rebuild_combined_panels(
    symbols: &Vec<String>,
    series: &Vec<Vec<Vec<(i32, u64)>>>,
    panels_dir: &str,
) -> (r: (Vec<CombinedWrite>, RebuildSummary))
    requires
        rebuild_fits(symbols@, series@),
    ensures
        rebuild_result(symbols@, series@, panels_dir@, r.0@, r.1),
{
    let plan = rebuild_series();
    let mut writes: Vec<CombinedWrite> = Vec::new();
    let mut days: usize = 0;
    let mut k: usize = 0;
    while k < REBUILD_SERIES_COUNT
        invariant
            k <= REBUILD_SERIES_COUNT,
            rebuild_fits(symbols@, series@),
            plan@.len() == REBUILD_SERIES_COUNT,
            forall|j: int| 0 <= j < plan@.len() ==> (#[trigger] plan@[j]).name@ == spec_series_name(j),
            writes@.len() == k,
            forall|j: int| 0 <= j < k ==> (#[trigger] writes@[j]).key@
                == spec_object_key(panels_dir@, spec_series_name(j)),
            forall|j: int| 0 <= j < k ==> is_assembly(&(#[trigger] writes@[j]).panel, symbols@, series@[j]@),
            days == max_days(writes@),
        decreases REBUILD_SERIES_COUNT - k,
    {
        assert(series@[k as int]@.len() == symbols@.len());
        assert(total_rows(series@[k as int]@) * symbols@.len() <= isize::MAX);
        let panel = assemble(symbols, &series[k]);
        let key = object_key(panels_dir, plan[k].name);
        let n = panel.dates.len();
        let ghost before = writes@;
        writes.push(CombinedWrite { key, panel });
        proof {
            assert(writes@.drop_last() =~= before);
        }
        if n > days {
            days = n;
        }
        k = k + 1;
    }
    (writes, RebuildSummary { fields: REBUILD_SERIES_COUNT, days })
}

/// Serve a rebuild request: transpose the universe of `req` into combined
/// files under the panels directory of `dirs` (see
/// [`rebuild_combined_panels`]; `series` is read from the archive keys
/// that [`archive_keys`] gives for `dirs.prices` and `dirs.fundamentals`).
pub fn handle_rebuild(
    req: &RebuildRequest,
    dirs: &DataDirs,
    series: &Vec<Vec<Vec<(i32, u64)>>>,
) -> (r: (Vec<CombinedWrite>, RebuildSummary))
    requires
        rebuild_fits(req.symbols@, series@),
    ensures
        rebuild_result(req.symbols@, series@, dirs.panels@, r.0@, r.1),
{
    rebuild_combined_panels(&req.symbols, series, dirs.panels.as_str())
}

proof fn lemma_max_days_same(a: Seq<CombinedWrite>, b: Seq<CombinedWrite>)
    requires
        a.len() == b.len(),
        forall|k: int| 0 <= k < a.len() ==> (#[trigger] a[k]).panel.dates@.len() == b[k].panel.dates@.len(),
    ensures
        max_days(a) == max_days(b),
    decreases a.len(),
{
    if a.len() > 0 {
        let a1 = a.drop_last();
        let b1 = b.drop_last();
        assert forall|k: int| 0 <= k < a1.len() implies (#[trigger] a1[k]).panel.dates@.len() == b1[k].panel.dates@.len() by {
            assert(a1[k] == a[k] && b1[k] == b[k]);
        }
        lemma_max_days_same(a1, b1);
        assert(a.last().panel.dates@.len() == b.last().panel.dates@.len());
    }
}

/// A rebuild is repeatable: two rebuilds of the same series for the same
/// symbols into the same directory return the same summary and, file by
/// file, the same key and a panel with the same days, symbols and cells,
/// so the same combined text for the same rendering of those cells.
pub proof fn law_rebuild_repeatable(
    symbols: Seq<String>,
    series: Seq<Vec<Vec<(i32, u64)>>>,
    panels_dir: Seq<char>,
    a: (Seq<CombinedWrite>, RebuildSummary),
    b: (Seq<CombinedWrite>, RebuildSummary),
)
    requires
        rebuild_result(symbols, series, panels_dir, a.0, a.1),
        rebuild_result(symbols, series, panels_dir, b.0, b.1),
    ensures
        a.1 == b.1,
        a.0.len() == b.0.len(),
        forall|k: int| 0 <= k < a.0.len() ==> {
            &&& (#[trigger] a.0[k]).key@ == b.0[k].key@
            &&& a.0[k].panel.dates@ == b.0[k].panel.dates@
            &&& names(a.0[k].panel.symbols@) == names(b.0[k].panel.symbols@)
            &&& grid_shape(a.0[k].panel.data) == grid_shape(b.0[k].panel.data)
            &&& grid_cells(a.0[k].panel.data) == grid_cells(b.0[k].panel.data)
            &&& forall|cells: Seq<Seq<Seq<char>>>| #[trigger] combined_text(
                a.0[k].panel.dates@,
                names(a.0[k].panel.symbols@),
                cells,
            ) == combined_text(b.0[k].panel.dates@, names(b.0[k].panel.symbols@), cells)
        },
{
    assert forall|k: int| 0 <= k < a.0.len() implies (#[trigger] a.0[k]).panel.dates@ == b.0[k].panel.dates@
        && names(a.0[k].panel.symbols@) == names(b.0[k].panel.symbols@)
        && grid_shape(a.0[k].panel.data) == grid_shape(b.0[k].panel.data)
        && grid_cells(a.0[k].panel.data) == grid_cells(b.0[k].panel.data) by {
        law_assembly_unique(&a.0[k].panel, &b.0[k].panel, symbols, series[k]@);
    }
    lemma_max_days_same(a.0, b.0);
}

/// Serving a rebuild request is the rebuild of its symbols into the panels
/// directory: whatever [`handle_rebuild`] returns for `req` and `dirs`
/// agrees file by file with what [`rebuild_combined_panels`] returns for
/// `req.symbols` and `dirs.panels` (see [`law_rebuild_repeatable`]).
pub proof fn law_handle_rebuild_is_rebuild(
    req: RebuildRequest,
    dirs: DataDirs,
    series: Seq<Vec<Vec<(i32, u64)>>>,
    served: (Seq<CombinedWrite>, RebuildSummary),
    rebuilt: (Seq<CombinedWrite>, RebuildSummary),
)
    requires
        rebuild_result(req.symbols@, series, dirs.panels@, served.0, served.1),
        rebuild_result(req.symbols@, series, dirs.panels@, rebuilt.0, rebuilt.1),
    ensures
        served.1 == rebuilt.1,
        served.0.len() == rebuilt.0.len(),
        forall|k: int| 0 <= k < served.0.len() ==> {
            &&& (#[trigger] served.0[k]).key@ == rebuilt.0[k].key@
            &&& served.0[k].panel.dates@ == rebuilt.0[k].panel.dates@
            &&& names(served.0[k].panel.symbols@) == names(rebuilt.0[k].panel.symbols@)
            &&& grid_cells(served.0[k].panel.data) == grid_cells(rebuilt.0[k].panel.data)
        },
{
    law_rebuild_repeatable(req.symbols@, series, dirs.panels@, served, rebuilt);
}

} // verus!
