//! Series naming: the OHLCV [`Field`]s of the per-symbol price files, the
//! fundamentals column contract, and the routing of a spec series name to
//! the loader that carries it.

use vstd::prelude::*;
use vstd::string::*;
use crate::text::str_eq;

verus! {

/// Which OHLCV column to pull into a panel.
#[derive(Debug, Clone, Copy, PartialEq, Eq, Structural)]
pub enum Field {
    AdjOpen,
    AdjHigh,
    AdjLow,
    AdjClose,
    Volume,
}

/// Column index of a field in the per-symbol price CSV (`day` is column 0).
pub open spec fn spec_field_col(f: Field) -> usize {
    match f {
        Field::AdjOpen => 1,
        Field::AdjHigh => 2,
        Field::AdjLow => 3,
        Field::AdjClose => 4,
        Field::Volume => 5,
    }
}

/// Column name of a field (the CSV header and Parquet column name).
pub open spec fn spec_field_name(f: Field) -> Seq<char> {
    match f {
        Field::AdjOpen => "adj_open"@,
        Field::AdjHigh => "adj_high"@,
        Field::AdjLow => "adj_low"@,
        Field::AdjClose => "adj_close"@,
        Field::Volume => "volume"@,
    }
}

impl Field {
    /// Column index in the CSV (day is column 0).
    pub fn col(self) -> (c: usize)
        ensures
            c == spec_field_col(self),
    {
        match self {
            Field::AdjOpen => 1,
            Field::AdjHigh => 2,
            Field::AdjLow => 3,
            Field::AdjClose => 4,
            Field::Volume => 5,
        }
    }

    /// Column name (matches the CSV header and the Parquet column name).
    pub fn name(self) -> (n: &'static str)
        ensures
            n@ == spec_field_name(self),
    {
        match self {
            Field::AdjOpen => "adj_open",
            Field::AdjHigh => "adj_high",
            Field::AdjLow => "adj_low",
            Field::AdjClose => "adj_close",
            Field::Volume => "volume",
        }
    }
}

/// Fundamental field column names, in CSV order (column 0 is `day`).
pub const FUNDAMENTAL_FIELDS: [&'static str; 16] = [
    "pe",
    "ps",
    "pb",
    "roe",
    "net_margin",
    "debt_to_equity",
    "market_cap",
    "gross_margin",
    "receivables_turnover",
    "debt_to_assets",
    "revenue",
    "revenue_growth",
    "eps_growth",
    "operating_income_growth",
    "net_income_growth",
    "gross_profit_growth",
];

/// The trailing column marking report-filing days in the fundamentals files.
pub const REPORT_EVENT_FIELD: &'static str = "report_event";

/// Snapshot factor fields whose combined panels are written elsewhere (never
/// rebuilt from the per-symbol fundamentals files).
pub const FACTOR_PANEL_FIELDS: [&'static str; 6] = [
    "piotroski_score",
    "altman_z",
    "fcf_yield",
    "pe_industry_pctile",
    "analyst_upside_pct",
    "consensus_rating",
];

/// The fundamentals column contract as character sequences.
pub open spec fn spec_fundamental_fields() -> Seq<Seq<char>> {
    seq![
        "pe"@, "ps"@, "pb"@, "roe"@, "net_margin"@, "debt_to_equity"@, "market_cap"@,
        "gross_margin"@, "receivables_turnover"@, "debt_to_assets"@, "revenue"@,
        "revenue_growth"@, "eps_growth"@, "operating_income_growth"@, "net_income_growth"@,
        "gross_profit_growth"@,
    ]
}

/// The snapshot factor names as character sequences.
pub open spec fn spec_factor_panel_fields() -> Seq<Seq<char>> {
    seq![
        "piotroski_score"@, "altman_z"@, "fcf_yield"@, "pe_industry_pctile"@,
        "analyst_upside_pct"@, "consensus_rating"@,
    ]
}

/// Column (0 = `day`) of a series in the per-symbol fundamentals CSV: the
/// report-event signal is the last column, a factor sits at its position + 1.
pub open spec fn spec_field_col_of(name: Seq<char>) -> Option<usize> {
    if name == "report_event"@ {
        Some(17usize)
    } else if exists|i: int| 0 <= i < 16 && spec_fundamental_fields()[i] == name {
        Some((spec_first_index(spec_fundamental_fields(), name) + 1) as usize)
    } else {
        None
    }
}

/// First index of `x` in `s` (meaningful when `x` occurs in `s`).
pub open spec fn spec_first_index(s: Seq<Seq<char>>, x: Seq<char>) -> int {
    choose|i: int| 0 <= i < s.len() && s[i] == x && forall|j: int| 0 <= j < i ==> s[j] != x
}

/// Whether a series name is carried by the fundamentals files or is a
/// snapshot factor panel.
pub open spec fn spec_is_fundamental_series(name: Seq<char>) -> bool {
    spec_field_col_of(name) is Some || spec_factor_panel_fields().contains(name)
}

/// Column index (0 = `day`) of a series in the per-symbol fundamentals CSV,
/// or `None` if the name is neither a factor nor the report-event field.
pub fn field_col(field: &str) -> (r: Option<usize>)
    ensures
        r == spec_field_col_of(field@),
{
    if str_eq(field, REPORT_EVENT_FIELD) {
        return Some(17);
    }
    let names = FUNDAMENTAL_FIELDS;
    let mut i: usize = 0;
    while i < 16
        invariant
            i <= 16,
            names@.map_values(|s: &str| s@) == spec_fundamental_fields(),
            field@ != "report_event"@,
            forall|j: int| 0 <= j < i ==> spec_fundamental_fields()[j] != field@,
        decreases 16 - i,
    {
        let n = names[i];
        assert(n@ == spec_fundamental_fields()[i as int]);
        if str_eq(n, field) {
            proof {
                let k = spec_first_index(spec_fundamental_fields(), field@);
                assert(0 <= k < 16 && spec_fundamental_fields()[k] == field@ && forall|j: int|
                    0 <= j < k ==> spec_fundamental_fields()[j] != field@) by {
                    assert(exists|k: int| 0 <= k < 16 && spec_fundamental_fields()[k] == field@
                        && forall|j: int| 0 <= j < k ==> spec_fundamental_fields()[j] != field@);
                }
                assert(k == i);
            }
            return Some(i + 1);
        }
        i = i + 1;
    }
    None
}

/// Whether `name` is a series the fundamentals files carry (a factor, the
/// report-event signal, or a snapshot factor panel): routes a spec series to
/// the right combined-panel loader.
pub fn is_fundamental_series(name: &str) -> (r: bool)
    ensures
        r == spec_is_fundamental_series(name@),
{
    if field_col(name).is_some() {
        return true;
    }
    let names = FACTOR_PANEL_FIELDS;
    let mut i: usize = 0;
    while i < 6
        invariant
            i <= 6,
            names@.map_values(|s: &str| s@) == spec_factor_panel_fields(),
            spec_field_col_of(name@) is None,
            forall|j: int| 0 <= j < i ==> spec_factor_panel_fields()[j] != name@,
        decreases 6 - i,
    {
        let n = names[i];
        assert(n@ == spec_factor_panel_fields()[i as int]);
        if str_eq(n, name) {
            assert(spec_factor_panel_fields().contains(name@));
            return true;
        }
        i = i + 1;
    }
    assert(!spec_factor_panel_fields().contains(name@));
    false
}

/// The per-symbol OHLCV column behind a series name, when it is one.
pub open spec fn spec_price_field(name: Seq<char>) -> Option<Field> {
    if name == "close"@ {
        Some(Field::AdjClose)
    } else if name == "open"@ {
        Some(Field::AdjOpen)
    } else if name == "high"@ {
        Some(Field::AdjHigh)
    } else if name == "low"@ {
        Some(Field::AdjLow)
    } else if name == "volume"@ {
        Some(Field::Volume)
    } else {
        None
    }
}

/// Price series are read from their adjusted columns: `open`, `high`,
/// `low` and `close` route to the field whose column is `adj_` followed by
/// the same name, `volume` to the `volume` column, and no other name routes
/// to a price field.
pub proof fn law_price_series_use_their_adjusted_column(name: Seq<char>)
    ensures
        (name == "open"@ || name == "high"@ || name == "low"@ || name == "close"@) ==> (spec_price_field(name)
            matches Some(f) && spec_field_name(f) == "adj_"@ + name),
        name == "volume"@ ==> (spec_price_field(name) matches Some(f) && spec_field_name(f) == name),
        spec_price_field(name) is Some ==> (name == "open"@ || name == "high"@ || name == "low"@ || name
            == "close"@ || name == "volume"@),
{
    reveal_strlit("open");
    reveal_strlit("high");
    reveal_strlit("low");
    reveal_strlit("close");
    reveal_strlit("volume");
    reveal_strlit("adj_");
    reveal_strlit("adj_open");
    reveal_strlit("adj_high");
    reveal_strlit("adj_low");
    reveal_strlit("adj_close");
    assert("adj_"@ + "open"@ =~= "adj_open"@);
    assert("adj_"@ + "high"@ =~= "adj_high"@);
    assert("adj_"@ + "low"@ =~= "adj_low"@);
    assert("adj_"@ + "close"@ =~= "adj_close"@);
}

/// Map a `Data` series name to its OHLCV field (`None` = not a price or
/// volume series).
pub fn price_field(name: &str) -> (r: Option<Field>)
    ensures
        r == spec_price_field(name@),
{
    if str_eq(name, "close") {
        Some(Field::AdjClose)
    } else if str_eq(name, "open") {
        Some(Field::AdjOpen)
    } else if str_eq(name, "high") {
        Some(Field::AdjHigh)
    } else if str_eq(name, "low") {
        Some(Field::AdjLow)
    } else if str_eq(name, "volume") {
        Some(Field::Volume)
    } else {
        None
    }
}

/// The OHLC field backing an execution/return price key: only prices you can
/// fill at qualify, so `volume` is rejected along with unknown names.
pub fn field_for_price_key(key: &str) -> (r: Result<Field, String>)
    ensures
        r is Ok <==> (spec_price_field(key@) is Some && key@ != "volume"@),
        r matches Ok(f) ==> Some(f) == spec_price_field(key@),
        r matches Err(m) ==> m@ == "price-key must be one of open/high/low/close (got '"@
            + key@ + "')"@,
{
    match price_field(key) {
        Some(f) => {
            if str_eq(key, "volume") {
                let mut m = String::from_str("price-key must be one of open/high/low/close (got '");
                m.append(key);
                m.append("')");
                Err(m)
            } else {
                Ok(f)
            }
        },
        None => {
            let mut m = String::from_str("price-key must be one of open/high/low/close (got '");
            m.append(key);
            m.append("')");
            Err(m)
        },
    }
}

} // verus!
