//! Per-symbol archive files: the gzip CSV of one symbol's OHLCV history
//! (`day,adj_open,adj_high,adj_low,adj_close,volume`) and of its
//! fundamentals (`day,<fundamental fields…>,report_event`), oldest day
//! first; writing always succeeds. Values arrive rendered: `cells[row][column]` is the decimal text
//! of a value.

use vstd::prelude::*;
use vstd::string::*;
use crate::combined::{combined_csv_text, combined_text, cell_views};
use crate::csv::{gzip_bytes, gzip_text_bytes, spec_file_text};
use crate::error::DataError;
use crate::fields::{
    Field, spec_field_name, spec_fundamental_fields, FUNDAMENTAL_FIELDS, REPORT_EVENT_FIELD,
};
use crate::panel::names;

verus! {

/// The value columns of a price file, in file order.
pub open spec fn series_columns() -> Seq<Seq<char>> {
    seq![
        spec_field_name(Field::AdjOpen),
        spec_field_name(Field::AdjHigh),
        spec_field_name(Field::AdjLow),
        spec_field_name(Field::AdjClose),
        spec_field_name(Field::Volume),
    ]
}

/// The value columns of a fundamentals file: the fundamental fields, then
/// the report-event signal.
pub open spec fn fundamentals_columns() -> Seq<Seq<char>> {
    spec_fundamental_fields().push("report_event"@)
}

fn series_column_names() -> (r: Vec<String>)
    ensures
        names(r@) == series_columns(),
{
    let mut r: Vec<String> = Vec::new();
    r.push(String::from_str(Field::AdjOpen.name()));
    r.push(String::from_str(Field::AdjHigh.name()));
    r.push(String::from_str(Field::AdjLow.name()));
    r.push(String::from_str(Field::AdjClose.name()));
    r.push(String::from_str(Field::Volume.name()));
    assert(names(r@) =~= series_columns());
    r
}

fn fundamentals_column_names() -> (r: Vec<String>)
    ensures
        names(r@) == fundamentals_columns(),
{
    let fields = FUNDAMENTAL_FIELDS;
    let mut r: Vec<String> = Vec::new();
    let mut i: usize = 0;
    while i < 16
        invariant
            i <= 16,
            fields@.map_values(|s: &str| s@) == spec_fundamental_fields(),
            r@.len() == i,
            forall|j: int| 0 <= j < i ==> (#[trigger] r@[j])@ == spec_fundamental_fields()[j],
        decreases 16 - i,
    {
        let f = fields[i];
        assert(f@ == spec_fundamental_fields()[i as int]);
        r.push(String::from_str(f));
        i = i + 1;
    }
    r.push(String::from_str(REPORT_EVENT_FIELD));
    proof {
        reveal_strlit("report_event");
    }
    assert(names(r@) =~= fundamentals_columns());
    r
}

/// Serialize one symbol's OHLCV rows: the gzip of the file text with header
/// `day,adj_open,adj_high,adj_low,adj_close,volume` and one line
/// `YYYY-MM-DD,<cells…>` per day (`cells[row]` holds the rendered values
/// of `days[row]`).
pub fn write_series(days: &Vec<i32>, cells: &Vec<Vec<String>>) -> (r: Result<Vec<u8>, DataError>)
    requires
        cells@.len() == days@.len(),
    ensures
        r is Ok,
        r matches Ok(b) ==> b@ == gzip_bytes(combined_text(days@, series_columns(), cell_views(cells@)))
            && spec_file_text(b@) == Some(combined_text(days@, series_columns(), cell_views(cells@))),
{
    let columns = series_column_names();
    let text = combined_csv_text(days, &columns, cells);
    gzip_text_bytes(text.as_str())
}

/// Serialize one symbol's fundamentals rows: the gzip of the file text with
/// header `day,<fundamental fields…>,report_event` and one line
/// `YYYY-MM-DD,<cells…>` per day (`cells[row]` holds the rendered field
/// values of `days[row]`, then its report-event value).
pub fn write_fundamentals(days: &Vec<i32>, cells: &Vec<Vec<String>>) -> (r: Result<Vec<u8>, DataError>)
    requires
        cells@.len() == days@.len(),
    ensures
        r is Ok,
        r matches Ok(b) ==> b@ == gzip_bytes(combined_text(days@, fundamentals_columns(), cell_views(cells@)))
            && spec_file_text(b@) == Some(combined_text(days@, fundamentals_columns(), cell_views(cells@))),
{
    let columns = fundamentals_column_names();
    let text = combined_csv_text(days, &columns, cells);
    gzip_text_bytes(text.as_str())
}

} // verus!
