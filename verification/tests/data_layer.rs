use yuzu::archive::{write_fundamentals, write_series};
use yuzu::combined::{combined_csv_text, read_combined, write_combined_panel};
use yuzu::csv::{gzip_text_bytes, read_csv_text, scan_csv, scan_fundamentals_csv, scan_series_csv};
use yuzu::panel::Panel;
use yuzu::date::{date_to_i32, i32_to_date};
use yuzu::error::{DataError, EngineError};
use yuzu::fields::{
    field_col, field_for_price_key, is_fundamental_series, price_field, Field, FACTOR_PANEL_FIELDS,
    FUNDAMENTAL_FIELDS, REPORT_EVENT_FIELD,
};

#[test]
fn round_trip_and_dashless_parse() {
    assert_eq!(date_to_i32("2024-01-02").unwrap(), 20240102);
    assert_eq!(date_to_i32("20240102").unwrap(), 20240102);
    assert_eq!(i32_to_date(20240102), "2024-01-02");
    assert!(date_to_i32("not-a-date").is_err());
}

#[test]
fn error_display_messages() {
    assert!(DataError::Io("x".into()).message().contains("io"));
    assert!(DataError::Parse("y".into()).message().contains("parse"));
}

#[test]
fn factor_panel_fields_order_and_count() {
    let expected = [
        "piotroski_score",
        "altman_z",
        "fcf_yield",
        "pe_industry_pctile",
        "analyst_upside_pct",
        "consensus_rating",
    ];
    assert_eq!(
        FACTOR_PANEL_FIELDS, expected,
        "FACTOR_PANEL_FIELDS must match TS STABLE_FACTOR_NAMES in order"
    );
}

#[test]
fn is_fundamental_series_recognises_factor_panel_fields() {
    for name in FACTOR_PANEL_FIELDS {
        assert!(
            is_fundamental_series(name),
            "is_fundamental_series should return true for factor panel field '{name}'"
        );
    }
    // Price fields are NOT fundamental series.
    assert!(!is_fundamental_series("close"));
    assert!(!is_fundamental_series("unknown_field"));
    // The factor fields are fundamental series too.
    assert!(is_fundamental_series("pe"));
    assert!(is_fundamental_series("market_cap"));
    // report_event still works.
    assert!(is_fundamental_series("report_event"));
}

#[test]
fn engine_error_display_messages() {
    let e = EngineError::ShapeMismatch {
        rows: 1,
        cols: 2,
        data_len: 3,
    };
    assert!(e.message().contains("shape mismatch"));
    assert_eq!(
        EngineError::UnknownSeries { name: "pe".into() }.message(),
        "unknown series 'pe'"
    );
    assert_eq!(
        EngineError::BadFreq { freq: "X".into() }.message(),
        "bad freq 'X'"
    );
    assert!(EngineError::Eval("boom".into()).message().contains("boom"));
    assert!(EngineError::SpecParse("eof".into())
        .message()
        .contains("spec parse"));
}

#[test]
fn is_std_error() {
    let e = EngineError::RebalanceNeither;
    assert!(e.message().contains("Rebalance"));
}

#[test]
fn shape_mismatch_message_renders_all_three_numbers() {
    let e = EngineError::ShapeMismatch {
        rows: 12,
        cols: 0,
        data_len: 305,
    };
    assert_eq!(e.message(), "shape mismatch: 12x0 != data len 305");
    assert_eq!(
        DataError::Parse("bad date 'x'".into()).message(),
        "parse error: bad date 'x'"
    );
    assert_eq!(DataError::Io("gone".into()).message(), "io error: gone");
}

#[test]
fn date_parse_errors_name_the_input() {
    match date_to_i32("2024-1x-02") {
        Err(DataError::Parse(m)) => assert_eq!(m, "bad date '2024-1x-02'"),
        other => panic!("unexpected {:?}", other),
    }
    // Only dashes are dropped; a sign and leading zeros parse as an integer.
    assert_eq!(date_to_i32("-2024-01-02").unwrap(), 20240102);
    assert_eq!(date_to_i32("+0020240102").unwrap(), 20240102);
    assert!(date_to_i32("").is_err());
    assert!(date_to_i32("99999999999").is_err());
}

#[test]
fn date_format_pads_and_truncates() {
    assert_eq!(i32_to_date(19991231), "1999-12-31");
    assert_eq!(i32_to_date(5), "0000-00-05");
    assert_eq!(i32_to_date(101), "0000-01-01");
    // Round trip on any non-negative code.
    for d in [0, 7, 20240229, 99991231, i32::MAX] {
        assert_eq!(date_to_i32(&i32_to_date(d)).unwrap(), d);
    }
}

#[test]
fn field_columns_and_names() {
    assert_eq!(Field::AdjOpen.col(), 1);
    assert_eq!(Field::Volume.col(), 5);
    assert_eq!(Field::AdjClose.name(), "adj_close");
    assert_eq!(Field::AdjHigh.name(), "adj_high");
    assert_eq!(field_col("pe"), Some(1));
    assert_eq!(field_col("gross_profit_growth"), Some(16));
    assert_eq!(field_col(REPORT_EVENT_FIELD), Some(FUNDAMENTAL_FIELDS.len() + 1));
    assert_eq!(field_col("piotroski_score"), None);
    assert_eq!(price_field("volume"), Some(Field::Volume));
    assert_eq!(price_field("pe"), None);
    assert_eq!(field_for_price_key("open").unwrap(), Field::AdjOpen);
    assert_eq!(
        field_for_price_key("volume").unwrap_err(),
        "price-key must be one of open/high/low/close (got 'volume')"
    );
}

#[test]
fn series_rows_are_scanned_in_order() {
    let text = "day,adj_open,adj_high,adj_low,adj_close,volume\n2024-01-02, 1,2,3, 10.5 ,5\r\n\n20240103,1,2,3,11.25,5\n";
    let (rows, err) = scan_series_csv(text, Field::AdjClose);
    assert!(err.is_none());
    let got: Vec<(i32, String)> = rows.into_iter().map(|(d, c)| (d, c.into_iter().collect())).collect();
    assert_eq!(got, vec![(20240102, " 10.5 ".to_string()), (20240103, "11.25".to_string())]);
    // A short row stops the scan with the rows before it.
    let (rows, err) = scan_csv("2024-01-02,1,2\n2024-01-03,1\n2024-01-04,1,2\n", 2);
    assert_eq!(rows.len(), 1);
    match err {
        Some(DataError::Parse(m)) => assert_eq!(m, "row has 2 cells, need > 2"),
        other => panic!("unexpected {:?}", other),
    }
    // A bad day names the trimmed cell.
    let (_, err) = scan_csv(" bad-date ,1\n", 1);
    match err {
        Some(DataError::Parse(m)) => assert_eq!(m, "bad date 'bad-date'"),
        other => panic!("unexpected {:?}", other),
    }
    match scan_fundamentals_csv("day,pe\n", "nope") {
        Err(DataError::Parse(m)) => assert_eq!(m, "unknown fundamental field 'nope'"),
        _ => panic!("expected an error"),
    }
    let (rows, err) = scan_fundamentals_csv("2024-01-02,8\n", "pe").unwrap();
    assert!(err.is_none());
    assert_eq!(rows.len(), 1);
}

#[test]
fn file_text_is_gzip_or_plain_utf8() {
    let gz = gzip_text_bytes("day,x\n2024-01-02,1\n").unwrap();
    assert_eq!(&gz[..2], &[0x1f, 0x8b]);
    assert_eq!(read_csv_text(&gz).unwrap(), "day,x\n2024-01-02,1\n");
    assert_eq!(read_csv_text(b"plain").unwrap(), "plain");
    assert!(read_csv_text(&[0xff, 0xfe, 0x00]).is_err());
    assert!(read_csv_text(&[0x1f, 0x8b, 0x00]).is_err());
}

#[test]
fn write_then_read_combined_selects_subset_reorders_and_windows() {
    let cells = |v: &[f64]| -> Vec<u64> { v.iter().map(|x| x.to_bits()).collect() };
    let panel = Panel::from_rows(
        vec![20240102, 20240103, 20240104],
        vec!["AAA".into(), "BBB".into(), "CCC".into()],
        vec![cells(&[10.0, 20.0, f64::NAN]), cells(&[11.0, 21.0, 31.0]), cells(&[12.0, 22.0, 32.0])],
    )
    .unwrap();
    let rendered: Vec<Vec<String>> = vec![
        vec!["10".into(), "20".into(), "".into()],
        vec!["11".into(), "21".into(), "31".into()],
        vec!["12".into(), "22".into(), "32".into()],
    ];
    assert_eq!(
        combined_csv_text(&panel.dates, &panel.symbols, &rendered),
        "day,AAA,BBB,CCC\n2024-01-02,10,20,\n2024-01-03,11,21,31\n2024-01-04,12,22,32\n"
    );
    let bytes = write_combined_panel(&panel, &rendered).unwrap();
    // request CCC, AAA (reordered) + ZZZ (absent) over the inner window
    let syms = vec!["CCC".to_string(), "AAA".to_string(), "ZZZ".to_string()];
    let (rows, err) = read_combined(&bytes, &syms, 20240103, 20240104).unwrap();
    assert!(err.is_none());
    let text = |c: &Option<Vec<char>>| c.as_ref().map(|v| v.iter().collect::<String>());
    assert_eq!(rows.len(), 2);
    assert_eq!(rows[0].0, 20240103);
    assert_eq!(text(&rows[0].1[0]), Some("31".to_string())); // CCC 0103
    assert_eq!(text(&rows[0].1[1]), Some("11".to_string())); // AAA 0103
    assert_eq!(text(&rows[0].1[2]), None); // ZZZ absent from file
    assert_eq!(rows[1].0, 20240104);
    assert!(read_combined(b"not gzip", &syms, 0, 99999999).is_err());
}

fn rendered(values: &[f64]) -> Vec<String> {
    values.iter().map(|v| v.to_string()).collect()
}

/// The value cells of a scan as numbers (an empty cell is missing when
/// `empty_is_missing`); a bad value in an earlier row wins over the scan's
/// error.
fn values(rows: Vec<(i32, Vec<char>)>, err: Option<DataError>, empty_is_missing: bool) -> Result<Vec<(i32, f64)>, DataError> {
    let mut out = Vec::new();
    for (day, cell) in rows {
        let raw: String = cell.into_iter().collect();
        let t = raw.trim();
        let v = if empty_is_missing && t.is_empty() {
            f64::NAN
        } else {
            t.parse::<f64>().map_err(|_| DataError::Parse(format!("bad value '{t}'")))?
        };
        out.push((day, v));
    }
    match err {
        Some(e) => Err(e),
        None => Ok(out),
    }
}

fn parse_series(bytes: &[u8], field: Field) -> Result<Vec<(i32, f64)>, DataError> {
    let text = read_csv_text(bytes)?;
    let (rows, err) = scan_series_csv(&text, field);
    values(rows, err, false)
}

fn parse_fundamentals(bytes: &[u8], field: &str) -> Result<Vec<(i32, f64)>, DataError> {
    let text = read_csv_text(bytes)?;
    let (rows, err) = scan_fundamentals_csv(&text, field)?;
    values(rows, err, true)
}

/// An OHLCV row around close `c`, rendered.
fn ohlcv_row(c: f64) -> Vec<String> {
    rendered(&[c - 0.5, c + 1.0, c - 1.0, c, 1000.0])
}

#[test]
fn round_trips_and_selects_fields() {
    let gz = write_series(&vec![20240102, 20240103], &vec![ohlcv_row(10.5), ohlcv_row(11.25)]).unwrap();
    assert_eq!(parse_series(&gz, Field::AdjClose).unwrap(), vec![(20240102, 10.5), (20240103, 11.25)]);
    assert_eq!(parse_series(&gz, Field::AdjHigh).unwrap(), vec![(20240102, 11.5), (20240103, 12.25)]);
    assert_eq!(parse_series(&gz, Field::AdjLow).unwrap(), vec![(20240102, 9.5), (20240103, 10.25)]);
    assert_eq!(parse_series(&gz, Field::AdjOpen).unwrap(), vec![(20240102, 10.0), (20240103, 10.75)]);
    assert_eq!(parse_series(&gz, Field::Volume).unwrap(), vec![(20240102, 1000.0), (20240103, 1000.0)]);
    let text = read_csv_text(&gz).unwrap();
    assert!(text.starts_with("day,adj_open,adj_high,adj_low,adj_close,volume\n2024-01-02,10,11.5,"));
}

#[test]
fn parse_errors_on_non_gzip_bad_value_bad_date_and_short_row() {
    let hdr = "day,adj_open,adj_high,adj_low,adj_close,volume\n";
    let gz = |t: String| gzip_text_bytes(&t).unwrap();
    assert!(parse_series(b"not gzip", Field::AdjClose).is_err());
    assert!(parse_series(&gz(format!("{hdr}2024-01-02,1,2,3,bad,5\n")), Field::AdjClose).is_err());
    assert!(parse_series(&gz(format!("{hdr}bad-date,1,2,3,4,5\n")), Field::AdjClose).is_err());
    // row missing the volume column, but Volume requested
    assert!(parse_series(&gz(format!("{hdr}2024-01-02,1,2,3,4\n")), Field::Volume).is_err());
}

/// A fundamentals row: the named fields set, the others missing, then the
/// report-event value.
fn frow(set: &[(&str, f64)]) -> Vec<String> {
    let mut values = vec![f64::NAN; FUNDAMENTAL_FIELDS.len()];
    let mut report_event = 0.0;
    for (k, v) in set {
        if *k == REPORT_EVENT_FIELD {
            report_event = *v;
            continue;
        }
        let i = FUNDAMENTAL_FIELDS.iter().position(|f| f == k).unwrap();
        values[i] = *v;
    }
    values.push(report_event);
    rendered(&values)
}

#[test]
fn report_event_is_a_trailing_column() {
    let bytes = write_fundamentals(
        &vec![20240102, 20240103],
        &vec![frow(&[("pe", 10.0), ("report_event", 0.0)]), frow(&[("pe", 11.0), ("report_event", 1.0)])],
    )
    .unwrap();
    // factors still resolve, and report_event round-trips from the last column
    assert_eq!(parse_fundamentals(&bytes, "pe").unwrap()[1], (20240103, 11.0));
    assert_eq!(parse_fundamentals(&bytes, "report_event").unwrap(), vec![(20240102, 0.0), (20240103, 1.0)]);
    assert!(is_fundamental_series("report_event"));
    assert!(is_fundamental_series("pe"));
    assert!(!is_fundamental_series("close"));
    let text = read_csv_text(&bytes).unwrap();
    assert!(text.lines().next().unwrap().ends_with(",gross_profit_growth,report_event"));
}

#[test]
fn roundtrip_and_field_extract() {
    let bytes = write_fundamentals(
        &vec![20240102, 20240103],
        &vec![
            frow(&[("pe", 10.0), ("pb", 1.5), ("market_cap", 1e9)]),
            frow(&[("pe", 11.0), ("pb", 1.6), ("market_cap", 1.1e9)]),
        ],
    )
    .unwrap();
    assert_eq!(parse_fundamentals(&bytes, "pe").unwrap(), vec![(20240102, 10.0), (20240103, 11.0)]);
    assert_eq!(parse_fundamentals(&bytes, "market_cap").unwrap()[1], (20240103, 1.1e9));
    assert_eq!(parse_fundamentals(&bytes, "pb").unwrap()[0], (20240102, 1.5));
    assert!(parse_fundamentals(&bytes, "ps").unwrap()[0].1.is_nan());
}

#[test]
fn unknown_field_errors_and_bad_gzip_errors() {
    let bytes = write_fundamentals(&vec![20240102], &vec![frow(&[("pe", 10.0)])]).unwrap();
    assert!(parse_fundamentals(&bytes, "not_a_field").is_err());
    assert!(parse_fundamentals(b"not gzip", "pe").is_err());
}
