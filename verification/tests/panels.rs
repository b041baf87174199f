use yuzu::align::{align, conform_to, union_dates};
use yuzu::assemble::{assemble, keep_window};
use yuzu::panel::{CellGrid, Panel, MISSING};
use yuzu::calendar::{anchor_index, is_valid_date_code, prior_year_end, shift_years};
use yuzu::rebalance::{parse_freq, period_key, rebalance_rows, Freq};

fn bits(rows: Vec<Vec<f64>>) -> Vec<Vec<u64>> {
    rows.into_iter()
        .map(|r| r.into_iter().map(f64::to_bits).collect())
        .collect()
}

fn panel(dates: Vec<i32>, symbols: &[&str], rows: Vec<Vec<f64>>) -> Panel {
    Panel::from_rows(dates, symbols.iter().map(|s| s.to_string()).collect(), bits(rows)).unwrap()
}

fn at(p: &Panel, r: usize, c: usize) -> f64 {
    f64::from_bits(p.cell(r, c))
}

#[test]
fn union_rows_intersect_cols() {
    let a = panel(vec![20240102, 20240103], &["A", "B"], vec![vec![1.0, 2.0], vec![3.0, 4.0]]);
    let b = panel(vec![20240103, 20240104], &["B", "C"], vec![vec![5.0, 6.0], vec![7.0, 8.0]]);

    let (ra, rb) = align(&a, &b);
    assert_eq!(ra.dates, vec![20240102, 20240103, 20240104]);
    assert_eq!(ra.symbols, vec!["B".to_string()]); // intersection
    // a had B=2.0 at 0103; row 0102 present in a but not b
    assert_eq!(at(&ra, 1, 0), 4.0);
    assert!(at(&ra, 2, 0).is_nan()); // a missing 0104
    assert!(at(&rb, 0, 0).is_nan()); // b missing 0102
    assert_eq!(at(&rb, 1, 0), 5.0); // b B=5.0 at 0103
}

#[test]
fn rebalance_dates_reindexes_and_nans_missing() {
    let p = panel(vec![20240102, 20240103, 20240104], &["A"], vec![vec![1.0], vec![2.0], vec![3.0]]);
    // keep 0103, request a missing date 0105
    let r = p.rebalance_dates(&[20240103, 20240105]);
    assert_eq!(r.dates, vec![20240103, 20240105]);
    assert_eq!(at(&r, 0, 0), 2.0);
    assert!(at(&r, 1, 0).is_nan()); // 0105 absent -> NaN
}

#[test]
fn slice_dates_keeps_inclusive_range() {
    let cells: Vec<u64> = [1.0f64, 2.0, 3.0, 4.0].iter().map(|x| x.to_bits()).collect();
    let p = Panel::new(
        vec![20240102, 20240103, 20240104, 20240105],
        vec!["A".into()],
        CellGrid::from_cells(4, 1, cells).unwrap(),
    )
    .unwrap();
    let s = p.slice_dates(20240103, 20240104);
    assert_eq!(s.dates, vec![20240103, 20240104]);
    assert_eq!(s.nrows(), 2);
    assert_eq!(at(&s, 0, 0), 2.0);
    assert_eq!(at(&s, 1, 0), 3.0);
    // bounds outside the range clamp; inverted range is empty
    assert_eq!(p.slice_dates(0, 99999999).nrows(), 4);
    assert_eq!(p.slice_dates(20240106, 20240110).nrows(), 0);
}

#[test]
fn new_rejects_shape_mismatch() {
    let grid = CellGrid::from_cells(1, 1, vec![1.0f64.to_bits()]).unwrap();
    let err = Panel::new(vec![20240102], vec!["A".into(), "B".into()], grid);
    assert!(err.is_err());
    match err {
        Err(e) => assert_eq!(e.message(), "shape mismatch: 1x2 != data len 1"),
        Ok(_) => unreachable!(),
    }
}

#[test]
fn shift_pushes_rows_down_and_nans_the_top() {
    let p = panel(vec![20240102, 20240103, 20240104], &["A"], vec![vec![1.0], vec![2.0], vec![3.0]]);
    let s = p.shift(1);
    assert!(at(&s, 0, 0).is_nan());
    assert_eq!(at(&s, 1, 0), 1.0);
    assert_eq!(at(&s, 2, 0), 2.0);
    assert_eq!(s.dates, p.dates);
}

#[test]
fn shift_past_the_end_is_all_missing() {
    let p = panel(vec![20240102, 20240103], &["A", "B"], vec![vec![1.0, 2.0], vec![3.0, 4.0]]);
    let s = p.shift(5);
    for r in 0..2 {
        for c in 0..2 {
            assert_eq!(s.cell(r, c), MISSING);
        }
    }
    let z = p.shift(0);
    assert_eq!(at(&z, 1, 1), 4.0);
}

#[test]
fn from_rows_rejects_ragged_rows() {
    let r = Panel::from_rows(
        vec![20240102, 20240103],
        vec!["A".into(), "B".into()],
        bits(vec![vec![1.0, 2.0], vec![3.0]]),
    );
    assert!(r.is_err());
}

#[test]
fn union_of_dates_is_sorted_and_unique() {
    let u = union_dates(&vec![20240105, 20240102, 20240105], &vec![20240103, 20240102]);
    assert_eq!(u, vec![20240102, 20240103, 20240105]);
}

#[test]
fn assemble_takes_the_union_of_days_and_the_last_row_of_a_day() {
    let symbols = vec!["AAA".to_string(), "BBB".to_string(), "CCC".to_string()];
    let per_symbol = vec![
        vec![(20240102, 10.0f64.to_bits()), (20240103, 11.0f64.to_bits())],
        vec![(20240103, 20.0f64.to_bits()), (20240103, 21.0f64.to_bits())],
        vec![],
    ];
    let p = assemble(&symbols, &per_symbol);
    assert_eq!(p.dates, vec![20240102, 20240103]);
    assert_eq!(p.symbols, symbols);
    assert_eq!(at(&p, 0, 0), 10.0);
    assert!(at(&p, 0, 1).is_nan());
    assert!(at(&p, 0, 2).is_nan());
    assert_eq!(at(&p, 1, 1), 21.0); // the later row of the day wins
    assert!(at(&p, 1, 2).is_nan());
}

#[test]
fn keep_window_is_inclusive() {
    let rows = vec![(20240101, 1u64), (20240102, 2), (20240103, 3), (20240104, 4)];
    assert_eq!(keep_window(&rows, 20240102, 20240103), vec![(20240102, 2), (20240103, 3)]);
    assert!(keep_window(&rows, 20240105, 20240109).is_empty());
}

#[test]
fn period_keys_and_rebalance_rows() {
    assert_eq!(period_key(20240315, Freq::MonthEnd), 202403);
    assert_eq!(period_key(20240315, Freq::QuarterEnd), 20240);
    assert_eq!(period_key(20241231, Freq::YearEnd), 2024);
    // 2024-12-30 is in ISO week 1 of 2025.
    assert_eq!(period_key(20241230, Freq::Weekly), 202501);
    let dates = vec![20240130, 20240131, 20240201, 20240229, 20240301];
    assert_eq!(rebalance_rows(&dates, Freq::MonthEnd), vec![1, 3, 4]);
    assert!(parse_freq("ME").is_ok());
    assert_eq!(parse_freq("X").unwrap_err().message(), "bad freq 'X'");
}

#[test]
fn rebalance_freq_keeps_last_obs_per_year() {
    let p = panel(
        vec![20230103, 20231229, 20240102, 20241231],
        &["A"],
        vec![vec![1.0], vec![2.0], vec![3.0], vec![4.0]],
    );
    let r = p.rebalance_freq(Freq::YearEnd);
    assert_eq!(r.dates, vec![20231229, 20241231]);
    assert_eq!(at(&r, 0, 0), 2.0);
    assert_eq!(at(&r, 1, 0), 4.0);
}

#[test]
fn trigger_dates_are_days_with_a_finite_nonzero_cell() {
    let p = panel(
        vec![20240102, 20240103, 20240104],
        &["A", "B"],
        vec![vec![0.0, f64::NAN], vec![0.0, 2.0], vec![f64::INFINITY, 0.0]],
    );
    assert_eq!(p.trigger_dates(), vec![20240103]);
}

#[test]
fn conform_to_looks_cells_up_by_day_and_symbol() {
    let grid = panel(vec![20240102, 20240103], &["A", "B"], vec![vec![0.0, 0.0], vec![0.0, 0.0]]);
    let high = panel(vec![20240103, 20240104], &["B", "C"], vec![vec![5.0, 6.0], vec![7.0, 8.0]]);
    assert!(conform_to(&grid, None).is_none());
    let g = conform_to(&grid, Some(&high)).unwrap();
    let p = Panel::new(grid.dates.clone(), grid.symbols.clone(), g).unwrap();
    assert!(at(&p, 0, 0).is_nan()); // no A column, no 0102 row
    assert!(at(&p, 0, 1).is_nan()); // no 0102 row
    assert!(at(&p, 1, 0).is_nan()); // no A column
    assert_eq!(at(&p, 1, 1), 5.0); // B on 0103
}

#[test]
fn shift_years_clamps_leap_day() {
    assert_eq!(shift_years(20240229, -1), 20230228);
    assert_eq!(shift_years(20240701, -3), 20210701);
}

#[test]
fn shift_years_keeps_leap_day_in_leap_years() {
    assert_eq!(shift_years(20240229, -4), 20200229);
    assert_eq!(shift_years(20240229, 76), 21000228); // 2100 is not a leap year
    assert_eq!(shift_years(20240229, -24), 20000229); // 2000 is
    assert_eq!(shift_years(20231231, 1), 20241231);
}

#[test]
fn lookback_anchors_gate_on_history() {
    let dates = vec![20210701, 20220701, 20230701, 20231231, 20240701];
    let last = *dates.last().unwrap();
    // YTD anchors at the prior-year-end row (20231231).
    assert_eq!(prior_year_end(last), 20231231);
    assert_eq!(anchor_index(&dates, prior_year_end(last)), Some(3));
    // 1y anchors at 20230701; 3y at 20210701.
    assert_eq!(anchor_index(&dates, shift_years(last, -1)), Some(2));
    assert_eq!(anchor_index(&dates, shift_years(last, -3)), Some(0));
    // A run entirely within the current year: no window is covered.
    let d2 = vec![20240102, 20240103];
    assert_eq!(anchor_index(&d2, prior_year_end(20240103)), None);
    assert_eq!(anchor_index(&d2, shift_years(20240103, -1)), None);
    assert_eq!(anchor_index(&d2, shift_years(20240103, -3)), None);
}

#[test]
fn date_codes_name_real_days() {
    assert!(is_valid_date_code(20240229));
    assert!(!is_valid_date_code(20230229));
    assert!(!is_valid_date_code(20241301));
    assert!(!is_valid_date_code(20240100));
    assert!(!is_valid_date_code(-20240101));
    assert!(is_valid_date_code(19000228));
    assert!(!is_valid_date_code(19000229));
}

#[test]
fn inverted_slice_range_gives_zero_rows() {
    let p = panel(
        vec![20240102, 20240103, 20240104, 20240105],
        &["A"],
        vec![vec![1.0], vec![2.0], vec![3.0], vec![4.0]],
    );
    let r = p.slice_dates(20240104, 20240102);
    assert!(r.dates.is_empty());
    assert_eq!(r.symbols, vec!["A".to_string()]);
    let r = p.slice_dates(20240103, 20240104);
    assert_eq!(r.dates, vec![20240103, 20240104]);
    assert_eq!(at(&r, 1, 0), 3.0);
}
