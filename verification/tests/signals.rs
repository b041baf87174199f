use yuzu::execution::scan_delistings;
use yuzu::panel::Panel;

fn panel(dates: Vec<i32>, symbols: &[&str], rows: Vec<Vec<f64>>) -> Panel {
    Panel::from_rows(
        dates,
        symbols.iter().map(|s| s.to_string()).collect(),
        rows.into_iter()
            .map(|r| r.into_iter().map(f64::to_bits).collect())
            .collect(),
    )
    .unwrap()
}

fn column(p: &Panel, c: usize) -> Vec<f64> {
    (0..p.dates.len()).map(|r| f64::from_bits(p.cell(r, c))).collect()
}

fn days(n: usize) -> Vec<i32> {
    (0..n as i32).map(|i| 20240102 + i).collect()
}

#[test]
fn negation_and_lag_are_boolean() {
    let p = panel(days(4), &["A"], vec![vec![1.0], vec![f64::NAN], vec![2.0], vec![1.0]]);
    assert_eq!(column(&p.not(), 0), vec![0.0, 1.0, 1.0, 0.0]);
    assert_eq!(column(&p.shift_false(1), 0), vec![0.0, 1.0, 0.0, 0.0]);
    assert_eq!(column(&p.shift_false(9), 0), vec![0.0, 0.0, 0.0, 0.0]);
}

#[test]
fn and_or_align_before_combining() {
    let a = panel(vec![20240102, 20240103], &["A", "B"], vec![vec![1.0, 1.0], vec![0.0, 1.0]]);
    let b = panel(vec![20240103, 20240104], &["B"], vec![vec![1.0], vec![1.0]]);
    let and = a.and(&b);
    assert_eq!(and.dates, vec![20240102, 20240103, 20240104]);
    assert_eq!(and.symbols, vec!["B".to_string()]);
    assert_eq!(column(&and, 0), vec![0.0, 1.0, 0.0]);
    let or = a.or(&b);
    assert_eq!(column(&or, 0), vec![1.0, 1.0, 1.0]);
}

#[test]
fn entries_and_exits_are_edges() {
    let p = panel(days(5), &["A"], vec![vec![0.0], vec![1.0], vec![1.0], vec![0.0], vec![1.0]]);
    assert_eq!(column(&p.is_entry(), 0), vec![0.0, 1.0, 0.0, 0.0, 1.0]);
    assert_eq!(column(&p.is_exit(), 0), vec![0.0, 0.0, 0.0, 1.0, 0.0]);
}

#[test]
fn sustain_needs_a_full_window() {
    let p = panel(days(5), &["A"], vec![vec![1.0], vec![1.0], vec![0.0], vec![1.0], vec![1.0]]);
    assert_eq!(column(&p.sustain(2, None), 0), vec![0.0, 1.0, 0.0, 0.0, 1.0]);
    assert_eq!(column(&p.sustain(3, Some(2)), 0), vec![0.0, 0.0, 1.0, 1.0, 1.0]);
    assert_eq!(column(&p.sustain(0, None), 0), vec![1.0, 1.0, 1.0, 1.0, 1.0]);
}

#[test]
fn exit_when_holds_from_entry_to_exit() {
    let entry = panel(days(6), &["A"], vec![vec![0.0], vec![1.0], vec![1.0], vec![1.0], vec![1.0], vec![0.0]]);
    let exit = panel(days(6), &["A"], vec![vec![0.0], vec![0.0], vec![0.0], vec![1.0], vec![0.0], vec![0.0]]);
    // enter on day 1, leave on the exit signal of day 3, stay out until the
    // next rising edge (none: the condition stays up, then falls).
    assert_eq!(column(&entry.exit_when(&exit), 0), vec![0.0, 1.0, 1.0, 0.0, 0.0, 0.0]);
}

#[test]
fn delisting_confirms_when_the_missing_run_reaches_the_threshold() {
    // B's prices vanish from row 2 on; C misses a single day and resumes.
    let px = panel(
        days(5),
        &["A", "B", "C"],
        vec![
            vec![1.0, 1.0, 1.0],
            vec![1.0, 1.0, f64::NAN],
            vec![1.0, f64::NAN, 1.0],
            vec![1.0, f64::NAN, 1.0],
            vec![1.0, f64::NAN, 1.0],
        ],
    );
    assert!(scan_delistings(&px, 0).is_none());
    let (dead, confirm) = scan_delistings(&px, 2).unwrap();
    let col = |m: &Vec<Vec<bool>>, c: usize| m.iter().map(|row| row[c]).collect::<Vec<bool>>();
    assert_eq!(col(&confirm, 1), vec![false, false, false, true, false]);
    assert_eq!(col(&dead, 1), vec![false, false, false, true, true]);
    assert_eq!(col(&dead, 0), vec![false; 5]);
    assert_eq!(col(&dead, 2), vec![false; 5]);
    let (dead1, confirm1) = scan_delistings(&px, 1).unwrap();
    assert_eq!(col(&confirm1, 2), vec![false, true, false, false, false]);
    assert_eq!(col(&dead1, 2), vec![false, true, false, false, false]);
    assert_eq!(col(&confirm1, 1), vec![false, false, true, false, false]);
    // any NaN payload counts as missing, not only the canonical one
    let odd = f64::from_bits(0x7FF0_0000_0000_0001);
    let q = panel(days(2), &["A"], vec![vec![odd], vec![f64::INFINITY]]);
    let (d, _) = scan_delistings(&q, 1).unwrap();
    assert_eq!(col(&d, 0), vec![true, false]);
}

fn ab(rows: Vec<Vec<f64>>) -> Panel {
    let n = rows.len();
    panel(days(n), &["A", "B"], rows)
}

fn at(p: &Panel, r: usize, c: usize) -> f64 {
    f64::from_bits(p.cell(r, c))
}

#[test]
fn and_or_truthiness() {
    let a = ab(vec![vec![1.0, 0.0]]);
    let b = ab(vec![vec![1.0, 1.0]]);
    assert_eq!(at(&a.and(&b), 0, 0), 1.0);
    assert_eq!(at(&a.and(&b), 0, 1), 0.0);
    assert_eq!(at(&a.or(&b), 0, 1), 1.0);
}

#[test]
fn not_treats_nan_as_false() {
    let a = ab(vec![vec![1.0, f64::NAN]]);
    let r = a.not();
    assert_eq!(at(&r, 0, 0), 0.0); // !true
    assert_eq!(at(&r, 0, 1), 1.0); // !falsy(NaN)
}

#[test]
fn mask_keeps_truthy_else_nan() {
    let v = ab(vec![vec![3.0, 2.0]]);
    let m = ab(vec![vec![1.0, 0.0]]);
    let r = v.mask(&m);
    assert_eq!(at(&r, 0, 0), 3.0);
    assert!(at(&r, 0, 1).is_nan());
}

#[test]
fn mask_aligns_rows_and_columns_first() {
    let v = panel(vec![20240102, 20240103], &["A", "B"], vec![vec![3.0, 4.0], vec![5.0, 6.0]]);
    let m = panel(vec![20240103, 20240104], &["B"], vec![vec![1.0], vec![1.0]]);
    let r = v.mask(&m);
    assert_eq!(r.dates, vec![20240102, 20240103, 20240104]);
    assert_eq!(r.symbols, vec!["B".to_string()]);
    assert!(at(&r, 0, 0).is_nan()); // no mask row
    assert_eq!(at(&r, 1, 0), 6.0);
    assert!(at(&r, 2, 0).is_nan()); // no value row
}

#[test]
fn exact_match_false_for_missing_and_case() {
    let p = panel(
        vec![20240102, 20240103],
        &["AAPL", "XOM", "ZZZ"],
        vec![vec![1.0, 2.0, 3.0], vec![4.0, 5.0, 6.0]],
    );
    let industry = vec![
        ("AAPL".to_string(), "Technology".to_string()),
        ("XOM".to_string(), "Energy".to_string()),
    ];
    // ZZZ missing from the table

    let m = p.in_sector(&industry, "Technology");
    assert_eq!(at(&m, 0, 0), 1.0);
    assert_eq!(at(&m, 1, 0), 1.0); // constant over dates
    assert_eq!(at(&m, 0, 1), 0.0);
    assert_eq!(at(&m, 0, 2), 0.0); // missing → false
    // case-sensitive
    let m2 = p.in_sector(&industry, "technology");
    assert_eq!(at(&m2, 0, 0), 0.0);
}

#[test]
fn sector_membership_masks_a_signal() {
    let close = panel(vec![20240102], &["A", "B"], vec![vec![10.0, 20.0]]);
    let industry = vec![("A".to_string(), "Technology".to_string()), ("B".to_string(), "Energy".to_string())];
    let inside = close.in_sector(&industry, "Technology");
    assert_eq!(at(&inside, 0, 0), 1.0);
    assert_eq!(at(&inside, 0, 1), 0.0);
    let masked = close.mask(&inside);
    assert_eq!(at(&masked, 0, 0), 10.0);
    assert!(at(&masked, 0, 1).is_nan());
}

#[test]
fn columns_group_by_sector_in_first_seen_order() {
    let p = panel(days(1), &["A", "B", "C", "D", "E"], vec![vec![1.0, 2.0, 3.0, 4.0, 5.0]]);
    let industry = vec![
        ("A".to_string(), "Energy".to_string()),
        ("B".to_string(), "Tech".to_string()),
        ("C".to_string(), "Energy".to_string()),
        ("E".to_string(), "Tech".to_string()),
    ];
    let groups = p.group_cols_by_industry(&industry, &vec![1, 0, 3, 2, 4]);
    assert_eq!(
        groups,
        vec![
            ("Tech".to_string(), vec![1, 4]),
            ("Energy".to_string(), vec![0, 2]),
            ("其他".to_string(), vec![3]),
        ]
    );
    assert!(p.group_cols_by_industry(&industry, &vec![]).is_empty());
}
