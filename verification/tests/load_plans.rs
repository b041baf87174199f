use yuzu::fields::Field;
use yuzu::plans::{
    backtest_series, load_plan, scoped_symbols, str_lt, Fallback, LoadSource,
};

fn strings(v: &[&str]) -> Vec<String> {
    v.iter().map(|s| s.to_string()).collect()
}

#[test]
fn names_order_like_strings() {
    assert!(str_lt("AAA", "AAB"));
    assert!(str_lt("AA", "AAA"));
    assert!(!str_lt("AAA", "AAA"));
    assert!(!str_lt("b", "B"));
    assert!(str_lt("", "a"));
}

#[test]
fn backtest_loads_referenced_price_key_high_low_and_volume_when_capped() {
    // pe + close referenced; an unknown name is skipped.
    let loads = backtest_series(&strings(&["pe", "close", "mystery", "pe"]), "close", false);
    let names: Vec<&str> = loads.iter().map(|l| l.name.as_str()).collect();
    assert_eq!(names, vec!["close", "high", "low", "pe"]);
    assert_eq!(loads[0].fallback, Fallback::Prices(Field::AdjClose));
    assert_eq!(loads[3].fallback, Fallback::Fundamentals);
    let loads = backtest_series(&strings(&["report_event"]), "open", true);
    let names: Vec<&str> = loads.iter().map(|l| l.name.as_str()).collect();
    assert_eq!(names, vec!["high", "low", "open", "report_event", "volume"]);
    assert_eq!(loads[4].fallback, Fallback::Prices(Field::Volume));
}

#[test]
fn scoped_symbols_checks_the_request() {
    let available = strings(&["AAA", "BBB", "CCC"]);
    assert_eq!(scoped_symbols(&available, None).unwrap(), available);
    assert_eq!(
        scoped_symbols(&available, Some(&strings(&["CCC", "AAA", "CCC"]))).unwrap(),
        strings(&["AAA", "CCC"])
    );
    assert_eq!(
        scoped_symbols(&available, Some(&vec![])).unwrap_err(),
        "the symbols list is empty \u{2014} omit it to run the full universe"
    );
    assert_eq!(
        scoped_symbols(&available, Some(&strings(&["ZZZ", "AAA", "YYY"]))).unwrap_err(),
        "symbols not in the data tree (no prices/<sym>.csv.gz): ZZZ, YYY"
    );
}

#[test]
fn research_context_load_order() {
    let plan = load_plan("open", true, true, &strings(&["sp500"]), &strings(&["pe", "close", "x"]), Some("SPY"));
    assert!(plan.failure.is_none());
    let steps: Vec<(&str, LoadSource, bool)> = plan
        .steps
        .iter()
        .map(|s| (s.name.as_str(), s.source, s.unless_loaded))
        .collect();
    assert_eq!(steps[0], ("close", LoadSource::Prices(Field::AdjClose), false));
    assert_eq!(steps[1], ("open", LoadSource::Prices(Field::AdjOpen), false));
    assert_eq!(steps[2], ("open", LoadSource::Prices(Field::AdjOpen), true));
    assert_eq!(steps[5], ("volume", LoadSource::Prices(Field::Volume), false));
    assert_eq!(steps[6], ("sp500", LoadSource::CombinedIfPresent, true));
    assert_eq!(steps[7], ("piotroski_score", LoadSource::CombinedIfPresent, true));
    // referenced, sorted
    assert_eq!(steps[13], ("close", LoadSource::CombinedOr(Some(Fallback::Prices(Field::AdjClose))), true));
    assert_eq!(steps[14], ("pe", LoadSource::CombinedOr(Some(Fallback::Fundamentals)), true));
    assert_eq!(steps[15], ("x", LoadSource::CombinedOr(None), true));
    assert_eq!(steps[16], ("SPY", LoadSource::BenchmarkClose, true));
    assert_eq!(steps.len(), 17);

    let bad = load_plan("volume", false, false, &vec![], &vec![], None);
    assert_eq!(bad.steps.len(), 1);
    assert_eq!(
        bad.failure.unwrap(),
        "price-key must be one of open/high/low/close (got 'volume')"
    );
}
