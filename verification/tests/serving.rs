use yuzu::cache::{cache_key, hash_symbols, PanelCache, MAX_ENTRIES, TTL_MS};
use yuzu::panel::Panel;
use yuzu::rebuild::{
    archive_keys, handle_rebuild, object_key, rebuild_combined_panels, rebuild_series, DataDirs,
    RebuildRequest, SeriesSource, REBUILD_SERIES_COUNT,
};
use yuzu::fields::Field;

fn tiny() -> Panel {
    Panel::from_rows(vec![20240102], vec!["X".into()], vec![vec![1.0f64.to_bits()]]).unwrap()
}

/// What the server does per series: serve a fresh cached panel, or load and
/// store it.
fn get_or_load(
    cache: &mut PanelCache<Panel>,
    name: &str,
    symbols: &Vec<String>,
    from: i32,
    to: i32,
    now: u64,
    calls: &mut usize,
) -> Panel {
    let key = cache_key(name, symbols, from, to);
    if let Some(p) = cache.lookup(&key, now) {
        return p.clone_panel();
    }
    *calls += 1;
    let p = tiny();
    cache.store(key, now, p.clone_panel());
    p
}

#[test]
fn second_call_for_same_key_hits_cache() {
    let mut cache = PanelCache::new();
    let mut calls = 0usize;
    let syms = vec!["CACHE_TEST_UNIQUE".to_string()];
    let a = get_or_load(&mut cache, "close", &syms, 1, 9, 1000, &mut calls);
    let b = get_or_load(&mut cache, "close", &syms, 1, 9, 1001, &mut calls);
    assert_eq!(calls, 1, "second call must hit the cache");
    assert_eq!(a.dates, b.dates);

    // A different window is a different key → miss → load runs again.
    let _ = get_or_load(&mut cache, "close", &syms, 1, 10, 1002, &mut calls);
    assert_eq!(calls, 2);
}

#[test]
fn cache_entries_expire_after_the_ttl() {
    let mut cache = PanelCache::new();
    let syms = vec!["A".to_string()];
    let key = cache_key("close", &syms, 1, 9);
    cache.store(key, 0, 7u32);
    let key = cache_key("close", &syms, 1, 9);
    assert_eq!(cache.lookup(&key, TTL_MS - 1), Some(&7));
    assert_eq!(cache.lookup(&key, TTL_MS), None);
    // A clock reading before the stamp counts as no time elapsed.
    let mut c2 = PanelCache::new();
    c2.store(cache_key("close", &syms, 1, 9), 500, 1u32);
    assert_eq!(c2.lookup(&key, 10), Some(&1));
}

#[test]
fn cache_holds_at_most_max_entries_and_evicts_the_oldest() {
    let mut cache = PanelCache::new();
    let syms = vec!["A".to_string()];
    for i in 0..(MAX_ENTRIES as i32) {
        cache.store(cache_key("close", &syms, i, i), 100 + i as u64, i);
    }
    assert_eq!(cache.len(), MAX_ENTRIES);
    // Restamping an existing key evicts nothing.
    cache.store(cache_key("close", &syms, 3, 3), 50, 33);
    assert_eq!(cache.len(), MAX_ENTRIES);
    // A new key evicts the entry with the oldest stamp: key 3, now at 50.
    cache.store(cache_key("close", &syms, 99, 99), 200, 99);
    assert_eq!(cache.len(), MAX_ENTRIES);
    assert_eq!(cache.lookup(&cache_key("close", &syms, 3, 3), 200), None);
    assert_eq!(cache.lookup(&cache_key("close", &syms, 0, 0), 200), Some(&0));
    assert_eq!(cache.lookup(&cache_key("close", &syms, 99, 99), 200), Some(&99));
}

#[test]
fn symbol_fingerprint_depends_on_order_and_content() {
    let a = vec!["AAA".to_string(), "BBB".to_string()];
    let b = vec!["BBB".to_string(), "AAA".to_string()];
    assert_eq!(hash_symbols(&a), hash_symbols(&a.clone()));
    assert_ne!(hash_symbols(&a), hash_symbols(&b));
    assert_ne!(
        hash_symbols(&vec!["AB".to_string()]),
        hash_symbols(&vec!["A".to_string(), "B".to_string()])
    );
}

#[test]
fn rebuild_plan_lists_every_series_in_order() {
    let plan = rebuild_series();
    assert_eq!(plan.len(), REBUILD_SERIES_COUNT);
    assert_eq!(plan[0].name, "open");
    assert_eq!(plan[3].name, "close");
    assert_eq!(plan[3].source, SeriesSource::Prices(Field::AdjClose));
    assert_eq!(plan[5].name, "pe");
    assert_eq!(plan[5].source, SeriesSource::Fundamentals(1));
    assert_eq!(plan[21].name, "report_event");
    assert_eq!(plan[21].source, SeriesSource::Fundamentals(17));
}

#[test]
fn keys_follow_the_directory_layout() {
    assert_eq!(object_key("panels", "close"), "panels/close.csv.gz");
    let d = DataDirs::default();
    assert_eq!(d.prices, "prices");
    assert_eq!(d.fundamentals, "fundamentals");
    assert_eq!(d.panels, "panels");
    assert_eq!(
        archive_keys(&vec!["AAA".to_string(), "BBB".to_string()], &d.prices),
        vec!["prices/AAA.csv.gz".to_string(), "prices/BBB.csv.gz".to_string()]
    );
}

#[test]
fn rebuild_transposes_every_series() {
    let syms = vec!["AAA".to_string(), "BBB".to_string(), "CCC".to_string()];
    let mut series: Vec<Vec<Vec<(i32, u64)>>> = Vec::new();
    for k in 0..REBUILD_SERIES_COUNT {
        let v = k as f64;
        series.push(vec![
            vec![(20240102, (10.0 + v).to_bits()), (20240103, (11.0 + v).to_bits())],
            vec![(20240103, (20.0 + v).to_bits())],
            vec![],
        ]);
    }
    let (writes, summary) = rebuild_combined_panels(&syms, &series, "panels");
    assert_eq!(summary.fields, 5 + 16 + 1); // OHLCV + factors + report_event
    assert_eq!(summary.days, 2);
    assert_eq!(writes.len(), REBUILD_SERIES_COUNT);
    assert_eq!(writes[3].key, "panels/close.csv.gz");
    let close = &writes[3].panel;
    assert_eq!(close.dates, vec![20240102, 20240103]);
    assert_eq!(f64::from_bits(close.cell(0, 0)), 13.0); // AAA 0102
    assert!(f64::from_bits(close.cell(0, 1)).is_nan()); // BBB absent 0102
    assert!(f64::from_bits(close.cell(0, 2)).is_nan()); // CCC absent
    assert_eq!(f64::from_bits(close.cell(1, 1)), 23.0); // BBB 0103
    assert_eq!(writes[5].key, "panels/pe.csv.gz");

    let req = RebuildRequest { symbols: syms.clone() };
    let mut dirs = DataDirs::default();
    dirs.panels = "custom/panels".to_string();
    let (writes, summary) = handle_rebuild(&req, &dirs, &series);
    assert_eq!(summary.fields, REBUILD_SERIES_COUNT);
    assert_eq!(writes[21].key, "custom/panels/report_event.csv.gz");
}

fn file_bytes(p: &Panel) -> Vec<u8> {
    let cells: Vec<Vec<String>> = (0..p.dates.len())
        .map(|r| {
            (0..p.symbols.len())
                .map(|c| {
                    let v = f64::from_bits(p.cell(r, c));
                    if v.is_nan() { String::new() } else { v.to_string() }
                })
                .collect()
        })
        .collect();
    yuzu::combined::write_combined_panel(p, &cells).unwrap()
}

#[test]
fn repeated_rebuild_writes_the_same_bytes_and_serving_is_the_rebuild() {
    let syms = vec!["AAA".to_string(), "BBB".to_string()];
    let mut series: Vec<Vec<Vec<(i32, u64)>>> = Vec::new();
    for k in 0..REBUILD_SERIES_COUNT {
        let v = k as f64;
        series.push(vec![vec![(20240103, (1.5 + v).to_bits()), (20240102, v.to_bits())], vec![]]);
    }
    let (a, sa) = rebuild_combined_panels(&syms, &series, "panels");
    let (b, sb) = rebuild_combined_panels(&syms, &series, "panels");
    let req = RebuildRequest { symbols: syms.clone() };
    let (c, sc) = handle_rebuild(&req, &DataDirs::default(), &series);
    assert_eq!((sa.fields, sa.days), (sb.fields, sb.days));
    assert_eq!((sa.fields, sa.days), (sc.fields, sc.days));
    for k in 0..REBUILD_SERIES_COUNT {
        assert_eq!(a[k].key, b[k].key);
        assert_eq!(a[k].key, c[k].key);
        assert_eq!(file_bytes(&a[k].panel), file_bytes(&b[k].panel));
        assert_eq!(file_bytes(&a[k].panel), file_bytes(&c[k].panel));
    }
    assert_eq!(a[3].panel.dates, vec![20240102, 20240103]);
}
