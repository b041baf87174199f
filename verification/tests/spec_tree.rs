use yuzu::spec_tree::{
    collect_series, expand_grid, max_lookback, referenced_series, substitute, GridParam, GridSpec,
    JsonNode,
};

fn s(x: &str) -> JsonNode {
    JsonNode::Str(x.to_string())
}

fn whole(n: u64) -> JsonNode {
    JsonNode::Number { text: n.to_string(), unsigned: Some(n) }
}

fn decimal_num(text: &str) -> JsonNode {
    JsonNode::Number { text: text.to_string(), unsigned: None }
}

/// An object; members are put in key order, as a parsed JSON object has them.
fn obj(members: Vec<(&str, JsonNode)>) -> JsonNode {
    let mut m: Vec<(String, JsonNode)> = members.into_iter().map(|(k, v)| (k.to_string(), v)).collect();
    m.sort_by(|a, b| a.0.cmp(&b.0));
    JsonNode::Object(m)
}

fn data(name: &str) -> JsonNode {
    obj(vec![("op", s("Data")), ("name", s(name))])
}

fn param(name: &str, values: Vec<(JsonNode, &str)>) -> GridParam {
    let (values, labels): (Vec<JsonNode>, Vec<String>) =
        values.into_iter().map(|(v, l)| (v, l.to_string())).unzip();
    GridParam { name: name.to_string(), values, labels }
}

#[test]
fn max_lookback_finds_the_largest_window_arg() {
    // `n` / `nwindow` / `d` count; the max wins, nested in objects or arrays.
    let spec = obj(vec![
        ("op", s("sub")),
        ("a", obj(vec![("op", s("sma")), ("n", whole(50))])),
        ("b", obj(vec![("op", s("sma")), ("n", whole(200))])),
    ]);
    assert_eq!(max_lookback(&spec), 200);
    assert_eq!(max_lookback(&obj(vec![("nwindow", whole(30))])), 30);
    assert_eq!(
        max_lookback(&JsonNode::Array(vec![obj(vec![("d", whole(5))]), obj(vec![("n", whole(12))])])),
        12
    );
    // Non-window keys don't count.
    assert_eq!(max_lookback(&obj(vec![("other", whole(999))])), 0);
}

#[test]
fn lookback_ignores_non_integer_windows() {
    assert_eq!(max_lookback(&obj(vec![("n", decimal_num("2.5"))])), 0);
    assert_eq!(max_lookback(&obj(vec![("n", s("20"))])), 0);
    assert_eq!(max_lookback(&JsonNode::Null), 0);
    // a window key whose value is itself a tree still counts what is inside
    assert_eq!(max_lookback(&obj(vec![("d", obj(vec![("n", whole(7))]))])), 7);
}

#[test]
fn collect_series_walks_objects_and_arrays() {
    // Data nodes nested inside a JSON array; duplicates collapse.
    let spec = obj(vec![
        ("op", s("SomeListOp")),
        ("of", JsonNode::Array(vec![data("close"), data("pe"), data("close")])),
    ]);
    let mut names = Vec::new();
    collect_series(&spec, &mut names);
    assert_eq!(names, vec!["close".to_string(), "pe".to_string()]);
}

#[test]
fn collect_series_keeps_the_list_sorted_and_needs_both_keys() {
    let mut names = vec!["high".to_string(), "low".to_string()];
    let spec = obj(vec![
        ("op", s("and")),
        ("a", data("volume")),
        ("b", data("close")),
        ("c", obj(vec![("op", s("Data"))])),
        ("d", obj(vec![("op", s("Other")), ("name", s("ignored"))])),
    ]);
    collect_series(&spec, &mut names);
    assert_eq!(names, vec!["close", "high", "low", "volume"]);
}

#[test]
fn referenced_series_skips_specs_that_did_not_parse() {
    let specs = vec![Some(data("pe")), None, Some(JsonNode::Array(vec![data("close"), data("pe")]))];
    assert_eq!(referenced_series(&specs), vec!["close".to_string(), "pe".to_string()]);
    assert!(referenced_series(&vec![None]).is_empty());
}

#[test]
fn substitution_replaces_bound_placeholders_only() {
    let template = obj(vec![
        ("n", s("$n")),
        ("list", JsonNode::Array(vec![s("$n"), s("n"), s("$")])),
        ("keep", s("$unbound")),
    ]);
    let binding = vec![("n".to_string(), whole(10))];
    let out = substitute(&template, &binding);
    assert_eq!(
        out,
        obj(vec![
            ("n", whole(10)),
            ("list", JsonNode::Array(vec![whole(10), s("n"), s("$")])),
            ("keep", s("$unbound")),
        ])
    );
    // no binding: the tree comes back unchanged
    assert_eq!(substitute(&template, &Vec::new()), template);
}

#[test]
fn no_params_yields_the_base_spec() {
    let g = GridSpec { spec: obj(vec![("op", s("x"))]), params: Vec::new() };
    let out = expand_grid(&g);
    assert_eq!(out.len(), 1);
    assert_eq!(out[0].0, "base");
    assert_eq!(out[0].1, obj(vec![("op", s("x"))]));
}

#[test]
fn cartesian_product_names_and_substitutes() {
    let g = GridSpec {
        spec: obj(vec![("n", s("$n")), ("t", s("$t")), ("keep", s("$unbound"))]),
        params: vec![
            param("n", vec![(whole(10), "10"), (whole(20), "20")]),
            param("t", vec![(decimal_num("0.5"), "0.5")]),
        ],
    };
    let out = expand_grid(&g);
    // 2 × 1 combinations, parameter order alphabetical (n, then t).
    assert_eq!(out.len(), 2);
    assert_eq!(out[0].0, "n=10,t=0.5");
    // `$n`/`$t` substituted; an unbound `$unbound` is left as-is.
    assert_eq!(out[0].1, obj(vec![("n", whole(10)), ("t", decimal_num("0.5")), ("keep", s("$unbound"))]));
    assert_eq!(out[1].0, "n=20,t=0.5");
    assert_eq!(out[1].1, obj(vec![("n", whole(20)), ("t", decimal_num("0.5")), ("keep", s("$unbound"))]));
}

#[test]
fn grid_variants_run_in_odometer_order() {
    let g = GridSpec {
        spec: JsonNode::Array(vec![s("$a"), s("$b")]),
        params: vec![
            param("a", vec![(whole(1), "1"), (whole(2), "2")]),
            param("b", vec![(s("x"), "\"x\""), (s("y"), "\"y\""), (JsonNode::Bool(true), "true")]),
        ],
    };
    let out = expand_grid(&g);
    let labels: Vec<&str> = out.iter().map(|(n, _)| n.as_str()).collect();
    assert_eq!(
        labels,
        vec![
            "a=1,b=\"x\"",
            "a=1,b=\"y\"",
            "a=1,b=true",
            "a=2,b=\"x\"",
            "a=2,b=\"y\"",
            "a=2,b=true",
        ]
    );
    assert_eq!(out[5].1, JsonNode::Array(vec![whole(2), JsonNode::Bool(true)]));
}
