//! A strategy spec as a JSON tree ([`JsonNode`]), and the walks over it:
//! the series a spec reads, its longest window, and `"$name"` placeholder
//! substitution for parameter grids. Trees are reasoned about through their
//! view ([`view_of`]), which holds the same shape with sequences in place
//! of vectors.

use vstd::prelude::*;
use crate::panel::names;
use crate::plans::{insert_name, names_ascending};
use crate::research::{grid_indices, grid_size, grid_tuples, spec_variant_name, variant_name};
use crate::panel::clone_names;
use crate::text::str_eq;

verus! {

/// A JSON value.
#[derive(Debug, PartialEq)]
pub enum JsonNode {
    Null,
    Bool(bool),
    /// A number: its JSON text, and its value when it is an integer that
    /// fits a `u64`.
    Number { text: String, unsigned: Option<u64> },
    Str(String),
    Array(Vec<JsonNode>),
    /// The members of an object, in key order, each key once.
    Object(Vec<(String, JsonNode)>),
}

/// The mathematical value of a [`JsonNode`].
pub enum JsonView {
    Null,
    Bool(bool),
    Number(Seq<char>, Option<u64>),
    Str(Seq<char>),
    Array(Seq<JsonView>),
    Object(Seq<(Seq<char>, JsonView)>),
}

/// The view of a tree.
pub open spec fn view_of(n: JsonNode) -> JsonView
    decreases n, 0nat,
{
    match n {
        JsonNode::Null => JsonView::Null,
        JsonNode::Bool(b) => JsonView::Bool(b),
        JsonNode::Number { text, unsigned } => JsonView::Number(text@, unsigned),
        JsonNode::Str(s) => JsonView::Str(s@),
        JsonNode::Array(a) => JsonView::Array(items_view(a@, a@.len() as int)),
        JsonNode::Object(m) => JsonView::Object(members_view(m@, m@.len() as int)),
    }
}

/// The views of the first `k` items.
pub open spec fn items_view(s: Seq<JsonNode>, k: int) -> Seq<JsonView>
    decreases s, k,
{
    if k <= 0 || k > s.len() {
        Seq::empty()
    } else {
        items_view(s, k - 1).push(view_of(s[k - 1]))
    }
}

/// The views of the first `k` members.
pub open spec fn members_view(s: Seq<(String, JsonNode)>, k: int) -> Seq<(Seq<char>, JsonView)>
    decreases s, k,
{
    if k <= 0 || k > s.len() {
        Seq::empty()
    } else {
        members_view(s, k - 1).push((s[k - 1].0@, view_of(s[k - 1].1)))
    }
}

proof fn lemma_items_view(s: Seq<JsonNode>, k: int)
    requires
        0 <= k <= s.len(),
    ensures
        items_view(s, k).len() == k,
        forall|i: int| 0 <= i < k ==> #[trigger] items_view(s, k)[i] == view_of(s[i]),
    decreases k,
{
    if k > 0 {
        lemma_items_view(s, k - 1);
    }
}

proof fn lemma_members_view(s: Seq<(String, JsonNode)>, k: int)
    requires
        0 <= k <= s.len(),
    ensures
        members_view(s, k).len() == k,
        forall|i: int| 0 <= i < k ==> #[trigger] members_view(s, k)[i] == (s[i].0@, view_of(s[i].1)),
    decreases k,
{
    if k > 0 {
        lemma_members_view(s, k - 1);
    }
}

/// The member of `m` under `key` (the first one, keys being unique).
pub open spec fn member(m: Seq<(Seq<char>, JsonView)>, key: Seq<char>) -> Option<JsonView>
    decreases m.len(),
{
    if m.len() == 0 {
        None
    } else if m[0].0 == key {
        Some(m[0].1)
    } else {
        member(m.drop_first(), key)
    }
}

/// The series name of a `{"op": "Data", "name": …}` object.
pub open spec fn data_leaf(m: Seq<(Seq<char>, JsonView)>) -> Option<Seq<char>> {
    if member(m, "op"@) == Some(JsonView::Str("Data"@)) {
        match member(m, "name"@) {
            Some(JsonView::Str(name)) => Some(name),
            _ => None,
        }
    } else {
        None
    }
}

/// `y` is the name of some `Data` object in the tree.
pub open spec fn reads_series(v: JsonView, y: Seq<char>) -> bool
    decreases v, 0nat,
{
    match v {
        JsonView::Object(m) => data_leaf(m) == Some(y) || members_read(m, m.len() as int, y),
        JsonView::Array(a) => items_read(a, a.len() as int, y),
        _ => false,
    }
}

/// One of the first `k` items reads `y`.
pub open spec fn items_read(s: Seq<JsonView>, k: int, y: Seq<char>) -> bool
    decreases s, k,
{
    if k <= 0 || k > s.len() {
        false
    } else {
        items_read(s, k - 1, y) || reads_series(s[k - 1], y)
    }
}

/// The value of one of the first `k` members reads `y`.
pub open spec fn members_read(s: Seq<(Seq<char>, JsonView)>, k: int, y: Seq<char>) -> bool
    decreases s, k,
{
    if k <= 0 || k > s.len() {
        false
    } else {
        members_read(s, k - 1, y) || reads_series(s[k - 1].1, y)
    }
}

/// A deep copy of a tree.
pub fn clone_node(n: &JsonNode) -> (r: JsonNode)
    ensures
        view_of(r) == view_of(*n),
    decreases n,
{
    match n {
        JsonNode::Null => JsonNode::Null,
        JsonNode::Bool(b) => JsonNode::Bool(*b),
        JsonNode::Number { text, unsigned } => JsonNode::Number { text: text.clone(), unsigned: *unsigned },
        JsonNode::Str(s) => JsonNode::Str(s.clone()),
        JsonNode::Array(a) => {
            let mut out: Vec<JsonNode> = Vec::new();
            let mut i: usize = 0;
            while i < a.len()
                invariant
                    *n == JsonNode::Array(*a),
                    i <= a@.len(),
                    out@.len() == i,
                    forall|j: int| 0 <= j < i ==> view_of(#[trigger] out@[j]) == view_of(a@[j]),
                decreases a@.len() - i,
            {
                proof {
                    assert(decreases_to!(*n => n->Array_0));
                    assert(decreases_to!(*a => a[i as int]));
                }
                let c = clone_node(&a[i]);
                out.push(c);
                i = i + 1;
            }
            proof {
                lemma_items_view(out@, out@.len() as int);
                lemma_items_view(a@, a@.len() as int);
                assert(items_view(out@, out@.len() as int) =~= items_view(a@, a@.len() as int));
            }
            JsonNode::Array(out)
        },
        JsonNode::Object(m) => {
            let mut out: Vec<(String, JsonNode)> = Vec::new();
            let mut i: usize = 0;
            while i < m.len()
                invariant
                    *n == JsonNode::Object(*m),
                    i <= m@.len(),
                    out@.len() == i,
                    forall|j: int| 0 <= j < i ==> (#[trigger] out@[j]).0@ == m@[j].0@ && view_of(out@[j].1)
                        == view_of(m@[j].1),
                decreases m@.len() - i,
            {
                proof {
                    assert(decreases_to!(*n => n->Object_0));
                    assert(decreases_to!(*m => m[i as int]));
                    assert(decreases_to!(m[i as int] => m[i as int].1));
                }
                let c = clone_node(&m[i].1);
                out.push((m[i].0.clone(), c));
                i = i + 1;
            }
            proof {
                lemma_members_view(out@, out@.len() as int);
                lemma_members_view(m@, m@.len() as int);
                assert(members_view(out@, out@.len() as int) =~= members_view(m@, m@.len() as int));
            }
            JsonNode::Object(out)
        },
    }
}

proof fn lemma_member_at(m: Seq<(Seq<char>, JsonView)>, key: Seq<char>, i: int)
    requires
        0 <= i <= m.len(),
        forall|j: int| 0 <= j < i ==> (#[trigger] m[j]).0 != key,
        i < m.len() ==> m[i].0 == key,
    ensures
        member(m, key) == if i < m.len() { Some(m[i].1) } else { None },
    decreases i,
{
    if i > 0 {
        let t = m.drop_first();
        assert forall|j: int| 0 <= j < i - 1 implies (#[trigger] t[j]).0 != key by {
            assert(t[j] == m[j + 1]);
        }
        assert(m[0].0 != key);
        lemma_member_at(t, key, i - 1);
    }
}

/// Index of the member under `key`, if any.
fn find_member(m: &Vec<(String, JsonNode)>, key: &str) -> (r: Option<usize>)
    ensures
        match r {
            Some(i) => i < m@.len() && member(members_view(m@, m@.len() as int), key@) == Some(
                view_of(m@[i as int].1),
            ),
            None => member(members_view(m@, m@.len() as int), key@) is None,
        },
{
    let ghost mv = members_view(m@, m@.len() as int);
    proof {
        lemma_members_view(m@, m@.len() as int);
    }
    let mut i: usize = 0;
    while i < m.len()
        invariant
            i <= m@.len(),
            mv == members_view(m@, m@.len() as int),
            mv.len() == m@.len(),
            forall|j: int| 0 <= j < m@.len() ==> #[trigger] mv[j] == (m@[j].0@, view_of(m@[j].1)),
            forall|j: int| 0 <= j < i ==> (#[trigger] mv[j]).0 != key@,
        decreases m@.len() - i,
    {
        if str_eq(m[i].0.as_str(), key) {
            proof {
                lemma_member_at(mv, key@, i as int);
            }
            return Some(i);
        }
        i = i + 1;
    }
    proof {
        lemma_member_at(mv, key@, i as int);
    }
    None
}

/// The series name of a `Data` object, if the members make one.
fn data_leaf_name(m: &Vec<(String, JsonNode)>) -> (r: Option<&String>)
    ensures
        match r {
            Some(name) => data_leaf(members_view(m@, m@.len() as int)) == Some(name@),
            None => data_leaf(members_view(m@, m@.len() as int)) is None,
        },
{
    let op = find_member(m, "op");
    let is_data = match op {
        Some(i) => match &m[i].1 {
            JsonNode::Str(s) => str_eq(s.as_str(), "Data"),
            _ => false,
        },
        None => false,
    };
    if !is_data {
        return None;
    }
    match find_member(m, "name") {
        Some(j) => match &m[j].1 {
            JsonNode::Str(s) => Some(s),
            _ => None,
        },
        None => None,
    }
}

/// Adds to `out` (ascending, as [`names_ascending`]) the name of every
/// `{"op": "Data", "name": …}` object in the tree, each name once.
pub fn collect_series(node: &JsonNode, out: &mut Vec<String>)
    requires
        names_ascending(names(old(out)@)),
    ensures
        names_ascending(names(final(out)@)),
        forall|y: Seq<char>|
            #![trigger names(final(out)@).contains(y)]
            names(final(out)@).contains(y) <==> (names(old(out)@).contains(y) || reads_series(
                view_of(*node),
                y,
            )),
    decreases node,
{
    let ghost before = names(out@);
    match node {
        JsonNode::Object(m) => {
            let ghost mv = members_view(m@, m@.len() as int);
            proof {
                lemma_members_view(m@, m@.len() as int);
            }
            match data_leaf_name(m) {
                Some(name) => insert_name(out, name.as_str()),
                None => {},
            }
            let mut i: usize = 0;
            while i < m.len()
                invariant
                    *node == JsonNode::Object(*m),
                    i <= m@.len(),
                    mv == members_view(m@, m@.len() as int),
                    mv.len() == m@.len(),
                    forall|j: int| 0 <= j < m@.len() ==> #[trigger] mv[j] == (m@[j].0@, view_of(m@[j].1)),
                    names_ascending(names(out@)),
                    forall|y: Seq<char>|
                        #![trigger names(out@).contains(y)]
                        names(out@).contains(y) <==> (before.contains(y) || data_leaf(mv) == Some(y)
                            || members_read(mv, i as int, y)),
                decreases m@.len() - i,
            {
                proof {
                    assert(decreases_to!(*node => node->Object_0));
                    assert(decreases_to!(*m => m[i as int]));
                    assert(decreases_to!(m[i as int] => m[i as int].1));
                }
                collect_series(&m[i].1, out);
                proof {
                    assert(mv[i as int].1 == view_of(m@[i as int].1));
                }
                i = i + 1;
            }
        },
        JsonNode::Array(a) => {
            let ghost av = items_view(a@, a@.len() as int);
            proof {
                lemma_items_view(a@, a@.len() as int);
            }
            let mut i: usize = 0;
            while i < a.len()
                invariant
                    *node == JsonNode::Array(*a),
                    i <= a@.len(),
                    av == items_view(a@, a@.len() as int),
                    av.len() == a@.len(),
                    forall|j: int| 0 <= j < a@.len() ==> #[trigger] av[j] == view_of(a@[j]),
                    names_ascending(names(out@)),
                    forall|y: Seq<char>|
                        #![trigger names(out@).contains(y)]
                        names(out@).contains(y) <==> (before.contains(y) || items_read(av, i as int, y)),
                decreases a@.len() - i,
            {
                proof {
                    assert(decreases_to!(*node => node->Array_0));
                    assert(decreases_to!(*a => a[i as int]));
                }
                collect_series(&a[i], out);
                proof {
                    assert(av[i as int] == view_of(a@[i as int]));
                }
                i = i + 1;
            }
        },
        _ => {},
    }
}

/// A spec that parsed reads `y`.
pub open spec fn parsed_reads(spec: Option<JsonNode>, y: Seq<char>) -> bool {
    match spec {
        Some(t) => reads_series(view_of(t), y),
        None => false,
    }
}

/// `y` is read by one of the specs that parsed (`Some`).
pub open spec fn specs_read(specs: Seq<Option<JsonNode>>, y: Seq<char>) -> bool {
    exists|i: int| 0 <= i < specs.len() && #[trigger] parsed_reads(specs[i], y)
}

/// Every series name the specs read, ascending and each once; a spec that
/// did not parse (`None`) contributes nothing.
pub fn referenced_series(specs: &Vec<Option<JsonNode>>) -> (r: Vec<String>)
    ensures
        names_ascending(names(r@)),
        forall|y: Seq<char>| #![trigger names(r@).contains(y)]
            names(r@).contains(y) <==> specs_read(specs@, y),
{
    let mut out: Vec<String> = Vec::new();
    let mut i: usize = 0;
    proof {
        assert(names(out@) =~= Seq::<Seq<char>>::empty());
    }
    while i < specs.len()
        invariant
            i <= specs@.len(),
            names_ascending(names(out@)),
            forall|y: Seq<char>| #![trigger names(out@).contains(y)]
                names(out@).contains(y) <==> specs_read(specs@.subrange(0, i as int), y),
        decreases specs@.len() - i,
    {
        let ghost mid = names(out@);
        match &specs[i] {
            Some(t) => collect_series(t, &mut out),
            None => {},
        }
        proof {
            let pre = specs@.subrange(0, i as int);
            let cur = specs@.subrange(0, i + 1);
            assert(cur[i as int] == specs@[i as int]);
            assert forall|y: Seq<char>| #![trigger names(out@).contains(y)]
                names(out@).contains(y) <==> specs_read(cur, y) by {
                if parsed_reads(cur[i as int], y) {
                    assert(names(out@).contains(y));
                }
                if names(out@).contains(y) && !mid.contains(y) {
                    assert(parsed_reads(cur[i as int], y));
                }
                if specs_read(pre, y) {
                    let k = choose|k: int| 0 <= k < pre.len() && #[trigger] parsed_reads(pre[k], y);
                    assert(cur[k] == pre[k]);
                }
                if specs_read(cur, y) {
                    let k = choose|k: int| 0 <= k < cur.len() && #[trigger] parsed_reads(cur[k], y);
                    if k < i {
                        assert(pre[k] == cur[k]);
                    }
                }
            }
        }
        i = i + 1;
    }
    proof {
        assert(specs@.subrange(0, specs@.len() as int) =~= specs@);
    }
    out
}

// ---------------------------------------------------------------------------
// Longest window
// ---------------------------------------------------------------------------

pub open spec fn max_nat(a: nat, b: nat) -> nat {
    if a >= b { a } else { b }
}

/// The keys that carry a window length: `n`, `nwindow`, `d`.
pub open spec fn is_window_key(k: Seq<char>) -> bool {
    k == "n"@ || k == "nwindow"@ || k == "d"@
}

/// The window a member states itself: its value, taken as a `usize`, when
/// the key is a window key and the value an unsigned integer; else 0.
pub open spec fn own_window(key: Seq<char>, v: JsonView) -> nat {
    if is_window_key(key) {
        match v {
            JsonView::Number(_, Some(u)) => (u as usize) as nat,
            _ => 0,
        }
    } else {
        0
    }
}

/// The largest window stated anywhere in the tree (0 when none is).
pub open spec fn lookback(v: JsonView) -> nat
    decreases v, 0nat,
{
    match v {
        JsonView::Object(m) => members_max(m, m.len() as int),
        JsonView::Array(a) => items_max(a, a.len() as int),
        _ => 0,
    }
}

/// The largest window within the first `k` items.
pub open spec fn items_max(s: Seq<JsonView>, k: int) -> nat
    decreases s, k,
{
    if k <= 0 || k > s.len() {
        0
    } else {
        max_nat(items_max(s, k - 1), lookback(s[k - 1]))
    }
}

/// The largest window within the first `k` members, their own included.
pub open spec fn members_max(s: Seq<(Seq<char>, JsonView)>, k: int) -> nat
    decreases s, k,
{
    if k <= 0 || k > s.len() {
        0
    } else {
        max_nat(members_max(s, k - 1), max_nat(own_window(s[k - 1].0, s[k - 1].1), lookback(s[k - 1].1)))
    }
}

proof fn lemma_members_max(s: Seq<(Seq<char>, JsonView)>, k: int)
    requires
        0 <= k <= s.len(),
    ensures
        forall|i: int| 0 <= i < k ==> members_max(s, k) >= own_window(#[trigger] s[i].0, s[i].1)
            && members_max(s, k) >= lookback(s[i].1),
        members_max(s, k) == 0 || exists|i: int| 0 <= i < k && (members_max(s, k) == own_window(#[trigger] s[i].0, s[i].1)
            || members_max(s, k) == lookback(s[i].1)),
    decreases k,
{
    if k > 0 {
        lemma_members_max(s, k - 1);
        let prev = members_max(s, k - 1);
        if prev != 0 && members_max(s, k) == prev {
            let i = choose|i: int| 0 <= i < k - 1 && (prev == own_window(#[trigger] s[i].0, s[i].1) || prev == lookback(s[i].1));
            assert(0 <= i < k);
        }
        if members_max(s, k) != prev {
            assert(own_window(s[k - 1].0, s[k - 1].1) == members_max(s, k) || lookback(s[k - 1].1) == members_max(s, k));
        }
    }
}

proof fn lemma_items_max(s: Seq<JsonView>, k: int)
    requires
        0 <= k <= s.len(),
    ensures
        forall|i: int| 0 <= i < k ==> items_max(s, k) >= lookback(#[trigger] s[i]),
        items_max(s, k) == 0 || exists|i: int| 0 <= i < k && items_max(s, k) == lookback(#[trigger] s[i]),
    decreases k,
{
    if k > 0 {
        lemma_items_max(s, k - 1);
        let prev = items_max(s, k - 1);
        if prev != 0 && items_max(s, k) == prev {
            let i = choose|i: int| 0 <= i < k - 1 && prev == lookback(#[trigger] s[i]);
            assert(0 <= i < k);
        }
    }
}

/// The lookback of a tree is the largest window in it: for an object, at
/// least the own window of every member (an unsigned integer under `n`,
/// `nwindow` or `d`) and the lookback of every member's value, and equal to
/// one of them (or 0 when they are all 0); for an array, at least the
/// lookback of every item and equal to one of them (or 0); 0 for a leaf.
pub proof fn law_lookback_is_largest_window(v: JsonView)
    ensures
        v matches JsonView::Object(m) ==> {
            &&& forall|i: int| 0 <= i < m.len() ==> lookback(v) >= own_window(#[trigger] m[i].0, m[i].1)
                && lookback(v) >= lookback(m[i].1)
            &&& lookback(v) == 0 || exists|i: int| 0 <= i < m.len() && (lookback(v) == own_window(#[trigger] m[i].0, m[i].1)
                || lookback(v) == lookback(m[i].1))
        },
        v matches JsonView::Array(a) ==> {
            &&& forall|i: int| 0 <= i < a.len() ==> lookback(v) >= lookback(#[trigger] a[i])
            &&& lookback(v) == 0 || exists|i: int| 0 <= i < a.len() && lookback(v) == lookback(#[trigger] a[i])
        },
        !(v is Object) && !(v is Array) ==> lookback(v) == 0,
{
    match v {
        JsonView::Object(m) => lemma_members_max(m, m.len() as int),
        JsonView::Array(a) => lemma_items_max(a, a.len() as int),
        _ => {},
    }
}

/// A window key holding an unsigned integer states that window (as a
/// `usize`); any other member states none.
pub proof fn law_own_window(key: Seq<char>, v: JsonView)
    ensures
        (key == "n"@ || key == "nwindow"@ || key == "d"@) ==> (v matches JsonView::Number(_, Some(u)) ==> own_window(key, v)
            == (u as usize) as nat),
        !(key == "n"@ || key == "nwindow"@ || key == "d"@) ==> own_window(key, v) == 0,
        !(v matches JsonView::Number(_, Some(_))) ==> own_window(key, v) == 0,
{
}

fn is_window_key_str(k: &str) -> (r: bool)
    ensures
        r == is_window_key(k@),
{
    str_eq(k, "n") || str_eq(k, "nwindow") || str_eq(k, "d")
}

/// The largest window argument (`n`, `nwindow` or `d`) anywhere in a spec
/// tree, nested in objects or arrays: the automatic warmup of a
/// walk-forward run.
pub fn max_lookback(spec: &JsonNode) -> (r: usize)
    ensures
        r == lookback(view_of(*spec)),
    decreases spec,
{
    match spec {
        JsonNode::Object(m) => {
            let ghost mv = members_view(m@, m@.len() as int);
            proof {
                lemma_members_view(m@, m@.len() as int);
            }
            let mut best: usize = 0;
            let mut i: usize = 0;
            while i < m.len()
                invariant
                    *spec == JsonNode::Object(*m),
                    i <= m@.len(),
                    mv == members_view(m@, m@.len() as int),
                    mv.len() == m@.len(),
                    forall|j: int| 0 <= j < m@.len() ==> #[trigger] mv[j] == (m@[j].0@, view_of(m@[j].1)),
                    best == members_max(mv, i as int),
                decreases m@.len() - i,
            {
                proof {
                    assert(decreases_to!(*spec => spec->Object_0));
                    assert(decreases_to!(*m => m[i as int]));
                    assert(decreases_to!(m[i as int] => m[i as int].1));
                }
                let own: usize = if is_window_key_str(m[i].0.as_str()) {
                    match &m[i].1 {
                        JsonNode::Number { unsigned: Some(u), .. } => *u as usize,
                        _ => 0,
                    }
                } else {
                    0
                };
                let inner = max_lookback(&m[i].1);
                let here = if own >= inner { own } else { inner };
                if here > best {
                    best = here;
                }
                proof {
                    assert(mv[i as int] == (m@[i as int].0@, view_of(m@[i as int].1)));
                }
                i = i + 1;
            }
            best
        },
        JsonNode::Array(a) => {
            let ghost av = items_view(a@, a@.len() as int);
            proof {
                lemma_items_view(a@, a@.len() as int);
            }
            let mut best: usize = 0;
            let mut i: usize = 0;
            while i < a.len()
                invariant
                    *spec == JsonNode::Array(*a),
                    i <= a@.len(),
                    av == items_view(a@, a@.len() as int),
                    av.len() == a@.len(),
                    forall|j: int| 0 <= j < a@.len() ==> #[trigger] av[j] == view_of(a@[j]),
                    best == items_max(av, i as int),
                decreases a@.len() - i,
            {
                proof {
                    assert(decreases_to!(*spec => spec->Array_0));
                    assert(decreases_to!(*a => a[i as int]));
                }
                let inner = max_lookback(&a[i]);
                if inner > best {
                    best = inner;
                }
                proof {
                    assert(av[i as int] == view_of(a@[i as int]));
                }
                i = i + 1;
            }
            best
        },
        _ => 0,
    }
}

// ---------------------------------------------------------------------------
// Placeholder substitution
// ---------------------------------------------------------------------------

/// The parameter a string names when it is a `"$name"` placeholder.
pub open spec fn placeholder(s: Seq<char>) -> Option<Seq<char>> {
    if s.len() > 0 && s[0] == '$' {
        Some(s.drop_first())
    } else {
        None
    }
}

/// The tree with every `"$name"` string whose `name` the binding holds
/// replaced by the bound value; other strings, unbound placeholders
/// included, and all other leaves stay as they are.
pub open spec fn subst(v: JsonView, b: Seq<(Seq<char>, JsonView)>) -> JsonView
    decreases v, 0nat,
{
    match v {
        JsonView::Str(s) => match placeholder(s) {
            Some(name) => match member(b, name) {
                Some(w) => w,
                None => v,
            },
            None => v,
        },
        JsonView::Object(m) => JsonView::Object(subst_members(m, m.len() as int, b)),
        JsonView::Array(a) => JsonView::Array(subst_items(a, a.len() as int, b)),
        _ => v,
    }
}

/// The first `k` items, substituted.
pub open spec fn subst_items(s: Seq<JsonView>, k: int, b: Seq<(Seq<char>, JsonView)>) -> Seq<JsonView>
    decreases s, k,
{
    if k <= 0 || k > s.len() {
        Seq::empty()
    } else {
        subst_items(s, k - 1, b).push(subst(s[k - 1], b))
    }
}

/// The first `k` members, their values substituted.
pub open spec fn subst_members(s: Seq<(Seq<char>, JsonView)>, k: int, b: Seq<(Seq<char>, JsonView)>) -> Seq<(Seq<char>, JsonView)>
    decreases s, k,
{
    if k <= 0 || k > s.len() {
        Seq::empty()
    } else {
        subst_members(s, k - 1, b).push((s[k - 1].0, subst(s[k - 1].1, b)))
    }
}

proof fn lemma_subst_items(s: Seq<JsonView>, k: int, b: Seq<(Seq<char>, JsonView)>)
    requires
        0 <= k <= s.len(),
    ensures
        subst_items(s, k, b).len() == k,
        forall|i: int| 0 <= i < k ==> #[trigger] subst_items(s, k, b)[i] == subst(s[i], b),
    decreases k,
{
    if k > 0 {
        lemma_subst_items(s, k - 1, b);
    }
}

proof fn lemma_subst_members(s: Seq<(Seq<char>, JsonView)>, k: int, b: Seq<(Seq<char>, JsonView)>)
    requires
        0 <= k <= s.len(),
    ensures
        subst_members(s, k, b).len() == k,
        forall|i: int| 0 <= i < k ==> #[trigger] subst_members(s, k, b)[i] == (s[i].0, subst(s[i].1, b)),
    decreases k,
{
    if k > 0 {
        lemma_subst_members(s, k - 1, b);
    }
}

/// The view of a binding list.
pub open spec fn binding_view(b: Seq<(String, JsonNode)>) -> Seq<(Seq<char>, JsonView)> {
    members_view(b, b.len() as int)
}

/// A copy of the tree in which every string `"$name"` whose `name` the
/// binding holds is replaced by a copy of the bound value (see [`subst`]).
pub fn substitute(node: &JsonNode, binding: &Vec<(String, JsonNode)>) -> (r: JsonNode)
    ensures
        view_of(r) == subst(view_of(*node), binding_view(binding@)),
    decreases node,
{
    let ghost bv = binding_view(binding@);
    match node {
        JsonNode::Str(s) => {
            let n = s.unicode_len();
            if n > 0 && s.as_str().get_char(0) == '$' {
                let name = s.as_str().substring_char(1, n);
                proof {
                    assert(name@ =~= s@.drop_first());
                }
                match find_member(binding, name) {
                    Some(j) => {
                        return clone_node(&binding[j].1);
                    },
                    None => {},
                }
            }
            clone_node(node)
        },
        JsonNode::Object(m) => {
            let ghost mv = members_view(m@, m@.len() as int);
            proof {
                lemma_members_view(m@, m@.len() as int);
            }
            let mut out: Vec<(String, JsonNode)> = Vec::new();
            let mut i: usize = 0;
            while i < m.len()
                invariant
                    *node == JsonNode::Object(*m),
                    bv == binding_view(binding@),
                    i <= m@.len(),
                    mv == members_view(m@, m@.len() as int),
                    mv.len() == m@.len(),
                    forall|j: int| 0 <= j < m@.len() ==> #[trigger] mv[j] == (m@[j].0@, view_of(m@[j].1)),
                    out@.len() == i,
                    forall|j: int| 0 <= j < i ==> (#[trigger] out@[j]).0@ == mv[j].0 && view_of(out@[j].1)
                        == subst(mv[j].1, bv),
                decreases m@.len() - i,
            {
                proof {
                    assert(decreases_to!(*node => node->Object_0));
                    assert(decreases_to!(*m => m[i as int]));
                    assert(decreases_to!(m[i as int] => m[i as int].1));
                }
                let v = substitute(&m[i].1, binding);
                out.push((m[i].0.clone(), v));
                proof {
                    assert(mv[i as int] == (m@[i as int].0@, view_of(m@[i as int].1)));
                }
                i = i + 1;
            }
            proof {
                lemma_members_view(out@, out@.len() as int);
                lemma_subst_members(mv, mv.len() as int, bv);
                assert(members_view(out@, out@.len() as int) =~= subst_members(mv, mv.len() as int, bv));
            }
            JsonNode::Object(out)
        },
        JsonNode::Array(a) => {
            let ghost av = items_view(a@, a@.len() as int);
            proof {
                lemma_items_view(a@, a@.len() as int);
            }
            let mut out: Vec<JsonNode> = Vec::new();
            let mut i: usize = 0;
            while i < a.len()
                invariant
                    *node == JsonNode::Array(*a),
                    bv == binding_view(binding@),
                    i <= a@.len(),
                    av == items_view(a@, a@.len() as int),
                    av.len() == a@.len(),
                    forall|j: int| 0 <= j < a@.len() ==> #[trigger] av[j] == view_of(a@[j]),
                    out@.len() == i,
                    forall|j: int| 0 <= j < i ==> view_of(#[trigger] out@[j]) == subst(av[j], bv),
                decreases a@.len() - i,
            {
                proof {
                    assert(decreases_to!(*node => node->Array_0));
                    assert(decreases_to!(*a => a[i as int]));
                }
                let v = substitute(&a[i], binding);
                out.push(v);
                proof {
                    assert(av[i as int] == view_of(a@[i as int]));
                }
                i = i + 1;
            }
            proof {
                lemma_items_view(out@, out@.len() as int);
                lemma_subst_items(av, av.len() as int, bv);
                assert(items_view(out@, out@.len() as int) =~= subst_items(av, av.len() as int, bv));
            }
            JsonNode::Array(out)
        },
        _ => clone_node(node),
    }
}

/// Substituting with an empty binding leaves a tree as it is: an unbound
/// placeholder is kept, never dropped or emptied.
pub proof fn law_substitute_without_binding(v: JsonView)
    ensures
        subst(v, Seq::empty()) == v,
    decreases v,
{
    let e = Seq::<(Seq<char>, JsonView)>::empty();
    match v {
        JsonView::Array(a) => {
            lemma_subst_items(a, a.len() as int, e);
            assert forall|i: int| 0 <= i < a.len() implies #[trigger] subst_items(a, a.len() as int, e)[i]
                == a[i] by {
                assert(decreases_to!(v => v->Array_0));
                assert(decreases_to!(a => a[i]));
                law_substitute_without_binding(a[i]);
            }
            assert(subst_items(a, a.len() as int, e) =~= a);
        },
        JsonView::Object(m) => {
            lemma_subst_members(m, m.len() as int, e);
            assert forall|i: int| 0 <= i < m.len() implies #[trigger] subst_members(m, m.len() as int, e)[i]
                == m[i] by {
                assert(decreases_to!(v => v->Object_0));
                assert(decreases_to!(m => m[i]));
                assert(decreases_to!(m[i] => m[i].1));
                law_substitute_without_binding(m[i].1);
            }
            assert(subst_members(m, m.len() as int, e) =~= m);
        },
        _ => {},
    }
}

// ---------------------------------------------------------------------------
// Parameter grids
// ---------------------------------------------------------------------------

/// One parameter of a grid: its name, the values it takes, and the JSON
/// text of each value (`labels[i]` renders `values[i]`; variant names are
/// built from it).
pub struct GridParam {
    pub name: String,
    pub values: Vec<JsonNode>,
    pub labels: Vec<String>,
}

/// A spec template whose `"$name"` strings are placeholders, with the
/// values of each parameter (in name order).
pub struct GridSpec {
    pub spec: JsonNode,
    pub params: Vec<GridParam>,
}

impl GridSpec {
    /// Every parameter has one label per value.
    pub open spec fn wf(&self) -> bool {
        forall|k: int| 0 <= k < self.params@.len() ==> (#[trigger] self.params@[k]).labels@.len()
            == self.params@[k].values@.len()
    }
}

/// How many values each parameter takes.
pub open spec fn param_lens(ps: Seq<GridParam>) -> Seq<usize> {
    Seq::new(ps.len(), |k: int| ps[k].values@.len() as usize)
}

pub open spec fn param_names(ps: Seq<GridParam>) -> Seq<Seq<char>> {
    Seq::new(ps.len(), |k: int| ps[k].name@)
}

pub open spec fn param_labels(ps: Seq<GridParam>) -> Seq<Seq<Seq<char>>> {
    Seq::new(ps.len(), |k: int| names(ps[k].labels@))
}

/// The binding of grid tuple `idx`: each parameter to its `idx[k]`-th value.
pub open spec fn tuple_binding(ps: Seq<GridParam>, idx: Seq<usize>) -> Seq<(Seq<char>, JsonView)> {
    Seq::new(ps.len(), |k: int| (ps[k].name@, view_of(ps[k].values@[idx[k] as int])))
}

/// One named variant per combination of parameter values (the cartesian
/// product in odometer order, the last parameter varying fastest). Variant
/// `t` is named `name=label` per parameter, comma-joined (`base` for a grid
/// without parameters), and is the template with the combination's values
/// substituted for their placeholders. Every parameter needs a value.
pub fn expand_grid(grid: &GridSpec) -> (r: Vec<(String, JsonNode)>)
    requires
        grid.wf(),
        forall|k: int| 0 <= k < grid.params@.len() ==> (#[trigger] grid.params@[k]).values@.len() > 0,
        grid_size(param_lens(grid.params@)) <= usize::MAX,
    ensures
        r@.len() == grid_size(param_lens(grid.params@)),
        forall|t: int| 0 <= t < r@.len() ==> (#[trigger] r@[t]).0@ == (if grid.params@.len() == 0 {
            "base"@
        } else {
            spec_variant_name(
                param_names(grid.params@),
                param_labels(grid.params@),
                grid_tuples(param_lens(grid.params@))[t],
            )
        }),
        forall|t: int| 0 <= t < r@.len() ==> view_of((#[trigger] r@[t]).1) == subst(
            view_of(grid.spec),
            tuple_binding(grid.params@, grid_tuples(param_lens(grid.params@))[t]),
        ),
{
    let ps = &grid.params;
    let np = ps.len();
    let mut pnames: Vec<String> = Vec::new();
    let mut plabels: Vec<Vec<String>> = Vec::new();
    let mut lens: Vec<usize> = Vec::new();
    let mut k: usize = 0;
    while k < np
        invariant
            np == ps@.len(),
            k <= np,
            pnames@.len() == k,
            plabels@.len() == k,
            lens@.len() == k,
            forall|j: int| 0 <= j < k ==> (#[trigger] pnames@[j])@ == ps@[j].name@,
            forall|j: int| 0 <= j < k ==> names((#[trigger] plabels@[j])@) == names(ps@[j].labels@),
            forall|j: int| 0 <= j < k ==> #[trigger] lens@[j] == ps@[j].values@.len(),
        decreases np - k,
    {
        pnames.push(ps[k].name.clone());
        plabels.push(clone_names(&ps[k].labels));
        lens.push(ps[k].values.len());
        k = k + 1;
    }
    let ghost pl = param_lens(ps@);
    proof {
        assert(lens@ =~= pl);
        assert(pnames@.map_values(|s: String| s@) =~= param_names(ps@));
        let lv = plabels@.map_values(|v: Vec<String>| v@.map_values(|s: String| s@));
        assert forall|j: int| 0 <= j < np implies #[trigger] lv[j] == param_labels(ps@)[j] by {
            assert(names(plabels@[j]@) =~= plabels@[j]@.map_values(|s: String| s@));
        }
        assert(lv =~= param_labels(ps@));
    }
    let tuples = grid_indices(&lens);
    let ghost gt = grid_tuples(pl);
    proof {
        crate::research::law_grid_size(pl);
        crate::research::law_grid_tuples_in_range(pl);
        assert forall|m: int, j: int| 0 <= m < gt.len() && 0 <= j < pl.len() implies (#[trigger] gt[m][j]) < pl[j] by {
            assert(gt[m].len() == pl.len());
        }
    }
    let mut out: Vec<(String, JsonNode)> = Vec::new();
    let mut t: usize = 0;
    while t < tuples.len()
        invariant
            grid.wf(),
            ps == &grid.params,
            np == ps@.len(),
            pl == param_lens(ps@),
            gt == grid_tuples(pl),
            lens@ == pl,
            pnames@.map_values(|s: String| s@) == param_names(ps@),
            plabels@.map_values(|v: Vec<String>| v@.map_values(|s: String| s@)) == param_labels(ps@),
            plabels@.len() == np,
            pnames@.len() == np,
            forall|j: int| 0 <= j < np ==> names((#[trigger] plabels@[j])@) == names(ps@[j].labels@),
            tuples@.len() == gt.len(),
            forall|m: int| 0 <= m < tuples@.len() ==> (#[trigger] tuples@[m])@ == gt[m],
            forall|m: int| 0 <= m < gt.len() ==> (#[trigger] gt[m]).len() == pl.len(),
            forall|m: int, j: int| 0 <= m < gt.len() && 0 <= j < pl.len() ==> (#[trigger] gt[m][j]) < pl[j],
            t <= tuples@.len(),
            out@.len() == t,
            forall|q: int| 0 <= q < t ==> (#[trigger] out@[q]).0@ == (if np == 0 {
                "base"@
            } else {
                spec_variant_name(param_names(ps@), param_labels(ps@), gt[q])
            }),
            forall|q: int| 0 <= q < t ==> view_of((#[trigger] out@[q]).1) == subst(
                view_of(grid.spec),
                tuple_binding(ps@, gt[q]),
            ),
        decreases tuples@.len() - t,
    {
        let idx = &tuples[t];
        proof {
            assert(idx@ == gt[t as int]);
            assert forall|j: int| 0 <= j < np implies idx@[j] < (#[trigger] plabels@[j])@.len() by {
                assert(gt[t as int][j] < pl[j]);
                assert(names(plabels@[j]@).len() == plabels@[j]@.len());
                assert(names(ps@[j].labels@).len() == ps@[j].labels@.len());
            }
        }
        let name = variant_name(&pnames, &plabels, idx);
        let mut binding: Vec<(String, JsonNode)> = Vec::new();
        let mut k: usize = 0;
        while k < np
            invariant
                ps == &grid.params,
                np == ps@.len(),
                pl == param_lens(ps@),
                idx@ == gt[t as int],
                gt[t as int].len() == pl.len(),
                forall|j: int| 0 <= j < pl.len() ==> (#[trigger] gt[t as int][j]) < pl[j],
                k <= np,
                binding@.len() == k,
                forall|j: int| 0 <= j < k ==> (#[trigger] binding@[j]).0@ == ps@[j].name@ && view_of(
                    binding@[j].1,
                ) == view_of(ps@[j].values@[idx@[j] as int]),
            decreases np - k,
        {
            assert(gt[t as int][k as int] < pl[k as int]);
            let v = clone_node(&ps[k].values[idx[k]]);
            binding.push((ps[k].name.clone(), v));
            k = k + 1;
        }
        proof {
            lemma_members_view(binding@, binding@.len() as int);
            assert(binding_view(binding@) =~= tuple_binding(ps@, gt[t as int]));
        }
        let v = substitute(&grid.spec, &binding);
        out.push((name, v));
        t = t + 1;
    }
    out
}

} // verus!
