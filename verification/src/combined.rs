//! Combined per-series panel files: one wide gzip CSV per series, header
//! `day,SYM1,SYM2,…`, one row per trading day, an empty cell for a missing
//! value.

use vstd::prelude::*;
use vstd::string::*;
use crate::csv::{
    gzip_bytes, gzip_text, gzip_text_bytes, gunzip_to_string, scan_combined, spec_file_text,
    spec_scan_combined, combined_rows_view, names_of, split_on, trim, trim_start, trim_end, is_ws,
    header_names, file_col, pick_cell, spec_combined_line, spec_combined_rows, CombinedLine,
    lemma_split_on_push, lemma_split_on_nonempty,
};
use crate::date::{i32_to_date, spec_format_date, spec_date_code, lemma_date_round_trip, lemma_format_date_shape};
use crate::text::is_digit;
use crate::error::DataError;
use crate::panel::{Panel, names};

verus! {

/// `,` followed by each piece, concatenated.
pub open spec fn comma_prefixed(pieces: Seq<Seq<char>>) -> Seq<char>
    decreases pieces.len(),
{
    if pieces.len() == 0 {
        Seq::empty()
    } else {
        comma_prefixed(pieces.drop_last()) + ","@ + pieces.last()
    }
}

/// The header line: `day,<symbols…>\n`.
pub open spec fn header_line(symbols: Seq<Seq<char>>) -> Seq<char> {
    "day"@ + comma_prefixed(symbols) + "\n"@
}

/// One day's line: `YYYY-MM-DD,<cells…>\n`.
pub open spec fn day_line(day: i32, cells: Seq<Seq<char>>) -> Seq<char> {
    spec_format_date(day as int) + comma_prefixed(cells) + "\n"@
}

/// The lines of the first `dates.len()` days, concatenated.
pub open spec fn day_lines(dates: Seq<i32>, cells: Seq<Seq<Seq<char>>>) -> Seq<char>
    decreases dates.len(),
{
    if dates.len() == 0 {
        Seq::empty()
    } else {
        let k = dates.len() - 1;
        day_lines(dates.drop_last(), cells) + day_line(dates[k], cells[k])
    }
}

/// The text of a combined panel file with rendered cells `cells[day][symbol]`.
pub open spec fn combined_text(dates: Seq<i32>, symbols: Seq<Seq<char>>, cells: Seq<Seq<Seq<char>>>) -> Seq<char> {
    header_line(symbols) + day_lines(dates, cells)
}

/// The character views of a table of rendered cells.
pub open spec fn cell_views(cells: Seq<Vec<String>>) -> Seq<Seq<Seq<char>>> {
    cells.map_values(|row: Vec<String>| names(row@))
}

fn append_comma_prefixed(out: &mut String, pieces: &Vec<String>)
    ensures
        final(out)@ == old(out)@ + comma_prefixed(names(pieces@)),
{
    let ghost start = out@;
    let mut i: usize = 0;
    while i < pieces.len()
        invariant
            i <= pieces@.len(),
            out@ == start + comma_prefixed(names(pieces@.subrange(0, i as int))),
        decreases pieces@.len() - i,
    {
        out.append(",");
        out.append(pieces[i].as_str());
        proof {
            let pre = pieces@.subrange(0, i + 1);
            assert(names(pre).drop_last() =~= names(pieces@.subrange(0, i as int)));
            assert(names(pre).last() == pieces@[i as int]@);
            assert(out@ =~= start + comma_prefixed(names(pre)));
        }
        i = i + 1;
    }
    assert(pieces@.subrange(0, pieces@.len() as int) =~= pieces@);
}

/// The text of a combined file for `dates` x `symbols` with each cell
/// already rendered (`cells[day][symbol]`, empty for a missing value).
pub fn combined_csv_text(dates: &Vec<i32>, symbols: &Vec<String>, cells: &Vec<Vec<String>>) -> (r: String)
    requires
        cells@.len() == dates@.len(),
    ensures
        r@ == combined_text(dates@, names(symbols@), cell_views(cells@)),
{
    let mut out = String::from_str("day");
    append_comma_prefixed(&mut out, symbols);
    out.append("\n");
    let ghost head = out@;
    assert(head == header_line(names(symbols@)));
    let mut r: usize = 0;
    while r < dates.len()
        invariant
            r <= dates@.len(),
            cells@.len() == dates@.len(),
            out@ == head + day_lines(dates@.subrange(0, r as int), cell_views(cells@)),
        decreases dates@.len() - r,
    {
        let day = i32_to_date(dates[r]);
        out.append(day.as_str());
        append_comma_prefixed(&mut out, &cells[r]);
        out.append("\n");
        proof {
            let pre = dates@.subrange(0, r + 1);
            assert(pre.drop_last() =~= dates@.subrange(0, r as int));
            assert(cell_views(cells@)[r as int] == names(cells@[r as int]@));
            assert(out@ =~= head + day_lines(pre, cell_views(cells@)));
        }
        r = r + 1;
    }
    assert(dates@.subrange(0, dates@.len() as int) =~= dates@);
    out
}

/// Serialize a panel to a combined file: the gzip of [`combined_csv_text`]
/// over the panel's axes, with `cells[day][symbol]` the rendering of each
/// cell (empty for a missing value). Writing always succeeds, and when the
/// panel [`loads_back`], reading the file for any symbols over any window
/// gives exactly the written cells of those days (see
/// [`law_combined_round_trip`] and [`read_combined`]).
pub fn write_combined_panel(panel: &Panel, cells: &Vec<Vec<String>>) -> (r: Result<Vec<u8>, DataError>)
    requires
        cells@.len() == panel.dates@.len(),
    ensures
        r is Ok,
        r matches Ok(b) ==> b@ == gzip_bytes(combined_text(panel.dates@, names(panel.symbols@), cell_views(cells@)))
            && gzip_text(b@) == Some(combined_text(panel.dates@, names(panel.symbols@), cell_views(cells@)))
            && spec_file_text(b@) == Some(combined_text(panel.dates@, names(panel.symbols@), cell_views(cells@))),
        r matches Ok(b) ==> loads_back(panel.dates@, names(panel.symbols@), cell_views(cells@)) ==> forall|
            requested: Seq<Seq<char>>,
            from: i32,
            to: i32,
        | #[trigger] spec_scan_combined(gzip_text(b@)->0, requested, from, to) == (
            expected_rows(panel.dates@, cell_views(cells@), names(panel.symbols@), requested, from, to),
            None::<Seq<char>>,
        ),
{
    let text = combined_csv_text(&panel.dates, &panel.symbols, cells);
    let r = gzip_text_bytes(text.as_str());
    proof {
        let dates = panel.dates@;
        let symbols = names(panel.symbols@);
        let cv = cell_views(cells@);
        if loads_back(dates, symbols, cv) {
            assert forall|requested: Seq<Seq<char>>, from: i32, to: i32|
                #[trigger] spec_scan_combined(combined_text(dates, symbols, cv), requested, from, to) == (
                expected_rows(dates, cv, symbols, requested, from, to),
                None::<Seq<char>>,
            ) by {
                law_combined_round_trip(dates, symbols, cv, requested, from, to);
            }
        }
    }
    r
}


/// Read a combined file (gzip CSV) for `symbols` over `[from, to]`: the
/// decoded text scanned by [`scan_combined`] (each kept day with the
/// trimmed cell of every requested symbol's column, up to the first line
/// whose day does not parse, and that line's error).
pub fn read_combined(bytes: &[u8], symbols: &Vec<String>, from: i32, to: i32)
    -> (r: Result<(Vec<(i32, Vec<Option<Vec<char>>>)>, Option<DataError>), DataError>)
    ensures
        r is Err <==> gzip_text(bytes@) is None,
        r matches Err(e) ==> e is Io,
        r matches Ok(v) ==> {
            let t = gzip_text(bytes@)->0;
            &&& combined_rows_view(v.0@) == spec_scan_combined(t, names_of(symbols@), from, to).0
            &&& (v.1 is None <==> spec_scan_combined(t, names_of(symbols@), from, to).1 is None)
            &&& (v.1 matches Some(e) ==> e matches DataError::Parse(m)
                && spec_scan_combined(t, names_of(symbols@), from, to).1 == Some(m@))
        },
{
    let text = gunzip_to_string(bytes)?;
    Ok(scan_combined(text.as_str(), symbols, from, to))
}


// ---------------------------------------------------------------------------
// Reading back what was written
// ---------------------------------------------------------------------------

/// A cell or symbol that survives the file layout: no comma, no line break,
/// no surrounding whitespace.
pub open spec fn plain(c: Seq<char>) -> bool {
    &&& !c.contains(',')
    &&& !c.contains('\n')
    &&& c.len() > 0 ==> !is_ws(c[0]) && !is_ws(c.last())
}

/// Position of `s` among `symbols`, if present.
pub open spec fn index_of(symbols: Seq<Seq<char>>, s: Seq<char>) -> Option<int> {
    if exists|j: int| 0 <= j < symbols.len() && symbols[j] == s {
        Some(choose|j: int| 0 <= j < symbols.len() && symbols[j] == s)
    } else {
        None
    }
}

/// The cell of a requested symbol on row `r`: its rendered cell when the
/// panel has the symbol.
pub open spec fn expected_cell(cells: Seq<Seq<Seq<char>>>, symbols: Seq<Seq<char>>, r: int, s: Seq<char>) -> Option<Seq<char>> {
    match index_of(symbols, s) {
        Some(j) => Some(cells[r][j]),
        None => None,
    }
}

/// The rows a read of `requested` over `[from, to]` should give back: each
/// day of the window with the cell of every requested symbol.
pub open spec fn expected_rows(
    dates: Seq<i32>,
    cells: Seq<Seq<Seq<char>>>,
    symbols: Seq<Seq<char>>,
    requested: Seq<Seq<char>>,
    from: i32,
    to: i32,
) -> Seq<(i32, Seq<Option<Seq<char>>>)>
    decreases dates.len(),
{
    if dates.len() == 0 {
        Seq::empty()
    } else {
        let k = dates.len() - 1;
        let rest = expected_rows(dates.drop_last(), cells, symbols, requested, from, to);
        if from <= dates[k] && dates[k] <= to {
            rest.push((dates[k], requested.map_values(|s: Seq<char>| expected_cell(cells, symbols, k, s))))
        } else {
            rest
        }
    }
}

proof fn lemma_split_plain(x: Seq<char>, sep: char)
    requires
        !x.contains(sep),
    ensures
        split_on(x, sep) == seq![x],
    decreases x.len(),
{
    if x.len() > 0 {
        let y = x.drop_last();
        assert(!y.contains(sep)) by {
            if y.contains(sep) {
                let j = choose|j: int| 0 <= j < y.len() && y[j] == sep;
                assert(x[j] == sep);
            }
        }
        lemma_split_plain(y, sep);
        assert(x =~= y.push(x.last()));
        assert(x.last() != sep) by {
            assert(x[x.len() - 1] == x.last());
        }
        lemma_split_on_push(y, x.last(), sep);
        assert(seq![y].update(0, y.push(x.last())) =~= seq![x]);
    } else {
        assert(x =~= Seq::<char>::empty());
    }
}

proof fn lemma_split_then_piece(s: Seq<char>, x: Seq<char>, sep: char)
    requires
        !x.contains(sep),
    ensures
        split_on(s + seq![sep] + x, sep) == split_on(s, sep).push(x),
    decreases x.len(),
{
    lemma_split_on_nonempty(s, sep);
    if x.len() == 0 {
        assert(s + seq![sep] + x =~= s.push(sep));
        assert(x =~= Seq::<char>::empty());
        lemma_split_on_push(s, sep, sep);
    } else {
        let y = x.drop_last();
        let c = x.last();
        assert(!y.contains(sep)) by {
            if y.contains(sep) {
                let j = choose|j: int| 0 <= j < y.len() && y[j] == sep;
                assert(x[j] == sep);
            }
        }
        assert(c != sep) by {
            assert(x[x.len() - 1] == c);
        }
        lemma_split_then_piece(s, y, sep);
        assert(s + seq![sep] + x =~= (s + seq![sep] + y).push(c));
        lemma_split_on_push(s + seq![sep] + y, c, sep);
        assert(y.push(c) =~= x);
        assert(split_on(s, sep).push(y).update(split_on(s, sep).len() as int, y.push(c)) =~= split_on(s, sep).push(x));
    }
}

proof fn lemma_split_prefixed(x: Seq<char>, pieces: Seq<Seq<char>>)
    requires
        !x.contains(','),
        forall|k: int| 0 <= k < pieces.len() ==> !(#[trigger] pieces[k]).contains(','),
    ensures
        split_on(x + comma_prefixed(pieces), ',') == seq![x] + pieces,
    decreases pieces.len(),
{
    reveal_strlit(",");
    if pieces.len() == 0 {
        assert(x + comma_prefixed(pieces) =~= x);
        lemma_split_plain(x, ',');
        assert(seq![x] + pieces =~= seq![x]);
    } else {
        let init = pieces.drop_last();
        assert forall|k: int| 0 <= k < init.len() implies !(#[trigger] init[k]).contains(',') by {
            assert(init[k] == pieces[k]);
        }
        lemma_split_prefixed(x, init);
        assert(!pieces.last().contains(',')) by {
            assert(pieces[pieces.len() - 1] == pieces.last());
        }
        assert(x + comma_prefixed(pieces) =~= (x + comma_prefixed(init)) + seq![','] + pieces.last());
        lemma_split_then_piece(x + comma_prefixed(init), pieces.last(), ',');
        assert((seq![x] + init).push(pieces.last()) =~= seq![x] + pieces);
    }
}

/// The line of a day without its line break.
pub open spec fn day_body(day: i32, cells: Seq<Seq<char>>) -> Seq<char> {
    spec_format_date(day as int) + comma_prefixed(cells)
}

/// The header line without its line break.
pub open spec fn header_body(symbols: Seq<Seq<char>>) -> Seq<char> {
    "day"@ + comma_prefixed(symbols)
}

proof fn lemma_comma_prefixed_shape(pieces: Seq<Seq<char>>)
    requires
        forall|k: int| 0 <= k < pieces.len() ==> plain(#[trigger] pieces[k]),
    ensures
        !comma_prefixed(pieces).contains('\n'),
        pieces.len() > 0 ==> comma_prefixed(pieces).len() > 0 && !is_ws(comma_prefixed(pieces).last()),
    decreases pieces.len(),
{
    reveal_strlit(",");
    if pieces.len() > 0 {
        let init = pieces.drop_last();
        assert forall|k: int| 0 <= k < init.len() implies plain(#[trigger] init[k]) by {
            assert(init[k] == pieces[k]);
        }
        lemma_comma_prefixed_shape(init);
        let last = pieces.last();
        assert(plain(last)) by {
            assert(pieces[pieces.len() - 1] == last);
        }
        let cp = comma_prefixed(pieces);
        let ci = comma_prefixed(init);
        assert(cp == ci + seq![','] + last);
        if cp.contains('\n') {
            let j = choose|j: int| 0 <= j < cp.len() && cp[j] == '\n';
            if j < ci.len() {
                assert(ci[j] == '\n');
            } else if j == ci.len() {
            } else {
                assert(last[j - ci.len() - 1] == '\n');
            }
        }
        if last.len() > 0 {
            assert(cp.last() == last.last());
        } else {
            assert(cp.last() == ',');
        }
    }
}

proof fn lemma_no_char_concat(x: Seq<char>, y: Seq<char>, c: char)
    requires
        !x.contains(c),
        !y.contains(c),
    ensures
        !(x + y).contains(c),
{
    if (x + y).contains(c) {
        let j = choose|j: int| 0 <= j < (x + y).len() && (x + y)[j] == c;
        if j < x.len() {
            assert(x[j] == c);
        } else {
            assert(y[j - x.len()] == c);
        }
    }
}

proof fn lemma_date_text(d: i32)
    requires
        d >= 0,
    ensures
        !spec_format_date(d as int).contains(','),
        !spec_format_date(d as int).contains('\n'),
        spec_format_date(d as int).len() > 0,
        !is_ws(spec_format_date(d as int)[0]),
        !is_ws(spec_format_date(d as int).last()),
        trim(spec_format_date(d as int)) == spec_format_date(d as int),
        spec_date_code(spec_format_date(d as int)) == Some(d),
{
    lemma_format_date_shape(d as int);
    lemma_date_round_trip(d as int);
    let t = spec_format_date(d as int);
    if t.contains(',') {
        let j = choose|j: int| 0 <= j < t.len() && t[j] == ',';
        assert(is_digit(t[j]) || t[j] == '-');
    }
    if t.contains('\n') {
        let j = choose|j: int| 0 <= j < t.len() && t[j] == '\n';
        assert(is_digit(t[j]) || t[j] == '-');
    }
    assert(trim_start(t) == t);
    assert(trim_end(t) == t);
}

proof fn lemma_day_body(d: i32, cs: Seq<Seq<char>>)
    requires
        d >= 0,
        forall|k: int| 0 <= k < cs.len() ==> plain(#[trigger] cs[k]),
    ensures
        !day_body(d, cs).contains('\n'),
        trim(day_body(d, cs)) == day_body(d, cs),
        day_body(d, cs).len() > 0,
        split_on(day_body(d, cs), ',') == seq![spec_format_date(d as int)] + cs,
{
    lemma_date_text(d);
    lemma_comma_prefixed_shape(cs);
    let t = spec_format_date(d as int);
    let b = day_body(d, cs);
    lemma_no_char_concat(t, comma_prefixed(cs), '\n');
    assert(b[0] == t[0]);
    if cs.len() > 0 {
        assert(b.last() == comma_prefixed(cs).last());
    } else {
        assert(b =~= t);
    }
    assert(trim_start(b) == b);
    assert(trim_end(b) == b);
    assert forall|k: int| 0 <= k < cs.len() implies !(#[trigger] cs[k]).contains(',') by {
        assert(plain(cs[k]));
    }
    lemma_split_prefixed(t, cs);
}

proof fn lemma_header(symbols: Seq<Seq<char>>, s: Seq<char>)
    requires
        forall|k: int| 0 <= k < symbols.len() ==> plain(#[trigger] symbols[k]),
        forall|i: int, j: int| 0 <= i < j < symbols.len() ==> symbols[i] != symbols[j],
    ensures
        !header_body(symbols).contains('\n'),
        file_col(header_body(symbols), s) == match index_of(symbols, s) {
            Some(j) => Some(j + 1),
            None => None::<int>,
        },
{
    reveal_strlit("day");
    lemma_comma_prefixed_shape(symbols);
    let day = "day"@;
    assert(day == seq!['d', 'a', 'y']);
    assert(!day.contains(',') && !day.contains('\n')) by {
        if day.contains(',') {
            let j = choose|j: int| 0 <= j < day.len() && day[j] == ',';
        }
        if day.contains('\n') {
            let j = choose|j: int| 0 <= j < day.len() && day[j] == '\n';
        }
    }
    lemma_no_char_concat(day, comma_prefixed(symbols), '\n');
    assert forall|k: int| 0 <= k < symbols.len() implies !(#[trigger] symbols[k]).contains(',') by {
        assert(plain(symbols[k]));
    }
    lemma_split_prefixed(day, symbols);
    let hs = header_names(header_body(symbols));
    let pieces = seq![day] + symbols;
    assert(trim_start(day) == day);
    assert(trim_end(day) == day);
    assert forall|k: int| 0 <= k < pieces.len() implies trim(#[trigger] pieces[k]) == pieces[k] by {
        if k > 0 {
            assert(pieces[k] == symbols[k - 1]);
            assert(plain(symbols[k - 1]));
            let c = symbols[k - 1];
            assert(trim_start(c) == c);
            assert(trim_end(c) == c);
        }
    }
    assert(hs =~= pieces);
    match index_of(symbols, s) {
        Some(j) => {
            assert(symbols[j] == s);
            assert(hs[j + 1] == s);
            let i = choose|i: int| 1 <= i < hs.len() && hs[i] == s && forall|q: int| i < q < hs.len() ==> hs[q] != s;
            if i != j + 1 {
                assert(symbols[i - 1] == s);
                if i - 1 < j {
                    assert(symbols[i - 1] != symbols[j]);
                } else {
                    assert(hs[i] != s);
                }
            }
        },
        None => {
            if exists|i: int| 1 <= i < hs.len() && hs[i] == s {
                let i = choose|i: int| 1 <= i < hs.len() && hs[i] == s;
                assert(symbols[i - 1] == s);
            }
        },
    }
}

/// The lines of a combined text: the header, each day's line, and the empty
/// piece after the final line break.
proof fn lemma_combined_lines(dates: Seq<i32>, symbols: Seq<Seq<char>>, cells: Seq<Seq<Seq<char>>>)
    requires
        dates.len() <= cells.len(),
        !header_body(symbols).contains('\n'),
        forall|r: int| 0 <= r < dates.len() ==> !day_body(dates[r], cells[r]).contains('\n'),
    ensures
        split_on(combined_text(dates, symbols, cells), '\n') == seq![header_body(symbols)]
            + Seq::new(dates.len(), |r: int| day_body(dates[r], cells[r])) + seq![Seq::<char>::empty()],
    decreases dates.len(),
{
    reveal_strlit("\n");
    let nl = "\n"@;
    assert(nl == seq!['\n']);
    let h = header_body(symbols);
    if dates.len() == 0 {
        assert(combined_text(dates, symbols, cells) =~= h.push('\n'));
        lemma_split_plain(h, '\n');
        lemma_split_on_push(h, '\n', '\n');
        assert(seq![h] + Seq::new(0, |r: int| day_body(dates[r], cells[r])) + seq![Seq::<char>::empty()]
            =~= seq![h].push(Seq::<char>::empty()));
    } else {
        let init = dates.drop_last();
        let k = dates.len() - 1;
        assert forall|r: int| 0 <= r < init.len() implies !day_body(init[r], cells[r]).contains('\n') by {
            assert(init[r] == dates[r]);
        }
        lemma_combined_lines(init, symbols, cells);
        let t0 = combined_text(init, symbols, cells);
        let body = day_body(dates[k], cells[k]);
        assert(combined_text(dates, symbols, cells) =~= t0 + body + nl);
        // The earlier text ends with its line break.
        assert(t0.len() > 0 && t0.last() == '\n') by {
            if init.len() == 0 {
                assert(t0 =~= h + nl);
            } else {
                assert(t0 =~= combined_text(init.drop_last(), symbols, cells)
                    + day_body(init[init.len() - 1], cells[init.len() - 1]) + nl);
            }
        }
        let t1 = t0.drop_last();
        assert(t0 =~= t1.push('\n'));
        lemma_split_on_push(t1, '\n', '\n');
        let ds0 = Seq::new(init.len(), |r: int| day_body(init[r], cells[r]));
        let before = seq![h] + ds0;
        assert(split_on(t1, '\n').push(Seq::<char>::empty()) == before.push(Seq::<char>::empty()));
        assert(split_on(t1, '\n') =~= before) by {
            let a = split_on(t1, '\n').push(Seq::<char>::empty());
            let b = before.push(Seq::<char>::empty());
            assert(a.drop_last() =~= split_on(t1, '\n'));
            assert(b.drop_last() =~= before);
        }
        lemma_split_then_piece(t1, body, '\n');
        assert(t1 + seq!['\n'] + body =~= t0 + body);
        assert(t0 + body + nl =~= (t1 + seq!['\n'] + body).push('\n'));
        lemma_split_on_push(t1 + seq!['\n'] + body, '\n', '\n');
        let ds = Seq::new(dates.len(), |r: int| day_body(dates[r], cells[r]));
        assert(ds0.push(body) =~= ds) by {
            assert forall|r: int| 0 <= r < init.len() implies ds0[r] == ds[r] by {
                assert(init[r] == dates[r]);
            }
        }
        assert(before.push(body).push(Seq::<char>::empty()) =~= seq![h] + ds + seq![Seq::<char>::empty()]);
    }
}

proof fn lemma_rows_of_days(
    dates: Seq<i32>,
    cells: Seq<Seq<Seq<char>>>,
    symbols: Seq<Seq<char>>,
    requested: Seq<Seq<char>>,
    from: i32,
    to: i32,
)
    requires
        dates.len() <= cells.len(),
        forall|r: int| 0 <= r < dates.len() ==> dates[r] >= 0,
        forall|r: int| 0 <= r < dates.len() ==> (#[trigger] cells[r]).len() == symbols.len(),
        forall|r: int, j: int| 0 <= r < dates.len() && 0 <= j < symbols.len() ==> plain(#[trigger] cells[r][j]),
        forall|k: int| 0 <= k < symbols.len() ==> plain(#[trigger] symbols[k]),
        forall|i: int, j: int| 0 <= i < j < symbols.len() ==> symbols[i] != symbols[j],
    ensures
        spec_combined_rows(
            Seq::new(dates.len(), |r: int| day_body(dates[r], cells[r])),
            requested.map_values(|s: Seq<char>| file_col(header_body(symbols), s)),
            from,
            to,
        ) == (expected_rows(dates, cells, symbols, requested, from, to), None::<Seq<char>>),
    decreases dates.len(),
{
    let cols = requested.map_values(|s: Seq<char>| file_col(header_body(symbols), s));
    let lines = Seq::new(dates.len(), |r: int| day_body(dates[r], cells[r]));
    if dates.len() > 0 {
        let init = dates.drop_last();
        let k = dates.len() - 1;
        assert forall|r: int| 0 <= r < init.len() implies init[r] >= 0 by {
            assert(init[r] == dates[r]);
        }
        lemma_rows_of_days(init, cells, symbols, requested, from, to);
        assert(lines.drop_last() =~= Seq::new(init.len(), |r: int| day_body(init[r], cells[r])));
        let d = dates[k];
        let cs = cells[k];
        assert forall|q: int| 0 <= q < cs.len() implies plain(#[trigger] cs[q]) by {
            assert(plain(cells[k][q]));
        }
        lemma_day_body(d, cs);
        assert(lines.last() == day_body(d, cs));
        let pieces = seq![spec_format_date(d as int)] + cs;
        lemma_date_text(d);
        assert(pieces[0] == spec_format_date(d as int));
        if from <= d && d <= to {
            let got = cols.map_values(|c: Option<int>| pick_cell(pieces, c));
            let want = requested.map_values(|s: Seq<char>| expected_cell(cells, symbols, k, s));
            assert forall|q: int| 0 <= q < requested.len() implies got[q] == want[q] by {
                lemma_header(symbols, requested[q]);
                match index_of(symbols, requested[q]) {
                    Some(j) => {
                        assert(pieces[j + 1] == cs[j]);
                        assert(plain(cs[j]));
                        assert(trim_start(cs[j]) == cs[j]);
                        assert(trim_end(cs[j]) == cs[j]);
                    },
                    None => {},
                }
            }
            assert(got =~= want);
            assert(spec_combined_line(lines.last(), cols, from, to) == CombinedLine::Row(d, want));
        } else {
            assert(spec_combined_line(lines.last(), cols, from, to) == CombinedLine::Skip);
        }
    }
}

/// A table that survives the combined layout: non-negative day codes,
/// one row of cells per day and one cell per symbol, distinct symbols, and
/// plain symbols and cells.
pub open spec fn loads_back(dates: Seq<i32>, symbols: Seq<Seq<char>>, cells: Seq<Seq<Seq<char>>>) -> bool {
    &&& cells.len() == dates.len()
    &&& forall|r: int| 0 <= r < dates.len() ==> dates[r] >= 0
    &&& forall|r: int| 0 <= r < cells.len() ==> (#[trigger] cells[r]).len() == symbols.len()
    &&& forall|r: int, j: int| 0 <= r < cells.len() && 0 <= j < symbols.len() ==> plain(#[trigger] cells[r][j])
    &&& forall|k: int| 0 <= k < symbols.len() ==> plain(#[trigger] symbols[k])
    &&& forall|i: int, j: int| 0 <= i < j < symbols.len() ==> symbols[i] != symbols[j]
}

/// Reading a combined text back gives what was written: for a panel whose
/// days are non-negative codes, whose symbols are distinct, and whose
/// symbols and rendered cells are plain (no comma, no line break, no
/// surrounding whitespace), reading any list of symbols over `[from, to]`
/// yields exactly the days in the window, each with the written cell of
/// every requested symbol the panel has (`None` for the others), and no
/// error.
pub proof fn law_combined_round_trip(
    dates: Seq<i32>,
    symbols: Seq<Seq<char>>,
    cells: Seq<Seq<Seq<char>>>,
    requested: Seq<Seq<char>>,
    from: i32,
    to: i32,
)
    requires
        loads_back(dates, symbols, cells),
    ensures
        spec_scan_combined(combined_text(dates, symbols, cells), requested, from, to)
            == (expected_rows(dates, cells, symbols, requested, from, to), None::<Seq<char>>),
{
    lemma_header(symbols, Seq::empty());
    assert forall|r: int| 0 <= r < dates.len() implies !day_body(dates[r], cells[r]).contains('\n') by {
        let cs = cells[r];
        assert forall|q: int| 0 <= q < cs.len() implies plain(#[trigger] cs[q]) by {
            assert(plain(cells[r][q]));
        }
        lemma_day_body(dates[r], cs);
    }
    lemma_combined_lines(dates, symbols, cells);
    let lines = split_on(combined_text(dates, symbols, cells), '\n');
    let ds = Seq::new(dates.len(), |r: int| day_body(dates[r], cells[r]));
    assert(lines[0] == header_body(symbols));
    assert(lines.drop_first() =~= ds.push(Seq::<char>::empty()));
    lemma_rows_of_days(dates, cells, symbols, requested, from, to);
    let cols = requested.map_values(|s: Seq<char>| file_col(header_body(symbols), s));
    assert(requested.map_values(|s: Seq<char>| file_col(lines[0], s)) =~= cols);
    assert(ds.push(Seq::<char>::empty()).drop_last() =~= ds);
    assert(trim(Seq::<char>::empty()) =~= Seq::<char>::empty());
}

} // verus!
