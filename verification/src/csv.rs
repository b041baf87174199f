//! The per-symbol CSV layout: one row per trading day, `day` in column 0,
//! a header row (starting with `day`) and blank lines ignored, cells
//! separated by commas and trimmed of surrounding whitespace.

use vstd::prelude::*;
use vstd::string::*;
use crate::date::{spec_date_code, bad_date_message, parse_i32_digits, strip_dashes};
use crate::error::DataError;
use crate::fields::{Field, field_col, spec_field_col, spec_field_col_of};
use crate::text::{decimal, push_decimal};
use vstd::utf8::{valid_utf8, decode_utf8};
use std::io::{Read, Write};

verus! {

broadcast use vstd::string::group_string_axioms;

// ---------------------------------------------------------------------------
// Text model
// ---------------------------------------------------------------------------

/// `char::is_whitespace`: the Unicode `White_Space` characters.
pub open spec fn is_ws(c: char) -> bool {
    ||| ('\u{9}' <= c && c <= '\u{d}')
    ||| c == ' '
    ||| c == '\u{85}'
    ||| c == '\u{a0}'
    ||| c == '\u{1680}'
    ||| ('\u{2000}' <= c && c <= '\u{200a}')
    ||| c == '\u{2028}'
    ||| c == '\u{2029}'
    ||| c == '\u{202f}'
    ||| c == '\u{205f}'
    ||| c == '\u{3000}'
}

fn is_ws_char(c: char) -> (r: bool)
    ensures
        r == is_ws(c),
{
    ('\u{9}' <= c && c <= '\u{d}') || c == ' ' || c == '\u{85}' || c == '\u{a0}' || c == '\u{1680}'
        || ('\u{2000}' <= c && c <= '\u{200a}') || c == '\u{2028}' || c == '\u{2029}'
        || c == '\u{202f}' || c == '\u{205f}' || c == '\u{3000}'
}

/// The text without leading whitespace.
pub open spec fn trim_start(s: Seq<char>) -> Seq<char>
    decreases s.len(),
{
    if s.len() > 0 && is_ws(s[0]) {
        trim_start(s.drop_first())
    } else {
        s
    }
}

/// The text without trailing whitespace.
pub open spec fn trim_end(s: Seq<char>) -> Seq<char>
    decreases s.len(),
{
    if s.len() > 0 && is_ws(s.last()) {
        trim_end(s.drop_last())
    } else {
        s
    }
}

/// `str::trim`.
pub open spec fn trim(s: Seq<char>) -> Seq<char> {
    trim_end(trim_start(s))
}

/// `str::split(sep)`: the pieces between separators (one piece for a text
/// without `sep`, an empty piece after a trailing `sep`).
pub open spec fn split_on(s: Seq<char>, sep: char) -> Seq<Seq<char>>
    decreases s.len(),
{
    if s.len() == 0 {
        seq![Seq::empty()]
    } else {
        let p = split_on(s.drop_last(), sep);
        if s.last() == sep {
            p.push(Seq::empty())
        } else {
            p.update(p.len() - 1, p.last().push(s.last()))
        }
    }
}

pub(crate) proof fn lemma_split_on_nonempty(s: Seq<char>, sep: char)
    ensures
        split_on(s, sep).len() >= 1,
    decreases s.len(),
{
    if s.len() > 0 {
        lemma_split_on_nonempty(s.drop_last(), sep);
    }
}

pub(crate) proof fn lemma_split_on_push(s: Seq<char>, c: char, sep: char)
    ensures
        split_on(s.push(c), sep) == if c == sep {
            split_on(s, sep).push(Seq::empty())
        } else {
            split_on(s, sep).update(split_on(s, sep).len() - 1, split_on(s, sep).last().push(c))
        },
{
    assert(s.push(c).drop_last() =~= s);
}

proof fn lemma_trim_start_step(s: Seq<char>, lo: int, hi: int)
    requires
        0 <= lo < hi <= s.len(),
        is_ws(s[lo]),
    ensures
        trim_start(s.subrange(lo, hi)) == trim_start(s.subrange(lo + 1, hi)),
{
    assert(s.subrange(lo, hi).drop_first() =~= s.subrange(lo + 1, hi));
}

proof fn lemma_trim_end_step(s: Seq<char>, lo: int, hi: int)
    requires
        0 <= lo < hi <= s.len(),
        is_ws(s[hi - 1]),
    ensures
        trim_end(s.subrange(lo, hi)) == trim_end(s.subrange(lo, hi - 1)),
{
    assert(s.subrange(lo, hi).drop_last() =~= s.subrange(lo, hi - 1));
}

/// Trimmed bounds of `chars[lo..hi]`.
fn trim_bounds(chars: &Vec<char>, lo: usize, hi: usize) -> (r: (usize, usize))
    requires
        lo <= hi <= chars@.len(),
    ensures
        lo <= r.0 <= r.1 <= hi,
        trim(chars@.subrange(lo as int, hi as int)) == chars@.subrange(r.0 as int, r.1 as int),
{
    let mut a = lo;
    while a < hi && is_ws_char(chars[a])
        invariant
            lo <= a <= hi <= chars@.len(),
            trim_start(chars@.subrange(lo as int, hi as int)) == trim_start(chars@.subrange(a as int, hi as int)),
        decreases hi - a,
    {
        proof { lemma_trim_start_step(chars@, a as int, hi as int); }
        a = a + 1;
    }
    assert(trim_start(chars@.subrange(a as int, hi as int)) == chars@.subrange(a as int, hi as int));
    let mut b = hi;
    while b > a && is_ws_char(chars[b - 1])
        invariant
            lo <= a <= b <= hi <= chars@.len(),
            trim_end(chars@.subrange(a as int, hi as int)) == trim_end(chars@.subrange(a as int, b as int)),
        decreases b - a,
    {
        proof { lemma_trim_end_step(chars@, a as int, b as int); }
        b = b - 1;
    }
    assert(trim_end(chars@.subrange(a as int, b as int)) == chars@.subrange(a as int, b as int));
    (a, b)
}

// ---------------------------------------------------------------------------
// Rows
// ---------------------------------------------------------------------------

/// A header row.
pub open spec fn is_header(row: Seq<char>) -> bool {
    row.len() >= 3 && row[0] == 'd' && row[1] == 'a' && row[2] == 'y'
}

/// Message of a row with too few cells.
pub open spec fn short_row_message(cells: nat, col: nat) -> Seq<char> {
    "row has "@ + decimal(cells) + " cells, need > "@ + decimal(col)
}

/// What one line contributes: nothing (blank or header), a row
/// (`day`, untrimmed cell `col`), or a parse failure message.
pub enum LineOutcome {
    Skip,
    Row(i32, Seq<char>),
    Fail(Seq<char>),
}

/// The outcome of one line for value column `col`.
pub open spec fn spec_line(line: Seq<char>, col: nat) -> LineOutcome {
    let row = trim(line);
    if row.len() == 0 || is_header(row) {
        LineOutcome::Skip
    } else {
        let cells = split_on(row, ',');
        if cells.len() <= col {
            LineOutcome::Fail(short_row_message(cells.len(), col))
        } else {
            match spec_date_code(trim(cells[0])) {
                Some(d) => LineOutcome::Row(d, cells[col as int]),
                None => LineOutcome::Fail(bad_date_message(trim(cells[0]))),
            }
        }
    }
}

/// The rows of a sequence of lines, in order, up to the first failing line
/// (and its message).
pub open spec fn spec_rows(lines: Seq<Seq<char>>, col: nat) -> (Seq<(i32, Seq<char>)>, Option<Seq<char>>)
    decreases lines.len(),
{
    if lines.len() == 0 {
        (Seq::empty(), None)
    } else {
        let (rows, err) = spec_rows(lines.drop_last(), col);
        if err is Some {
            (rows, err)
        } else {
            match spec_line(lines.last(), col) {
                LineOutcome::Skip => (rows, None),
                LineOutcome::Row(d, cell) => (rows.push((d, cell)), None),
                LineOutcome::Fail(m) => (rows, Some(m)),
            }
        }
    }
}

/// The rows of a CSV text for value column `col` (see [`spec_rows`]; lines
/// are the text split at `'\n'`).
pub open spec fn spec_scan(text: Seq<char>, col: nat) -> (Seq<(i32, Seq<char>)>, Option<Seq<char>>) {
    spec_rows(split_on(text, '\n'), col)
}

/// The packed day code of `chars[lo..hi]` (dashes optional).
fn date_code_in(chars: &Vec<char>, lo: usize, hi: usize) -> (r: Option<i32>)
    requires
        lo <= hi <= chars@.len(),
    ensures
        r == spec_date_code(chars@.subrange(lo as int, hi as int)),
{
    let mut t: Vec<char> = Vec::new();
    let mut i: usize = lo;
    while i < hi
        invariant
            lo <= i <= hi <= chars@.len(),
            t@ == strip_dashes(chars@.subrange(lo as int, i as int)),
        decreases hi - i,
    {
        let c = chars[i];
        proof {
            assert(chars@.subrange(lo as int, i + 1).drop_last() =~= chars@.subrange(lo as int, i as int));
        }
        if c != '-' {
            t.push(c);
        }
        i = i + 1;
    }
    parse_i32_digits(&t)
}

/// A copy of `chars[lo..hi]`.
fn copy_range(chars: &Vec<char>, lo: usize, hi: usize) -> (r: Vec<char>)
    requires
        lo <= hi <= chars@.len(),
    ensures
        r@ == chars@.subrange(lo as int, hi as int),
{
    let mut out: Vec<char> = Vec::new();
    let mut i = lo;
    while i < hi
        invariant
            lo <= i <= hi <= chars@.len(),
            out@ == chars@.subrange(lo as int, i as int),
        decreases hi - i,
    {
        out.push(chars[i]);
        proof {
            assert(out@ =~= chars@.subrange(lo as int, i + 1));
        }
        i = i + 1;
    }
    out
}

/// Outcome of one line, with the row's value cell copied out.
enum LineResult {
    Skip,
    Row(i32, Vec<char>),
    Fail(DataError),
}

spec fn line_result_matches(r: LineResult, o: LineOutcome) -> bool {
    match (r, o) {
        (LineResult::Skip, LineOutcome::Skip) => true,
        (LineResult::Row(d, v), LineOutcome::Row(d2, v2)) => d == d2 && v@ == v2,
        (LineResult::Fail(e), LineOutcome::Fail(m)) => e matches DataError::Parse(mm) && mm@ == m,
        _ => false,
    }
}

fn scan_line(text: &str, chars: &Vec<char>, lo: usize, hi: usize, col: usize) -> (r: LineResult)
    requires
        lo <= hi <= chars@.len(),
        chars@ == text@,
    ensures
        line_result_matches(r, spec_line(chars@.subrange(lo as int, hi as int), col as nat)),
{
    let ghost line = chars@.subrange(lo as int, hi as int);
    let (a, b) = trim_bounds(chars, lo, hi);
    let ghost row = chars@.subrange(a as int, b as int);
    assert(row == trim(line));
    if a == b || (b - a >= 3 && chars[a] == 'd' && chars[a + 1] == 'a' && chars[a + 2] == 'y') {
        return LineResult::Skip;
    }
    // Split the row at commas, keeping the bounds of cell 0 and cell `col`.
    let mut commas: usize = 0;
    let mut cur: usize = a;
    let mut z0: (usize, usize) = (a, a);
    let mut zc: (usize, usize) = (a, a);
    let ghost mut pieces: Seq<Seq<char>> = seq![Seq::<char>::empty()];
    assert(chars@.subrange(a as int, a as int) =~= Seq::<char>::empty());
    let mut j: usize = a;
    while j < b
        invariant
            a <= cur <= j <= b <= chars@.len(),
            pieces == split_on(chars@.subrange(a as int, j as int), ','),
            pieces.len() == commas + 1,
            commas <= j - a,
            pieces.last() == chars@.subrange(cur as int, j as int),
            commas > 0 ==> a <= z0.0 <= z0.1 <= b && pieces[0] == chars@.subrange(z0.0 as int, z0.1 as int),
            commas > col ==> a <= zc.0 <= zc.1 <= b && pieces[col as int] == chars@.subrange(zc.0 as int, zc.1 as int),
        decreases b - j,
    {
        let c = chars[j];
        proof {
            assert(chars@.subrange(a as int, j + 1) =~= chars@.subrange(a as int, j as int).push(c));
            lemma_split_on_push(chars@.subrange(a as int, j as int), c, ',');
        }
        if c == ',' {
            if commas == 0 {
                z0 = (cur, j);
            }
            if commas == col {
                zc = (cur, j);
            }
            proof {
                pieces = pieces.push(Seq::empty());
                assert(chars@.subrange(j + 1, j + 1) =~= Seq::<char>::empty());
            }
            commas = commas + 1;
            cur = j + 1;
        } else {
            proof {
                pieces = pieces.update(pieces.len() - 1, pieces.last().push(c));
                assert(chars@.subrange(cur as int, j + 1) =~= chars@.subrange(cur as int, j as int).push(c));
            }
        }
        j = j + 1;
    }
    if commas == 0 {
        z0 = (cur, b);
    }
    if commas == col {
        zc = (cur, b);
    }
    assert(pieces == split_on(row, ','));
    if commas < col {
        let mut m = String::from_str("row has ");
        push_decimal(&mut m, (commas + 1) as u64);
        m.append(" cells, need > ");
        push_decimal(&mut m, col as u64);
        return LineResult::Fail(DataError::Parse(m));
    }
    let (d0, d1) = trim_bounds(chars, z0.0, z0.1);
    match date_code_in(chars, d0, d1) {
        Some(d) => LineResult::Row(d, copy_range(chars, zc.0, zc.1)),
        None => {
            let cell = text.substring_char(d0, d1);
            let mut m = String::from_str("bad date '");
            m.append(cell);
            m.append("'");
            LineResult::Fail(DataError::Parse(m))
        },
    }
}

/// The characters of a text.
fn text_chars(text: &str) -> (r: Vec<char>)
    ensures
        r@ == text@,
{
    let mut out: Vec<char> = Vec::new();
    for c in it: text.chars()
        invariant
            out@ == it.seq().subrange(0, it.index() as int),
            it.seq() == text@,
    {
        out.push(c);
    }
    out
}


proof fn lemma_split_on_prefix(t: Seq<char>, j: int, k: int, sep: char)
    requires
        0 <= j <= k <= t.len(),
    ensures
        split_on(t.subrange(0, k), sep).len() >= split_on(t.subrange(0, j), sep).len(),
        split_on(t.subrange(0, k), sep).subrange(0, split_on(t.subrange(0, j), sep).len() - 1)
            == split_on(t.subrange(0, j), sep).drop_last(),
    decreases k - j,
{
    lemma_split_on_nonempty(t.subrange(0, j), sep);
    if k > j {
        lemma_split_on_prefix(t, j, k - 1, sep);
        let c = t[k - 1];
        assert(t.subrange(0, k) =~= t.subrange(0, k - 1).push(c));
        lemma_split_on_push(t.subrange(0, k - 1), c, sep);
        lemma_split_on_nonempty(t.subrange(0, k - 1), sep);
        let p = split_on(t.subrange(0, j), sep);
        let q = split_on(t.subrange(0, k - 1), sep);
        let q2 = split_on(t.subrange(0, k), sep);
        assert(q2.subrange(0, p.len() - 1) =~= q.subrange(0, p.len() - 1));
    } else {
        let p = split_on(t.subrange(0, j), sep);
        assert(p.subrange(0, p.len() - 1) =~= p.drop_last());
    }
}

proof fn lemma_rows_error_sticks(lines: Seq<Seq<char>>, k: int, col: nat)
    requires
        0 <= k <= lines.len(),
        spec_rows(lines.subrange(0, k), col).1 is Some,
    ensures
        spec_rows(lines, col) == spec_rows(lines.subrange(0, k), col),
    decreases lines.len() - k,
{
    if k < lines.len() {
        assert(lines.drop_last().subrange(0, k) =~= lines.subrange(0, k));
        lemma_rows_error_sticks(lines.drop_last(), k, col);
    } else {
        assert(lines.subrange(0, k) =~= lines);
    }
}

/// The character views of scanned rows.
pub open spec fn rows_view(rows: Seq<(i32, Vec<char>)>) -> Seq<(i32, Seq<char>)> {
    rows.map_values(|r: (i32, Vec<char>)| (r.0, r.1@))
}

/// Scan a CSV text for the day and the (untrimmed) cell of column `col` of
/// every data row, in order. Stops at the first malformed row (too few
/// cells, or a first cell that is not a day) and returns the rows before it
/// together with the row's error.
pub fn scan_csv(text: &str, col: usize) -> (r: (Vec<(i32, Vec<char>)>, Option<DataError>))
    ensures
        rows_view(r.0@) == spec_scan(text@, col as nat).0,
        r.1 is None <==> spec_scan(text@, col as nat).1 is None,
        r.1 matches Some(e) ==> e matches DataError::Parse(m) && spec_scan(text@, col as nat).1 == Some(m@),
{
    let chars = text_chars(text);
    let n = chars.len();
    let mut rows: Vec<(i32, Vec<char>)> = Vec::new();
    let mut ls: usize = 0;
    let mut i: usize = 0;
    let ghost mut done: Seq<Seq<char>> = Seq::empty();
    assert(chars@.subrange(0, 0) =~= Seq::<char>::empty());
    while i < n
        invariant
            chars@ == text@,
            n == chars@.len(),
            ls <= i <= n,
            split_on(chars@.subrange(0, i as int), '\n') == done.push(chars@.subrange(ls as int, i as int)),
            rows_view(rows@) == spec_rows(done, col as nat).0,
            spec_rows(done, col as nat).1 is None,
        decreases n - i,
    {
        let c = chars[i];
        proof {
            assert(chars@.subrange(0, i + 1) =~= chars@.subrange(0, i as int).push(c));
            lemma_split_on_push(chars@.subrange(0, i as int), c, '\n');
        }
        if c == '\n' {
            let line = scan_line(text, &chars, ls, i, col);
            let ghost l = chars@.subrange(ls as int, i as int);
            proof {
                assert(done.push(l).drop_last() =~= done);
            }
            match line {
                LineResult::Skip => {},
                LineResult::Row(d, v) => {
                    let ghost before = rows@;
                    rows.push((d, v));
                    proof {
                        assert(rows_view(rows@) =~= rows_view(before).push((d, v@)));
                    }
                },
                LineResult::Fail(e) => {
                    proof {
                        let d2 = done.push(l);
                        assert(chars@.subrange(0, n as int) =~= text@);
                        lemma_split_on_prefix(chars@, i + 1, n as int, '\n');
                        let p = split_on(chars@.subrange(0, i + 1), '\n');
                        assert(p == d2.push(Seq::<char>::empty()));
                        let q = split_on(text@, '\n');
                        assert(q.subrange(0, d2.len() as int) =~= d2);
                        lemma_rows_error_sticks(q, d2.len() as int, col as nat);
                    }
                    return (rows, Some(e));
                },
            }
            proof {
                done = done.push(l);
                assert(chars@.subrange(i + 1, i + 1) =~= Seq::<char>::empty());
            }
            ls = i + 1;
        } else {
            proof {
                assert(chars@.subrange(ls as int, i + 1) =~= chars@.subrange(ls as int, i as int).push(c));
            }
        }
        i = i + 1;
    }
    assert(chars@.subrange(0, n as int) =~= text@);
    let ghost l = chars@.subrange(ls as int, n as int);
    assert(done.push(l).drop_last() =~= done);
    let line = scan_line(text, &chars, ls, n, col);
    match line {
        LineResult::Skip => (rows, None),
        LineResult::Row(d, v) => {
            let ghost before = rows@;
            rows.push((d, v));
            proof {
                assert(rows_view(rows@) =~= rows_view(before).push((d, v@)));
            }
            (rows, None)
        },
        LineResult::Fail(e) => (rows, Some(e)),
    }
}


// ---------------------------------------------------------------------------
// Per-symbol files
// ---------------------------------------------------------------------------

/// What `flate2`'s gzip decoder yields for a byte buffer, read to the end as
/// UTF-8 text (`None` when the stream or the text is invalid).
pub uninterp spec fn gzip_text(bytes: Seq<u8>) -> Option<Seq<char>>;

/// What `flate2`'s gzip encoder (default compression) writes for a text.
pub uninterp spec fn gzip_bytes(text: Seq<char>) -> Seq<u8>;

/// Decode a gzip stream to text with `flate2::read::GzDecoder` and
/// `Read::read_to_string`. The contract claims that the result is a
/// function of the bytes; the error message is the decoder's and is not
/// stated.
#[verifier::external_body]
pub(crate) fn gunzip_to_string(bytes: &[u8]) -> (r: Result<String, DataError>)
    ensures
        r is Ok <==> gzip_text(bytes@) is Some,
        r matches Ok(t) ==> Some(t@) == gzip_text(bytes@),
        r matches Err(e) ==> e is Io,
{
    let mut text = String::new();
    match flate2::read::GzDecoder::new(bytes).read_to_string(&mut text) {
        Ok(_) => Ok(text),
        Err(e) => Err(DataError::Io(e.to_string())),
    }
}

/// Gzip-compress a text with `flate2::write::GzEncoder` at the default
/// level (`write_all` then `finish`) into a `Vec<u8>`. The contract claims
/// that this succeeds (writing into a `Vec` cannot fail, and the encoder
/// only forwards its writer's errors), that the output is a function of
/// the text, starts with the gzip magic bytes (every gzip member header
/// does), and decodes back to the text.
#[verifier::external_body]
fn gzip_string(text: &str) -> (r: Result<Vec<u8>, DataError>)
    ensures
        r is Ok,
        r matches Ok(b) ==> b@ == gzip_bytes(text@) && is_gzip(b@) && gzip_text(b@) == Some(text@),
{
    let mut enc = flate2::write::GzEncoder::new(Vec::new(), flate2::Compression::default());
    match enc.write_all(text.as_bytes()) {
        Ok(()) => {},
        Err(e) => return Err(DataError::Io(e.to_string())),
    }
    enc.finish().map_err(|e| DataError::Io(e.to_string()))
}

/// `String::from_utf8`: the text of a valid UTF-8 buffer.
#[verifier::external_body]
fn utf8_string(bytes: Vec<u8>) -> (r: Option<String>)
    ensures
        r is Some <==> valid_utf8(bytes@),
        r matches Some(t) ==> t@ == decode_utf8(bytes@),
{
    String::from_utf8(bytes).ok()
}

/// A buffer starts with the gzip magic bytes.
pub open spec fn is_gzip(bytes: Seq<u8>) -> bool {
    bytes.len() >= 2 && bytes[0] == 0x1f && bytes[1] == 0x8b
}

/// The text of a per-symbol file: gzip-compressed CSV (recognised by its
/// magic bytes) or plain UTF-8 CSV.
pub open spec fn spec_file_text(bytes: Seq<u8>) -> Option<Seq<char>> {
    if is_gzip(bytes) {
        gzip_text(bytes)
    } else if valid_utf8(bytes) {
        Some(decode_utf8(bytes))
    } else {
        None
    }
}

/// Decode the text of a per-symbol file (see [`spec_file_text`]).
pub fn read_csv_text(bytes: &[u8]) -> (r: Result<String, DataError>)
    ensures
        r is Ok <==> spec_file_text(bytes@) is Some,
        r matches Ok(t) ==> Some(t@) == spec_file_text(bytes@),
        r matches Err(e) ==> (is_gzip(bytes@) ==> e is Io) && (!is_gzip(bytes@) ==> (e matches
            DataError::Parse(m) && m@ == "invalid utf-8"@)),
{
    if bytes.len() >= 2 && bytes[0] == 0x1f && bytes[1] == 0x8b {
        gunzip_to_string(bytes)
    } else {
        let mut v: Vec<u8> = Vec::new();
        let mut i: usize = 0;
        while i < bytes.len()
            invariant
                i <= bytes@.len(),
                v@ == bytes@.subrange(0, i as int),
            decreases bytes@.len() - i,
        {
            v.push(bytes[i]);
            proof {
                assert(v@ =~= bytes@.subrange(0, i + 1));
            }
            i = i + 1;
        }
        assert(v@ =~= bytes@);
        match utf8_string(v) {
            Some(t) => Ok(t),
            None => Err(DataError::Parse(String::from_str("invalid utf-8"))),
        }
    }
}

/// Gzip-compress a text (the encoding of every file the library writes);
/// this always succeeds.
pub fn gzip_text_bytes(text: &str) -> (r: Result<Vec<u8>, DataError>)
    ensures
        r is Ok,
        r matches Ok(b) ==> b@ == gzip_bytes(text@) && gzip_text(b@) == Some(text@) && spec_file_text(b@)
            == Some(text@),
{
    gzip_string(text)
}

/// Rows of one OHLCV field of a per-symbol price file's text: `(day,
/// untrimmed value cell)` up to the first malformed row (see
/// [`scan_csv`]).
pub fn scan_series_csv(text: &str, field: Field) -> (r: (Vec<(i32, Vec<char>)>, Option<DataError>))
    ensures
        rows_view(r.0@) == spec_scan(text@, spec_field_col(field) as nat).0,
        r.1 is None <==> spec_scan(text@, spec_field_col(field) as nat).1 is None,
        r.1 matches Some(e) ==> e matches DataError::Parse(m) && spec_scan(text@, spec_field_col(field) as nat).1
            == Some(m@),
{
    scan_csv(text, field.col())
}

/// Message of a request for a column the fundamentals files do not carry.
pub open spec fn unknown_field_message(field: Seq<char>) -> Seq<char> {
    "unknown fundamental field '"@ + field + "'"@
}

/// Rows of one series of a per-symbol fundamentals file's text (a factor or
/// the report-event signal): fails first when the series is not a column of
/// the file, else scans its column like [`scan_csv`].
pub fn scan_fundamentals_csv(text: &str, field: &str) -> (r: Result<(Vec<(i32, Vec<char>)>, Option<DataError>), DataError>)
    ensures
        r is Err <==> spec_field_col_of(field@) is None,
        r matches Err(e) ==> e matches DataError::Parse(m) && m@ == unknown_field_message(field@),
        r matches Ok(v) ==> {
            let col = spec_field_col_of(field@)->0 as nat;
            &&& rows_view(v.0@) == spec_scan(text@, col).0
            &&& (v.1 is None <==> spec_scan(text@, col).1 is None)
            &&& (v.1 matches Some(e) ==> e matches DataError::Parse(m) && spec_scan(text@, col).1 == Some(m@))
        },
{
    match field_col(field) {
        Some(col) => Ok(scan_csv(text, col)),
        None => {
            let mut m = String::from_str("unknown fundamental field '");
            m.append(field);
            m.append("'");
            Err(DataError::Parse(m))
        },
    }
}


// ---------------------------------------------------------------------------
// Splitting into ranges
// ---------------------------------------------------------------------------

/// The bounds of the pieces of `chars[a..b]` between `sep` characters.
pub fn split_ranges(chars: &Vec<char>, a: usize, b: usize, sep: char) -> (r: Vec<(usize, usize)>)
    requires
        a <= b <= chars@.len(),
    ensures
        r@.len() == split_on(chars@.subrange(a as int, b as int), sep).len(),
        forall|k: int| 0 <= k < r@.len() ==> a <= (#[trigger] r@[k]).0 <= r@[k].1 <= b
            && chars@.subrange(r@[k].0 as int, r@[k].1 as int) == split_on(chars@.subrange(a as int, b as int), sep)[k],
{
    let mut out: Vec<(usize, usize)> = Vec::new();
    let mut cur: usize = a;
    let ghost mut pieces: Seq<Seq<char>> = seq![Seq::<char>::empty()];
    assert(chars@.subrange(a as int, a as int) =~= Seq::<char>::empty());
    let mut j: usize = a;
    while j < b
        invariant
            a <= cur <= j <= b <= chars@.len(),
            pieces == split_on(chars@.subrange(a as int, j as int), sep),
            pieces.len() == out@.len() + 1,
            pieces.last() == chars@.subrange(cur as int, j as int),
            forall|k: int| 0 <= k < out@.len() ==> a <= (#[trigger] out@[k]).0 <= out@[k].1 <= cur
                && chars@.subrange(out@[k].0 as int, out@[k].1 as int) == pieces[k],
        decreases b - j,
    {
        let c = chars[j];
        proof {
            assert(chars@.subrange(a as int, j + 1) =~= chars@.subrange(a as int, j as int).push(c));
            lemma_split_on_push(chars@.subrange(a as int, j as int), c, sep);
        }
        if c == sep {
            out.push((cur, j));
            proof {
                pieces = pieces.push(Seq::empty());
                assert(chars@.subrange(j + 1, j + 1) =~= Seq::<char>::empty());
            }
            cur = j + 1;
        } else {
            proof {
                pieces = pieces.update(pieces.len() - 1, pieces.last().push(c));
                assert(chars@.subrange(cur as int, j + 1) =~= chars@.subrange(cur as int, j as int).push(c));
            }
        }
        j = j + 1;
    }
    out.push((cur, b));
    out
}

fn range_equals(chars: &Vec<char>, lo: usize, hi: usize, s: &str) -> (r: bool)
    requires
        lo <= hi <= chars@.len(),
    ensures
        r == (chars@.subrange(lo as int, hi as int) == s@),
{
    let n = s.unicode_len();
    if hi - lo != n {
        return false;
    }
    let mut i: usize = 0;
    while i < n
        invariant
            n == s@.len(),
            hi - lo == n,
            lo <= hi <= chars@.len(),
            i <= n,
            forall|k: int| 0 <= k < i ==> chars@[lo + k] == s@[k],
        decreases n - i,
    {
        if chars[lo + i] != s.get_char(i) {
            assert(chars@.subrange(lo as int, hi as int)[i as int] != s@[i as int]);
            return false;
        }
        i = i + 1;
    }
    assert(chars@.subrange(lo as int, hi as int) =~= s@);
    true
}

// ---------------------------------------------------------------------------
// Combined panel files
// ---------------------------------------------------------------------------

/// The trimmed names of a header line's cells.
pub open spec fn header_names(header: Seq<char>) -> Seq<Seq<char>> {
    split_on(header, ',').map_values(|c: Seq<char>| trim(c))
}

/// The file column of a symbol: the last header cell (after `day`) that
/// names it.
pub open spec fn file_col(header: Seq<char>, sym: Seq<char>) -> Option<int> {
    let hs = header_names(header);
    if exists|i: int| 1 <= i < hs.len() && hs[i] == sym {
        Some(choose|i: int| 1 <= i < hs.len() && hs[i] == sym && forall|j: int| i < j < hs.len() ==> hs[j] != sym)
    } else {
        None
    }
}

/// What one data line of a combined file contributes for the requested
/// columns: nothing (blank, or a day outside `[from, to]`), the day and the
/// trimmed cell of each requested column (`None` when the symbol has no
/// column or the row is short), or a failure message.
pub enum CombinedLine {
    Skip,
    Row(i32, Seq<Option<Seq<char>>>),
    Fail(Seq<char>),
}

pub open spec fn pick_cell(cells: Seq<Seq<char>>, col: Option<int>) -> Option<Seq<char>> {
    match col {
        Some(c) => if 0 <= c < cells.len() { Some(trim(cells[c])) } else { None },
        None => None,
    }
}

pub open spec fn spec_combined_line(line: Seq<char>, cols: Seq<Option<int>>, from: i32, to: i32) -> CombinedLine {
    let row = trim(line);
    if row.len() == 0 {
        CombinedLine::Skip
    } else {
        let cells = split_on(row, ',');
        match spec_date_code(trim(cells[0])) {
            None => CombinedLine::Fail(bad_date_message(trim(cells[0]))),
            Some(d) => if d < from || d > to {
                CombinedLine::Skip
            } else {
                CombinedLine::Row(d, cols.map_values(|c: Option<int>| pick_cell(cells, c)))
            },
        }
    }
}

pub open spec fn spec_combined_rows(lines: Seq<Seq<char>>, cols: Seq<Option<int>>, from: i32, to: i32)
    -> (Seq<(i32, Seq<Option<Seq<char>>>)>, Option<Seq<char>>)
    decreases lines.len(),
{
    if lines.len() == 0 {
        (Seq::empty(), None)
    } else {
        let (rows, err) = spec_combined_rows(lines.drop_last(), cols, from, to);
        if err is Some {
            (rows, err)
        } else {
            match spec_combined_line(lines.last(), cols, from, to) {
                CombinedLine::Skip => (rows, None),
                CombinedLine::Row(d, cells) => (rows.push((d, cells)), None),
                CombinedLine::Fail(m) => (rows, Some(m)),
            }
        }
    }
}

/// A combined file's text read for `symbols` over `[from, to]`: the header
/// (first line) maps each symbol to its column; every later line is a day.
pub open spec fn spec_scan_combined(text: Seq<char>, symbols: Seq<Seq<char>>, from: i32, to: i32)
    -> (Seq<(i32, Seq<Option<Seq<char>>>)>, Option<Seq<char>>)
{
    let lines = split_on(text, '\n');
    let cols = symbols.map_values(|s: Seq<char>| file_col(lines[0], s));
    spec_combined_rows(lines.drop_first(), cols, from, to)
}

/// The character views of scanned combined rows.
pub open spec fn combined_rows_view(rows: Seq<(i32, Vec<Option<Vec<char>>>)>) -> Seq<(i32, Seq<Option<Seq<char>>>)> {
    rows.map_values(|r: (i32, Vec<Option<Vec<char>>>)| (r.0, r.1@.map_values(|c: Option<Vec<char>>| match c {
        Some(v) => Some(v@),
        None => None,
    })))
}

fn find_file_col(chars: &Vec<char>, header: &Vec<(usize, usize)>, trimmed: &Vec<(usize, usize)>, sym: &str) -> (r: Option<usize>)
    requires
        header@.len() == trimmed@.len(),
        forall|k: int| 0 <= k < trimmed@.len() ==> (#[trigger] trimmed@[k]).0 <= trimmed@[k].1 <= chars@.len(),
    ensures
        ({
            let hs = Seq::new(trimmed@.len(), |k: int| chars@.subrange(trimmed@[k].0 as int, trimmed@[k].1 as int));
            &&& r matches Some(i) ==> 1 <= i < hs.len() && hs[i as int] == sym@
                && forall|j: int| i < j < hs.len() ==> hs[j] != sym@
            &&& r is None ==> forall|j: int| 1 <= j < hs.len() ==> hs[j] != sym@
        }),
{
    let ghost hs = Seq::new(trimmed@.len(), |k: int| chars@.subrange(trimmed@[k].0 as int, trimmed@[k].1 as int));
    let mut i: usize = trimmed.len();
    while i > 1
        invariant
            1 <= i <= trimmed@.len() || (i == trimmed@.len() && i <= 1),
            forall|k: int| 0 <= k < trimmed@.len() ==> (#[trigger] trimmed@[k]).0 <= trimmed@[k].1 <= chars@.len(),
            hs == Seq::new(trimmed@.len(), |k: int| chars@.subrange(trimmed@[k].0 as int, trimmed@[k].1 as int)),
            forall|j: int| i <= j < hs.len() ==> hs[j] != sym@,
        decreases i,
    {
        let (lo, hi) = trimmed[i - 1];
        if range_equals(chars, lo, hi, sym) {
            assert(hs[i - 1] == sym@);
            return Some(i - 1);
        }
        i = i - 1;
    }
    None
}

/// Read a combined file's text for `symbols` over `[from, to]` (see
/// [`spec_scan_combined`]): for each kept day, the trimmed cell of each
/// requested symbol's column (`None` for a symbol the header lacks or a
/// short row). Stops at the first line whose day does not parse and returns
/// the rows before it with the error.
pub fn scan_combined(text: &str, symbols: &Vec<String>, from: i32, to: i32)
    -> (r: (Vec<(i32, Vec<Option<Vec<char>>>)>, Option<DataError>))
    ensures
        combined_rows_view(r.0@) == spec_scan_combined(text@, names_of(symbols@), from, to).0,
        r.1 is None <==> spec_scan_combined(text@, names_of(symbols@), from, to).1 is None,
        r.1 matches Some(e) ==> e matches DataError::Parse(m)
            && spec_scan_combined(text@, names_of(symbols@), from, to).1 == Some(m@),
{
    let chars = text_chars(text);
    let n = chars.len();
    // The header is the first line.
    let mut h: usize = 0;
    while h < n && chars[h] != '\n'
        invariant
            h <= n == chars@.len(),
            forall|k: int| 0 <= k < h ==> chars@[k] != '\n',
        decreases n - h,
    {
        h = h + 1;
    }
    proof {
        lemma_first_line(chars@, h as int);
    }
    let header = split_ranges(&chars, 0, h, ',');
    let mut trimmed: Vec<(usize, usize)> = Vec::new();
    let mut k: usize = 0;
    while k < header.len()
        invariant
            k <= header@.len(),
            trimmed@.len() == k,
            header@.len() == split_on(chars@.subrange(0, h as int), ',').len(),
            forall|q: int| 0 <= q < header@.len() ==> 0 <= (#[trigger] header@[q]).0 <= header@[q].1 <= h
                && chars@.subrange(header@[q].0 as int, header@[q].1 as int) == split_on(chars@.subrange(0, h as int), ',')[q],
            h <= chars@.len(),
            forall|q: int| 0 <= q < k ==> (#[trigger] trimmed@[q]).0 <= trimmed@[q].1 <= chars@.len()
                && chars@.subrange(trimmed@[q].0 as int, trimmed@[q].1 as int) == header_names(chars@.subrange(0, h as int))[q],
        decreases header@.len() - k,
    {
        let (lo, hi) = header[k];
        let t = trim_bounds(&chars, lo, hi);
        trimmed.push(t);
        k = k + 1;
    }
    let ghost hn = header_names(chars@.subrange(0, h as int));
    assert(Seq::new(trimmed@.len(), |q: int| chars@.subrange(trimmed@[q].0 as int, trimmed@[q].1 as int)) =~= hn);
    // Column of every requested symbol.
    let mut cols: Vec<Option<usize>> = Vec::new();
    let mut s: usize = 0;
    while s < symbols.len()
        invariant
            s <= symbols@.len(),
            cols@.len() == s,
            header@.len() == trimmed@.len(),
            forall|q: int| 0 <= q < trimmed@.len() ==> (#[trigger] trimmed@[q]).0 <= trimmed@[q].1 <= chars@.len(),
            hn == Seq::new(trimmed@.len(), |q: int| chars@.subrange(trimmed@[q].0 as int, trimmed@[q].1 as int)),
            hn == header_names(chars@.subrange(0, h as int)),
            forall|q: int| 0 <= q < s ==> opt_int(#[trigger] cols@[q]) == file_col(chars@.subrange(0, h as int), symbols@[q]@),
        decreases symbols@.len() - s,
    {
        let c = find_file_col(&chars, &header, &trimmed, symbols[s].as_str());
        proof {
            let hd = chars@.subrange(0, h as int);
            let sym = symbols@[s as int]@;
            match c {
                Some(i) => {
                    let w = choose|w: int| 1 <= w < hn.len() && hn[w] == sym && forall|j: int| w < j < hn.len() ==> hn[j] != sym;
                    assert(hn[i as int] == sym);
                    if w != i as int {
                        if w < i {
                            assert(hn[i as int] != sym);
                        } else {
                            assert(hn[w] != sym);
                        }
                    }
                },
                None => {},
            }
            assert(opt_int(c) == file_col(hd, sym));
        }
        cols.push(c);
        s = s + 1;
    }
    let ghost gcols = names_of(symbols@).map_values(|sv: Seq<char>| file_col(chars@.subrange(0, h as int), sv));
    assert forall|q: int| 0 <= q < cols@.len() implies opt_int(#[trigger] cols@[q]) == gcols[q] by {}
    // Data lines.
    let mut rows: Vec<(i32, Vec<Option<Vec<char>>>)> = Vec::new();
    if h == n {
        proof {
            assert(chars@.subrange(0, n as int) =~= text@);
            assert(split_on(text@, '\n').drop_first() =~= Seq::<Seq<char>>::empty());
        }
        return (rows, None);
    }
    let mut ls: usize = h + 1;
    let mut i: usize = h + 1;
    let ghost mut done: Seq<Seq<char>> = Seq::empty();
    proof {
        assert(chars@.subrange(ls as int, i as int) =~= Seq::<char>::empty());
        lemma_after_first_line(chars@, h as int);
    }
    while i < n
        invariant
            chars@ == text@,
            n == chars@.len(),
            h < ls <= i <= n,
            cols@.len() == symbols@.len(),
            forall|q: int| 0 <= q < cols@.len() ==> opt_int(#[trigger] cols@[q]) == gcols[q],
            gcols.len() == symbols@.len(),
            gcols == names_of(symbols@).map_values(|sv: Seq<char>| file_col(chars@.subrange(0, h as int), sv)),
            split_on(chars@.subrange(0, i as int), '\n').drop_first() == done.push(chars@.subrange(ls as int, i as int)),
            split_on(chars@.subrange(0, i as int), '\n')[0] == chars@.subrange(0, h as int),
            combined_rows_view(rows@) == spec_combined_rows(done, gcols, from, to).0,
            spec_combined_rows(done, gcols, from, to).1 is None,
        decreases n - i,
    {
        let c = chars[i];
        proof {
            assert(chars@.subrange(0, i + 1) =~= chars@.subrange(0, i as int).push(c));
            lemma_split_on_push(chars@.subrange(0, i as int), c, '\n');
            lemma_split_on_nonempty(chars@.subrange(0, i as int), '\n');
        }
        if c == '\n' {
            let ghost l = chars@.subrange(ls as int, i as int);
            proof {
                assert(done.push(l).drop_last() =~= done);
            }
            match combined_line(text, &chars, ls, i, &cols, from, to, Ghost(gcols)) {
                CombinedLineResult::Skip => {},
                CombinedLineResult::Row(d, cells) => {
                    let ghost before = rows@;
                    rows.push((d, cells));
                    proof {
                        assert(combined_rows_view(rows@) =~= combined_rows_view(before).push(
                            combined_rows_view(rows@).last()));
                    }
                },
                CombinedLineResult::Fail(e) => {
                    proof {
                        let d2 = done.push(l);
                        let pre = chars@.subrange(0, i as int);
                        let sp = split_on(pre, '\n');
                        let p = split_on(chars@.subrange(0, i + 1), '\n');
                        assert(p == sp.push(Seq::<char>::empty()));
                        assert(chars@.subrange(0, n as int) =~= text@);
                        lemma_split_on_prefix(chars@, i + 1, n as int, '\n');
                        let q = split_on(text@, '\n');
                        let qs = q.subrange(0, p.len() - 1);
                        assert(qs == p.drop_last());
                        assert(sp.drop_first() == d2);
                        assert(q[0] == qs[0]);
                        assert(qs[0] == p[0]);
                        assert(q.drop_first().subrange(0, d2.len() as int) =~= d2) by {
                            assert forall|t: int| 0 <= t < d2.len() implies q.drop_first()[t] == d2[t] by {
                                assert(q[t + 1] == qs[t + 1]);
                                assert(qs[t + 1] == p[t + 1]);
                                assert(p[t + 1] == sp[t + 1]);
                                assert(sp[t + 1] == sp.drop_first()[t]);
                            }
                        }
                        lemma_combined_error_sticks(q.drop_first(), d2.len() as int, gcols, from, to);
                        assert(names_of(symbols@).map_values(|sv: Seq<char>| file_col(q[0], sv)) =~= gcols);
                    }
                    return (rows, Some(e));
                },
            }
            proof {
                let sp = split_on(chars@.subrange(0, i as int), '\n');
                let sp2 = split_on(chars@.subrange(0, i + 1), '\n');
                assert(sp2 == sp.push(Seq::<char>::empty()));
                assert(sp2.drop_first() =~= sp.drop_first().push(Seq::<char>::empty()));
                assert(sp2[0] == sp[0]);
                done = done.push(l);
                assert(chars@.subrange(i + 1, i + 1) =~= Seq::<char>::empty());
            }
            ls = i + 1;
        } else {
            proof {
                let sp = split_on(chars@.subrange(0, i as int), '\n');
                let sp2 = split_on(chars@.subrange(0, i + 1), '\n');
                assert(sp.drop_first() == done.push(chars@.subrange(ls as int, i as int)));
                assert(sp.len() >= 2);
                assert(sp2 == sp.update(sp.len() - 1, sp.last().push(c)));
                assert(sp.drop_first().last() == sp.last());
                assert(sp.last() == chars@.subrange(ls as int, i as int));
                assert(chars@.subrange(ls as int, i + 1) =~= chars@.subrange(ls as int, i as int).push(c));
                assert forall|t: int| 0 <= t < done.len() implies sp2.drop_first()[t] == done[t] by {
                    assert(sp2[t + 1] == sp[t + 1]);
                    assert(sp[t + 1] == sp.drop_first()[t]);
                }
                assert(sp2.drop_first() =~= done.push(chars@.subrange(ls as int, i + 1)));
                assert(sp2[0] == sp[0]);
            }
        }
        i = i + 1;
    }
    assert(chars@.subrange(0, n as int) =~= text@);
    let ghost l = chars@.subrange(ls as int, n as int);
    assert(done.push(l).drop_last() =~= done);
    match combined_line(text, &chars, ls, n, &cols, from, to, Ghost(gcols)) {
        CombinedLineResult::Skip => (rows, None),
        CombinedLineResult::Row(d, cells) => {
            let ghost before = rows@;
            rows.push((d, cells));
            proof {
                assert(combined_rows_view(rows@) =~= combined_rows_view(before).push(combined_rows_view(rows@).last()));
            }
            (rows, None)
        },
        CombinedLineResult::Fail(e) => (rows, Some(e)),
    }
}

/// The character views of a list of names.
pub open spec fn names_of(v: Seq<String>) -> Seq<Seq<char>> {
    v.map_values(|s: String| s@)
}

pub open spec fn opt_int(c: Option<usize>) -> Option<int> {
    match c {
        Some(i) => Some(i as int),
        None => None,
    }
}

proof fn lemma_first_line(t: Seq<char>, h: int)
    requires
        0 <= h <= t.len(),
        forall|k: int| 0 <= k < h ==> t[k] != '\n',
        h == t.len() || t[h] == '\n',
    ensures
        split_on(t, '\n')[0] == t.subrange(0, h),
        split_on(t.subrange(0, h), '\n') == seq![t.subrange(0, h)],
{
    lemma_no_sep(t, h);
    if h < t.len() {
        assert(t.subrange(0, h + 1) =~= t.subrange(0, h).push('\n'));
        lemma_split_on_push(t.subrange(0, h), '\n', '\n');
        lemma_split_on_prefix(t, h + 1, t.len() as int, '\n');
        assert(t.subrange(0, t.len() as int) =~= t);
        let q = split_on(t, '\n');
        let p = split_on(t.subrange(0, h + 1), '\n');
        assert(p == seq![t.subrange(0, h)].push(Seq::<char>::empty()));
        assert(q.subrange(0, 1) == p.drop_last());
        assert(q.subrange(0, 1)[0] == q[0]);
    } else {
        assert(t.subrange(0, h) =~= t);
    }
}

proof fn lemma_no_sep(t: Seq<char>, h: int)
    requires
        0 <= h <= t.len(),
        forall|k: int| 0 <= k < h ==> t[k] != '\n',
    ensures
        split_on(t.subrange(0, h), '\n') == seq![t.subrange(0, h)],
    decreases h,
{
    if h > 0 {
        lemma_no_sep(t, h - 1);
        assert(t.subrange(0, h) =~= t.subrange(0, h - 1).push(t[h - 1]));
        lemma_split_on_push(t.subrange(0, h - 1), t[h - 1], '\n');
        assert(seq![t.subrange(0, h - 1)].update(0, t.subrange(0, h - 1).push(t[h - 1])) =~= seq![t.subrange(0, h)]);
    } else {
        assert(t.subrange(0, 0) =~= Seq::<char>::empty());
    }
}

proof fn lemma_after_first_line(t: Seq<char>, h: int)
    requires
        0 <= h < t.len(),
        forall|k: int| 0 <= k < h ==> t[k] != '\n',
        t[h] == '\n',
    ensures
        split_on(t.subrange(0, h + 1), '\n') == seq![t.subrange(0, h), Seq::<char>::empty()],
{
    lemma_no_sep(t, h);
    assert(t.subrange(0, h + 1) =~= t.subrange(0, h).push('\n'));
    lemma_split_on_push(t.subrange(0, h), '\n', '\n');
    assert(seq![t.subrange(0, h)].push(Seq::<char>::empty()) =~= seq![t.subrange(0, h), Seq::<char>::empty()]);
}

proof fn lemma_combined_error_sticks(lines: Seq<Seq<char>>, k: int, cols: Seq<Option<int>>, from: i32, to: i32)
    requires
        0 <= k <= lines.len(),
        spec_combined_rows(lines.subrange(0, k), cols, from, to).1 is Some,
    ensures
        spec_combined_rows(lines, cols, from, to) == spec_combined_rows(lines.subrange(0, k), cols, from, to),
    decreases lines.len() - k,
{
    if k < lines.len() {
        assert(lines.drop_last().subrange(0, k) =~= lines.subrange(0, k));
        lemma_combined_error_sticks(lines.drop_last(), k, cols, from, to);
    } else {
        assert(lines.subrange(0, k) =~= lines);
    }
}

enum CombinedLineResult {
    Skip,
    Row(i32, Vec<Option<Vec<char>>>),
    Fail(DataError),
}

spec fn combined_result_matches(r: CombinedLineResult, o: CombinedLine) -> bool {
    match (r, o) {
        (CombinedLineResult::Skip, CombinedLine::Skip) => true,
        (CombinedLineResult::Row(d, v), CombinedLine::Row(d2, v2)) => d == d2 && combined_rows_view(seq![(d, v)])[0].1 == v2,
        (CombinedLineResult::Fail(e), CombinedLine::Fail(m)) => e matches DataError::Parse(mm) && mm@ == m,
        _ => false,
    }
}

fn combined_line(
    text: &str,
    chars: &Vec<char>,
    lo: usize,
    hi: usize,
    cols: &Vec<Option<usize>>,
    from: i32,
    to: i32,
    Ghost(gcols): Ghost<Seq<Option<int>>>,
) -> (r: CombinedLineResult)
    requires
        lo <= hi <= chars@.len(),
        chars@ == text@,
        cols@.len() == gcols.len(),
        forall|q: int| 0 <= q < cols@.len() ==> opt_int(#[trigger] cols@[q]) == gcols[q],
    ensures
        combined_result_matches(r, spec_combined_line(chars@.subrange(lo as int, hi as int), gcols, from, to)),
{
    let ghost line = chars@.subrange(lo as int, hi as int);
    let (a, b) = trim_bounds(chars, lo, hi);
    let ghost row = chars@.subrange(a as int, b as int);
    if a == b {
        return CombinedLineResult::Skip;
    }
    let cells = split_ranges(chars, a, b, ',');
    let ghost gcells = split_on(row, ',');
    proof { lemma_split_on_nonempty(row, ','); }
    let (c0, c1) = cells[0];
    let (d0, d1) = trim_bounds(chars, c0, c1);
    let day = match date_code_in(chars, d0, d1) {
        Some(d) => d,
        None => {
            let cell = text.substring_char(d0, d1);
            let mut m = String::from_str("bad date '");
            m.append(cell);
            m.append("'");
            return CombinedLineResult::Fail(DataError::Parse(m));
        },
    };
    if day < from || day > to {
        return CombinedLineResult::Skip;
    }
    let mut out: Vec<Option<Vec<char>>> = Vec::new();
    let mut q: usize = 0;
    while q < cols.len()
        invariant
            q <= cols@.len(),
            cols@.len() == gcols.len(),
            forall|t: int| 0 <= t < cols@.len() ==> opt_int(#[trigger] cols@[t]) == gcols[t],
            a <= b <= chars@.len(),
            cells@.len() == gcells.len(),
            gcells == split_on(chars@.subrange(a as int, b as int), ','),
            forall|k: int| 0 <= k < cells@.len() ==> a <= (#[trigger] cells@[k]).0 <= cells@[k].1 <= b
                && chars@.subrange(cells@[k].0 as int, cells@[k].1 as int) == gcells[k],
            out@.len() == q,
            forall|t: int| 0 <= t < q ==> (match #[trigger] out@[t] {
                Some(v) => Some(v@),
                None => None::<Seq<char>>,
            }) == pick_cell(gcells, gcols[t]),
        decreases cols@.len() - q,
    {
        let cell = match cols[q] {
            Some(c) => if c < cells.len() {
                let (x0, x1) = cells[c];
                let (t0, t1) = trim_bounds(chars, x0, x1);
                Some(copy_range(chars, t0, t1))
            } else {
                None
            },
            None => None,
        };
        out.push(cell);
        q = q + 1;
    }
    proof {
        let want = gcols.map_values(|c: Option<int>| pick_cell(gcells, c));
        let got = combined_rows_view(seq![(day, out)])[0].1;
        assert(got =~= want);
    }
    CombinedLineResult::Row(day, out)
}

} // verus!
