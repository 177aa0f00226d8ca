//! The text patterns that the entry rewriter edits: `url(...)` references
//! in CSS, `<style>` blocks, and inline event handler attributes. Letters
//! in the HTML patterns match in either case (with `ſ` for `s` and the
//! Kelvin sign for `k`, as Unicode simple case folding has them).

use vstd::prelude::*;
use crate::text::{ascii_lower, chars_of, is_whitespace, is_ws, occurs_at, matches_at, string_of, to_ascii_lower};

verus! {

/// Classes of characters that the patterns read in runs.
#[derive(Debug, Clone, Copy, PartialEq, Eq)]
pub enum ScanClass {
    /// Whitespace (`\s`).
    Space,
    /// Characters of an event handler's name: ASCII letters, digits, `_`, `-`.
    HandlerName,
    /// Characters of an unquoted attribute value: neither whitespace nor `>`.
    BareValue,
    /// Characters of a CSS URL: no quote and no parenthesis.
    UrlText,
    /// Any character but this one.
    Not(char),
}

pub open spec fn in_scan(cls: ScanClass, c: char) -> bool {
    match cls {
        ScanClass::Space => is_ws(c),
        ScanClass::HandlerName => ('a' <= c && c <= 'z') || ('A' <= c && c <= 'Z') || ('0' <= c && c <= '9')
            || c == '_' || c == '-' || c == '\u{17f}' || c == '\u{212a}',
        ScanClass::BareValue => !is_ws(c) && c != '>',
        ScanClass::UrlText => c != '"' && c != '\'' && c != '(' && c != ')',
        ScanClass::Not(x) => c != x,
    }
}

fn in_scan_exec(cls: ScanClass, c: char) -> (b: bool)
    ensures
        b == in_scan(cls, c),
{
    match cls {
        ScanClass::Space => is_whitespace(c),
        ScanClass::HandlerName => ('a' <= c && c <= 'z') || ('A' <= c && c <= 'Z') || ('0' <= c && c <= '9')
            || c == '_' || c == '-' || c == '\u{17f}' || c == '\u{212a}',
        ScanClass::BareValue => !is_whitespace(c) && c != '>',
        ScanClass::UrlText => c != '"' && c != '\'' && c != '(' && c != ')',
        ScanClass::Not(x) => c != x,
    }
}

/// Where the run of characters of class `cls` that starts at `i` ends.
pub open spec fn run_end(s: Seq<char>, i: int, cls: ScanClass) -> int
    decreases s.len() - i,
{
    if 0 <= i < s.len() && in_scan(cls, s[i]) {
        run_end(s, i + 1, cls)
    } else {
        i
    }
}

fn run_end_at(s: &[char], i: usize, cls: ScanClass) -> (r: usize)
    requires
        i <= s@.len(),
    ensures
        r == run_end(s@, i as int, cls),
        i <= r <= s@.len(),
{
    let mut k = i;
    while k < s.len() && in_scan_exec(cls, s[k])
        invariant
            i <= k <= s@.len(),
            run_end(s@, k as int, cls) == run_end(s@, i as int, cls),
        decreases s@.len() - k,
    {
        k += 1;
    }
    k
}

/// `c` matches the lowercase pattern character `x` regardless of case.
pub open spec fn folds_to(c: char, x: char) -> bool {
    ascii_lower(c) == x || (x == 's' && c == '\u{17f}') || (x == 'k' && c == '\u{212a}')
}

/// The pattern `p` (lowercase) occurs at `i` of `s`, regardless of case.
pub open spec fn folded_at(s: Seq<char>, i: int, p: Seq<char>) -> bool {
    &&& 0 <= i
    &&& i + p.len() <= s.len()
    &&& forall|t: int| 0 <= t < p.len() ==> folds_to(#[trigger] s[i + t], p[t])
}

fn folded_at_exec(s: &[char], i: usize, p: &[char]) -> (b: bool)
    ensures
        b == folded_at(s@, i as int, p@),
{
    if i > s.len() || p.len() > s.len() - i {
        return false;
    }
    let n = s.len();
    let mut t: usize = 0;
    while t < p.len()
        invariant
            n == s@.len(),
            i + p@.len() <= s@.len(),
            t <= p@.len(),
            forall|u: int| 0 <= u < t ==> folds_to(#[trigger] s@[i + u], p@[u]),
        decreases p@.len() - t,
    {
        assert(i + t < s@.len());
        let c = s[i + t];
        let x = p[t];
        if !(to_ascii_lower(c) == x || (x == 's' && c == '\u{17f}') || (x == 'k' && c == '\u{212a}')) {
            assert(!folds_to(s@[i + t as int], p@[t as int]));
            return false;
        }
        t += 1;
    }
    true
}

fn slice_string(s: &[char], a: usize, b: usize) -> (r: String)
    requires
        a <= b <= s@.len(),
    ensures
        r@ == s@.subrange(a as int, b as int),
{
    let mut out: Vec<char> = Vec::new();
    let mut k: usize = a;
    while k < b
        invariant
            a <= k <= b <= s@.len(),
            out@ == s@.subrange(a as int, k as int),
        decreases b - k,
    {
        assert(s@.subrange(a as int, k + 1) == s@.subrange(a as int, k as int).push(s@[k as int]));
        out.push(s[k]);
        k += 1;
    }
    string_of(&out)
}

// ---------------------------------------------------------------------
// Inline event handlers: whitespace, `on<name>`, `=`, and a value that is
// double-quoted, single-quoted or bare.

/// Where the event handler attribute that starts at `j` (just after the
/// whitespace before it) ends, if one does.
pub open spec fn handler_end(s: Seq<char>, j: int) -> Option<int> {
    if folded_at(s, j, "on"@) {
        let n = run_end(s, j + 2, ScanClass::HandlerName);
        if n > j + 2 {
            let e = run_end(s, n, ScanClass::Space);
            if e < s.len() && s[e] == '=' {
                let v = run_end(s, e + 1, ScanClass::Space);
                if v < s.len() && (s[v] == '"' || s[v] == '\'') && run_end(s, v + 1, ScanClass::Not(s[v])) < s.len() {
                    Some(run_end(s, v + 1, ScanClass::Not(s[v])) + 1)
                } else if run_end(s, v, ScanClass::BareValue) > v {
                    Some(run_end(s, v, ScanClass::BareValue))
                } else {
                    None
                }
            } else {
                None
            }
        } else {
            None
        }
    } else {
        None
    }
}

/// Where the event handler attribute (with the whitespace before it) that
/// starts at `i` ends, if one does.
pub open spec fn handler_at(s: Seq<char>, i: int) -> Option<int> {
    if 0 <= i < s.len() && is_ws(s[i]) {
        handler_end(s, run_end(s, i, ScanClass::Space))
    } else {
        None
    }
}

fn handler_at_exec(s: &[char], i: usize) -> (r: Option<usize>)
    requires
        i < s@.len(),
    ensures
        match r {
            Some(e) => handler_at(s@, i as int) == Some(e as int) && i < e <= s@.len(),
            None => handler_at(s@, i as int) is None,
        },
{
    if !is_whitespace(s[i]) {
        return None;
    }
    let j = run_end_at(s, i, ScanClass::Space);
    let on = chars_of("on");
    proof {
        reveal_strlit("on");
    }
    if !folded_at_exec(s, j, &on) {
        return None;
    }
    let n = run_end_at(s, j + 2, ScanClass::HandlerName);
    if n <= j + 2 {
        return None;
    }
    let e = run_end_at(s, n, ScanClass::Space);
    if e >= s.len() || s[e] != '=' {
        return None;
    }
    let v = run_end_at(s, e + 1, ScanClass::Space);
    if v < s.len() && (s[v] == '"' || s[v] == '\'') {
        let close = run_end_at(s, v + 1, ScanClass::Not(s[v]));
        if close < s.len() {
            return Some(close + 1);
        }
    }
    let b = run_end_at(s, v, ScanClass::BareValue);
    if b > v {
        Some(b)
    } else {
        None
    }
}

/// `s` from `i` on, with every event handler attribute (and the whitespace
/// before it) removed, the leftmost first.
pub open spec fn stripped_from(s: Seq<char>, i: int) -> Seq<char>
    decreases s.len() - i,
{
    if i < 0 || i >= s.len() {
        seq![]
    } else {
        match handler_at(s, i) {
            Some(e) => if i < e <= s.len() {
                stripped_from(s, e)
            } else {
                seq![s[i]] + stripped_from(s, i + 1)
            },
            None => seq![s[i]] + stripped_from(s, i + 1),
        }
    }
}

/// `html` with every inline event handler attribute removed.
pub open spec fn without_event_handlers(html: Seq<char>) -> Seq<char> {
    stripped_from(html, 0)
}

pub fn strip_event_handler_attributes(html: &str) -> (r: String)
    ensures
        r@ == without_event_handlers(html@),
{
    let s = chars_of(html);
    let mut out: Vec<char> = Vec::new();
    let mut i: usize = 0;
    while i < s.len()
        invariant
            i <= s@.len(),
            out@ + stripped_from(s@, i as int) == stripped_from(s@, 0),
        decreases s@.len() - i,
    {
        match handler_at_exec(&s, i) {
            Some(e) => {
                i = e;
            },
            None => {
                let ghost before = out@;
                out.push(s[i]);
                proof {
                    assert(before + stripped_from(s@, i as int) == before + (seq![s@[i as int]] + stripped_from(s@, i + 1)));
                    assert(before + (seq![s@[i as int]] + stripped_from(s@, i + 1)) =~= out@ + stripped_from(s@, i + 1));
                }
                i += 1;
            },
        }
    }
    proof {
        assert(out@ + stripped_from(s@, i as int) =~= out@);
    }
    string_of(&out)
}

// ---------------------------------------------------------------------
// `<style>` blocks: `<style`, attributes up to the first `>`, then the CSS
// up to the first `</style>`.

/// The first position from `k` on where `</style>` occurs, or the length
/// of `s` where it does not.
pub open spec fn style_close_from(s: Seq<char>, k: int) -> int
    decreases s.len() - k,
{
    if k < 0 || k + 8 > s.len() {
        s.len() as int
    } else if folded_at(s, k, "</style>"@) {
        k
    } else {
        style_close_from(s, k + 1)
    }
}

fn style_close_at(s: &[char], k: usize) -> (r: usize)
    requires
        k <= s@.len(),
    ensures
        r == style_close_from(s@, k as int),
        r == s@.len() || (k <= r && r + 8 <= s@.len()),
{
    let close = chars_of("</style>");
    proof {
        reveal_strlit("</style>");
    }
    let mut c = k;
    while c < s.len() && s.len() - c >= 8 && !folded_at_exec(s, c, &close)
        invariant
            k <= c <= s@.len(),
            close@ == "</style>"@,
            close@.len() == 8,
            style_close_from(s@, c as int) == style_close_from(s@, k as int),
        decreases s@.len() - c,
    {
        c += 1;
    }
    if c < s.len() && s.len() - c >= 8 {
        c
    } else {
        s.len()
    }
}

/// The `<style>` block that starts at `i`, if one does: where it ends, its
/// attributes and its CSS.
pub open spec fn style_block_at(s: Seq<char>, i: int) -> Option<(int, Seq<char>, Seq<char>)> {
    if folded_at(s, i, "<style"@) {
        let g = run_end(s, i + 6, ScanClass::Not('>'));
        if g < s.len() {
            let c = style_close_from(s, g + 1);
            if c < s.len() {
                Some((c + 8, s.subrange(i + 6, g), s.subrange(g + 1, c)))
            } else {
                None
            }
        } else {
            None
        }
    } else {
        None
    }
}

/// How `s` splits from `i` on (the text before `i` back to `last` not yet
/// given out): text between blocks (`false`, text, empty) and blocks
/// (`true`, attributes, CSS), the leftmost first.
pub open spec fn style_pieces_from(s: Seq<char>, i: int, last: int) -> Seq<(bool, Seq<char>, Seq<char>)>
    decreases s.len() - i,
{
    if i < 0 || i >= s.len() {
        seq![(false, s.subrange(last, s.len() as int), Seq::<char>::empty())]
    } else {
        match style_block_at(s, i) {
            Some(b) => if i < b.0 <= s.len() {
                seq![(false, s.subrange(last, i), Seq::<char>::empty()), (true, b.1, b.2)] + style_pieces_from(s, b.0, b.0)
            } else {
                style_pieces_from(s, i + 1, last)
            },
            None => style_pieces_from(s, i + 1, last),
        }
    }
}

/// How `html` splits at its `<style>` blocks.
pub open spec fn style_block_split(html: Seq<char>) -> Seq<(bool, Seq<char>, Seq<char>)> {
    style_pieces_from(html, 0, 0)
}

fn style_block_at_exec(s: &[char], i: usize) -> (r: Option<(usize, String, String)>)
    requires
        i < s@.len(),
    ensures
        match r {
            Some(b) => style_block_at(s@, i as int) == Some((b.0 as int, b.1@, b.2@)) && i < b.0 <= s@.len(),
            None => style_block_at(s@, i as int) is None,
        },
{
    let n = s.len();
    let open = chars_of("<style");
    proof {
        reveal_strlit("<style");
    }
    if !folded_at_exec(s, i, &open) {
        return None;
    }
    assert(open@.len() == 6);
    let g = run_end_at(s, i + 6, ScanClass::Not('>'));
    if g >= s.len() {
        return None;
    }
    let c = style_close_at(s, g + 1);
    if c >= s.len() {
        return None;
    }
    Some((c + 8, slice_string(s, i + 6, g), slice_string(s, g + 1, c)))
}

pub open spec fn style_pieces_view(v: Seq<(bool, String, String)>) -> Seq<(bool, Seq<char>, Seq<char>)> {
    v.map_values(|p: (bool, String, String)| (p.0, p.1@, p.2@))
}

/// Splits `html` at its `<style>` blocks.
pub fn style_block_pieces(html: &str) -> (r: Vec<(bool, String, String)>)
    ensures
        style_pieces_view(r@) == style_block_split(html@),
{
    let s = chars_of(html);
    let mut out: Vec<(bool, String, String)> = Vec::new();
    let mut i: usize = 0;
    let mut last: usize = 0;
    while i < s.len()
        invariant
            last <= i <= s@.len(),
            style_pieces_view(out@) + style_pieces_from(s@, i as int, last as int) == style_pieces_from(s@, 0, 0),
        decreases s@.len() - i,
    {
        match style_block_at_exec(&s, i) {
            Some((end, attrs, css)) => {
                let text = slice_string(&s, last, i);
                let ghost before = style_pieces_view(out@);
                let ghost two = seq![(false, text@, Seq::<char>::empty()), (true, attrs@, css@)];
                out.push((false, text, String::new()));
                out.push((true, attrs, css));
                proof {
                    assert(style_pieces_view(out@) =~= before + two);
                    assert(before + (two + style_pieces_from(s@, end as int, end as int)) =~= style_pieces_view(out@) + style_pieces_from(s@, end as int, end as int));
                }
                i = end;
                last = end;
            },
            None => {
                i += 1;
            },
        }
    }
    let tail = slice_string(&s, last, s.len());
    let ghost before = style_pieces_view(out@);
    out.push((false, tail, String::new()));
    proof {
        assert(style_pieces_view(out@) =~= before + seq![(false, s@.subrange(last as int, s@.len() as int), Seq::<char>::empty())]);
    }
    out
}

// ---------------------------------------------------------------------
// CSS `url(...)` references: `url(`, whitespace, an optional quote, the URL
// (no quote or parenthesis), an optional quote, whitespace and `)`. Where
// the URL would be empty after whitespace, the last whitespace character
// before a quote or `)` is the URL.

pub open spec fn is_quote(c: char) -> bool {
    c == '"' || c == '\''
}

/// Where a `url(...)` reference ends when its URL ends at `e`, if it does.
pub open spec fn url_tail(s: Seq<char>, e: int) -> Option<int> {
    if 0 <= e < s.len() && s[e] == ')' {
        Some(e + 1)
    } else if 0 <= e < s.len() && is_quote(s[e]) {
        let t = run_end(s, e + 1, ScanClass::Space);
        if t < s.len() && s[t] == ')' {
            Some(t + 1)
        } else {
            None
        }
    } else {
        None
    }
}

/// The `url(...)` reference that starts at `i`, if one does: where it ends
/// and its URL.
pub open spec fn url_at(s: Seq<char>, i: int) -> Option<(int, Seq<char>)> {
    if occurs_at(s, "url("@, i) {
        let q = i + 4;
        let w = run_end(s, q, ScanClass::Space);
        let start = if w < s.len() && is_quote(s[w]) { w + 1 } else { w };
        let e = run_end(s, start, ScanClass::UrlText);
        let first = if e > start { url_tail(s, e) } else { None };
        match first {
            Some(end) => Some((end, s.subrange(start, e))),
            None => if w > q && (w >= s.len() || !in_scan(ScanClass::UrlText, s[w])) {
                match url_tail(s, w) {
                    Some(end) => Some((end, s.subrange(w - 1, w))),
                    None => None,
                }
            } else {
                None
            },
        }
    } else {
        None
    }
}

fn url_tail_exec(s: &[char], e: usize) -> (r: Option<usize>)
    requires
        e <= s@.len(),
    ensures
        match r {
            Some(end) => url_tail(s@, e as int) == Some(end as int) && e < end <= s@.len(),
            None => url_tail(s@, e as int) is None,
        },
{
    if e < s.len() && s[e] == ')' {
        return Some(e + 1);
    }
    if e < s.len() && (s[e] == '"' || s[e] == '\'') {
        let t = run_end_at(s, e + 1, ScanClass::Space);
        if t < s.len() && s[t] == ')' {
            return Some(t + 1);
        }
    }
    None
}

fn url_at_exec(s: &[char], i: usize) -> (r: Option<(usize, String)>)
    requires
        i < s@.len(),
    ensures
        match r {
            Some(m) => url_at(s@, i as int) == Some((m.0 as int, m.1@)) && i < m.0 <= s@.len(),
            None => url_at(s@, i as int) is None,
        },
{
    let n = s.len();
    let open = chars_of("url(");
    proof {
        reveal_strlit("url(");
    }
    if !matches_at(s, &open, i) {
        return None;
    }
    assert(open@.len() == 4);
    let q = i + 4;
    let w = run_end_at(s, q, ScanClass::Space);
    let start = if w < s.len() && (s[w] == '"' || s[w] == '\'') { w + 1 } else { w };
    let e = run_end_at(s, start, ScanClass::UrlText);
    if e > start {
        match url_tail_exec(s, e) {
            Some(end) => {
                return Some((end, slice_string(s, start, e)));
            },
            None => {},
        }
    }
    if w > q && (w >= s.len() || !in_scan_exec(ScanClass::UrlText, s[w])) {
        match url_tail_exec(s, w) {
            Some(end) => Some((end, slice_string(s, w - 1, w))),
            None => None,
        }
    } else {
        None
    }
}

/// How `s` splits from `i` on (the text before `i` back to `last` not yet
/// given out): text between references (`false`) and, for each reference,
/// its URL (`true`), the leftmost first.
pub open spec fn css_pieces_from(s: Seq<char>, i: int, last: int) -> Seq<(bool, Seq<char>)>
    decreases s.len() - i,
{
    if i < 0 || i >= s.len() {
        seq![(false, s.subrange(last, s.len() as int))]
    } else {
        match url_at(s, i) {
            Some(m) => if i < m.0 <= s.len() {
                seq![(false, s.subrange(last, i)), (true, m.1)] + css_pieces_from(s, m.0, m.0)
            } else {
                css_pieces_from(s, i + 1, last)
            },
            None => css_pieces_from(s, i + 1, last),
        }
    }
}

/// How `css` splits at its `url(...)` references.
pub open spec fn css_url_split(css: Seq<char>) -> Seq<(bool, Seq<char>)> {
    css_pieces_from(css, 0, 0)
}

pub open spec fn pieces_view(v: Seq<(bool, String)>) -> Seq<(bool, Seq<char>)> {
    v.map_values(|p: (bool, String)| (p.0, p.1@))
}

/// Splits `css` at its `url(...)` references.
pub fn css_url_pieces(css: &str) -> (r: Vec<(bool, String)>)
    ensures
        pieces_view(r@) == css_url_split(css@),
{
    let s = chars_of(css);
    let mut out: Vec<(bool, String)> = Vec::new();
    let mut i: usize = 0;
    let mut last: usize = 0;
    while i < s.len()
        invariant
            last <= i <= s@.len(),
            pieces_view(out@) + css_pieces_from(s@, i as int, last as int) == css_pieces_from(s@, 0, 0),
        decreases s@.len() - i,
    {
        match url_at_exec(&s, i) {
            Some((end, url)) => {
                let text = slice_string(&s, last, i);
                let ghost before = pieces_view(out@);
                let ghost two = seq![(false, text@), (true, url@)];
                out.push((false, text));
                out.push((true, url));
                proof {
                    assert(pieces_view(out@) =~= before + two);
                    assert(before + (two + css_pieces_from(s@, end as int, end as int)) =~= pieces_view(out@) + css_pieces_from(s@, end as int, end as int));
                }
                i = end;
                last = end;
            },
            None => {
                i += 1;
            },
        }
    }
    let tail = slice_string(&s, last, s.len());
    let ghost before = pieces_view(out@);
    out.push((false, tail));
    proof {
        assert(pieces_view(out@) =~= before + seq![(false, s@.subrange(last as int, s@.len() as int))]);
    }
    out
}

} // verus!
