//! Character-level string helpers with specifications over `Seq<char>`.

use vstd::prelude::*;

verus! {

/// Appends one character to a `String` (std `String::push`).
#[verifier::external_body]
pub(crate) fn push_char(s: &mut String, c: char)
    ensures
        final(s)@ == old(s)@.push(c),
{
    s.push(c)
}

/// The characters of `s`, in order.
pub fn chars_of(s: &str) -> (v: Vec<char>)
    ensures
        v@ == s@,
{
    let mut v: Vec<char> = Vec::new();
    for c in it: s.chars()
        invariant
            v@ == it.seq().take(it.index() as int),
            it.seq() == s@,
    {
        v.push(c);
    }
    v
}

/// A `String` holding exactly the characters of `v`.
pub fn string_of(v: &[char]) -> (s: String)
    ensures
        s@ == v@,
{
    let mut s = String::new();
    let mut i: usize = 0;
    while i < v.len()
        invariant
            i <= v@.len(),
            s@ == v@.take(i as int),
        decreases v@.len() - i,
    {
        push_char(&mut s, v[i]);
        assert(v@.take(i + 1) == v@.take(i as int).push(v@[i as int]));
        i += 1;
    }
    assert(v@.take(v@.len() as int) == v@);
    s
}

/// Appends all characters of `v` to `out`.
pub fn push_all(out: &mut Vec<char>, v: &[char])
    ensures
        final(out)@ == old(out)@ + v@,
{
    let mut i: usize = 0;
    while i < v.len()
        invariant
            i <= v@.len(),
            out@ == old(out)@ + v@.take(i as int),
        decreases v@.len() - i,
    {
        assert(v@.take(i + 1) == v@.take(i as int).push(v@[i as int]));
        out.push(v[i]);
        i += 1;
    }
    assert(v@.take(v@.len() as int) == v@);
}

/// Appends all characters of `s` to `out`.
pub fn push_str(out: &mut Vec<char>, s: &str)
    ensures
        final(out)@ == old(out)@ + s@,
{
    let v = chars_of(s);
    push_all(out, &v);
}

/// Unicode `White_Space`, the set that `char::is_whitespace` tests.
pub open spec fn is_ws(c: char) -> bool {
    ||| ('\u{9}' <= c && c <= '\u{d}')
    ||| c == ' '
    ||| c == '\u{85}'
    ||| c == '\u{a0}'
    ||| c == '\u{1680}'
    ||| ('\u{2000}' <= c && c <= '\u{200a}')
    ||| c == '\u{2028}'
    ||| c == '\u{2029}'
    ||| c == '\u{202f}'
    ||| c == '\u{205f}'
    ||| c == '\u{3000}'
}

/// Character classes that the trimming helpers strip.
#[derive(Clone, Copy, PartialEq, Eq, Debug)]
pub enum CharClass {
    Whitespace,
    Nul,
    WhitespaceOrNul,
    PathSeparator,
    Slash,
}

pub open spec fn in_class(cls: CharClass, c: char) -> bool {
    match cls {
        CharClass::Whitespace => is_ws(c),
        CharClass::Nul => c == '\0',
        CharClass::WhitespaceOrNul => is_ws(c) || c == '\0',
        CharClass::PathSeparator => c == '/' || c == '\\',
        CharClass::Slash => c == '/',
    }
}

pub fn is_whitespace(c: char) -> (b: bool)
    ensures
        b == is_ws(c),
{
    ('\u{9}' <= c && c <= '\u{d}') || c == ' ' || c == '\u{85}' || c == '\u{a0}' || c
        == '\u{1680}' || ('\u{2000}' <= c && c <= '\u{200a}') || c == '\u{2028}' || c
        == '\u{2029}' || c == '\u{202f}' || c == '\u{205f}' || c == '\u{3000}'
}

pub fn char_in_class(cls: CharClass, c: char) -> (b: bool)
    ensures
        b == in_class(cls, c),
{
    match cls {
        CharClass::Whitespace => is_whitespace(c),
        CharClass::Nul => c == '\0',
        CharClass::WhitespaceOrNul => is_whitespace(c) || c == '\0',
        CharClass::PathSeparator => c == '/' || c == '\\',
        CharClass::Slash => c == '/',
    }
}

/// `s` without its leading characters of class `cls`.
pub open spec fn trim_start_spec(s: Seq<char>, cls: CharClass) -> Seq<char>
    decreases s.len(),
{
    if s.len() > 0 && in_class(cls, s[0]) {
        trim_start_spec(s.drop_first(), cls)
    } else {
        s
    }
}

/// `s` without its trailing characters of class `cls`.
pub open spec fn trim_end_spec(s: Seq<char>, cls: CharClass) -> Seq<char>
    decreases s.len(),
{
    if s.len() > 0 && in_class(cls, s.last()) {
        trim_end_spec(s.drop_last(), cls)
    } else {
        s
    }
}

/// `s` without leading and trailing characters of class `cls`
/// (what `str::trim_matches` computes for that class).
pub open spec fn trim_spec(s: Seq<char>, cls: CharClass) -> Seq<char> {
    trim_end_spec(trim_start_spec(s, cls), cls)
}

/// Index of the first character of `v` not in `cls`.
pub fn trim_start_index(v: &[char], cls: CharClass) -> (i: usize)
    ensures
        i <= v@.len(),
        v@.skip(i as int) == trim_start_spec(v@, cls),
        forall|k: int| 0 <= k < i ==> in_class(cls, #[trigger] v@[k]),
{
    let mut i: usize = 0;
    assert(v@.skip(0) == v@);
    while i < v.len() && char_in_class(cls, v[i])
        invariant
            i <= v@.len(),
            trim_start_spec(v@, cls) == trim_start_spec(v@.skip(i as int), cls),
            forall|k: int| 0 <= k < i ==> in_class(cls, #[trigger] v@[k]),
        decreases v@.len() - i,
    {
        assert(v@.skip(i as int).drop_first() == v@.skip(i + 1));
        i += 1;
    }
    i
}

/// Length of `v` without its trailing characters of class `cls`.
pub fn trim_end_index(v: &[char], cls: CharClass) -> (j: usize)
    ensures
        j <= v@.len(),
        v@.take(j as int) == trim_end_spec(v@, cls),
        forall|k: int| j <= k < v@.len() ==> in_class(cls, #[trigger] v@[k]),
{
    let mut j: usize = v.len();
    assert(v@.take(j as int) == v@);
    while j > 0 && char_in_class(cls, v[j - 1])
        invariant
            j <= v@.len(),
            trim_end_spec(v@, cls) == trim_end_spec(v@.take(j as int), cls),
            forall|k: int| j <= k < v@.len() ==> in_class(cls, #[trigger] v@[k]),
        decreases j,
    {
        assert(v@.take(j as int).drop_last() == v@.take(j - 1));
        j -= 1;
    }
    j
}

/// The characters of `v` without leading and trailing characters of `cls`.
pub fn trim_chars(v: &[char], cls: CharClass) -> (r: Vec<char>)
    ensures
        r@ == trim_spec(v@, cls),
{
    let i = trim_start_index(v, cls);
    let mut rest: Vec<char> = Vec::new();
    let mut k = i;
    while k < v.len()
        invariant
            i <= k <= v@.len(),
            rest@ == v@.subrange(i as int, k as int),
        decreases v@.len() - k,
    {
        rest.push(v[k]);
        k += 1;
    }
    assert(rest@ == v@.skip(i as int));
    let j = trim_end_index(&rest, cls);
    let mut out: Vec<char> = Vec::new();
    let mut m: usize = 0;
    while m < j
        invariant
            m <= j <= rest@.len(),
            out@ == rest@.take(m as int),
        decreases j - m,
    {
        assert(rest@.take(m + 1) == rest@.take(m as int).push(rest@[m as int]));
        out.push(rest[m]);
        m += 1;
    }
    out
}

/// The characters of `s` without leading and trailing characters of `cls`.
pub fn trim_str(s: &str, cls: CharClass) -> (r: Vec<char>)
    ensures
        r@ == trim_spec(s@, cls),
{
    let v = chars_of(s);
    trim_chars(&v, cls)
}

/// Whether `s` consists only of characters of class `cls`.
pub open spec fn all_in_class(s: Seq<char>, cls: CharClass) -> bool {
    forall|k: int| 0 <= k < s.len() ==> in_class(cls, #[trigger] s[k])
}

pub proof fn lemma_trim_start_empty(s: Seq<char>, cls: CharClass)
    ensures
        (trim_start_spec(s, cls).len() == 0) == all_in_class(s, cls),
        trim_start_spec(s, cls).len() == 0 ==> trim_spec(s, cls).len() == 0,
        trim_spec(s, cls).len() == 0 ==> trim_start_spec(s, cls).len() == 0,
    decreases s.len(),
{
    if s.len() > 0 {
        lemma_trim_start_empty(s.drop_first(), cls);
        if in_class(cls, s[0]) {
            assert forall|k: int| 0 <= k < s.len() && all_in_class(s.drop_first(), cls) implies in_class(cls, #[trigger] s[k]) by {
                if k > 0 {
                    assert(s[k] == s.drop_first()[k - 1]);
                }
            }
            if all_in_class(s, cls) {
                assert forall|k: int| 0 <= k < s.drop_first().len() implies in_class(cls, #[trigger] s.drop_first()[k]) by {
                    assert(s.drop_first()[k] == s[k + 1]);
                }
            }
        }
    }
    lemma_trim_end_nonempty(trim_start_spec(s, cls), cls);
}

pub proof fn lemma_trim_end_nonempty(s: Seq<char>, cls: CharClass)
    ensures
        s.len() > 0 && !in_class(cls, s[0]) ==> trim_end_spec(s, cls).len() > 0,
        s.len() == 0 ==> trim_end_spec(s, cls).len() == 0,
    decreases s.len(),
{
    if s.len() > 0 && in_class(cls, s.last()) {
        lemma_trim_end_nonempty(s.drop_last(), cls);
    }
}

/// Trimming the start drops a prefix and leaves a first character outside the class.
pub proof fn lemma_trim_start_shape(s: Seq<char>, cls: CharClass) -> (k: int)
    ensures
        0 <= k <= s.len(),
        trim_start_spec(s, cls) == s.skip(k),
        trim_start_spec(s, cls).len() > 0 ==> !in_class(cls, trim_start_spec(s, cls)[0]),
    decreases s.len(),
{
    if s.len() > 0 && in_class(cls, s[0]) {
        let j = lemma_trim_start_shape(s.drop_first(), cls);
        assert(s.drop_first().skip(j) == s.skip(j + 1));
        j + 1
    } else {
        assert(s.skip(0) == s);
        0
    }
}

/// Trimming the end drops a suffix, leaves a last character outside the
/// class, and keeps a first character outside the class.
pub proof fn lemma_trim_end_shape(s: Seq<char>, cls: CharClass) -> (k: int)
    ensures
        0 <= k <= s.len(),
        trim_end_spec(s, cls) == s.take(k),
        trim_end_spec(s, cls).len() > 0 ==> !in_class(cls, trim_end_spec(s, cls).last()),
        s.len() > 0 && !in_class(cls, s[0]) ==> trim_end_spec(s, cls).len() > 0 && trim_end_spec(s, cls)[0] == s[0],
    decreases s.len(),
{
    if s.len() > 0 && in_class(cls, s.last()) {
        let j = lemma_trim_end_shape(s.drop_last(), cls);
        assert(s.drop_last().take(j) == s.take(j));
        if s.len() > 0 && !in_class(cls, s[0]) {
            assert(s.drop_last().len() > 0);
            assert(s.drop_last()[0] == s[0]);
        }
        j
    } else {
        assert(s.take(s.len() as int) == s);
        s.len() as int
    }
}

/// A trimmed string neither starts nor ends with a character of the class,
/// and every character of it comes from the original.
pub proof fn lemma_trim_shape(s: Seq<char>, cls: CharClass)
    ensures
        trim_spec(s, cls).len() > 0 ==> !in_class(cls, trim_spec(s, cls)[0]) && !in_class(cls, trim_spec(s, cls).last()),
        forall|i: int| 0 <= i < trim_spec(s, cls).len() ==> s.contains(#[trigger] trim_spec(s, cls)[i]),
{
    let a = lemma_trim_start_shape(s, cls);
    let st = trim_start_spec(s, cls);
    let b = lemma_trim_end_shape(st, cls);
    let t = trim_spec(s, cls);
    assert forall|i: int| 0 <= i < t.len() implies s.contains(#[trigger] t[i]) by {
        assert(t[i] == st[i]);
        assert(st[i] == s[i + a]);
    }
}

/// Trimming leaves alone a string that neither starts nor ends with a
/// character of the class.
pub proof fn lemma_trim_identity(s: Seq<char>, cls: CharClass)
    requires
        s.len() > 0 ==> !in_class(cls, s[0]) && !in_class(cls, s.last()),
    ensures
        trim_spec(s, cls) == s,
{
    assert(trim_start_spec(s, cls) == s);
    assert(trim_end_spec(s, cls) == s);
}

/// ASCII lowercase of one character.
pub open spec fn ascii_lower(c: char) -> char {
    if 'A' <= c && c <= 'Z' {
        ((c as u32) + 32) as char
    } else {
        c
    }
}

pub fn to_ascii_lower(c: char) -> (r: char)
    ensures
        r == ascii_lower(c),
{
    if 'A' <= c && c <= 'Z' {
        ((c as u8) + 32) as char
    } else {
        c
    }
}

pub open spec fn ascii_lower_seq(s: Seq<char>) -> Seq<char> {
    s.map_values(|c: char| ascii_lower(c))
}

pub fn ascii_lowercase(v: &[char]) -> (r: Vec<char>)
    ensures
        r@ == ascii_lower_seq(v@),
{
    let mut r: Vec<char> = Vec::new();
    let mut i: usize = 0;
    while i < v.len()
        invariant
            i <= v@.len(),
            r@ == ascii_lower_seq(v@.take(i as int)),
        decreases v@.len() - i,
    {
        r.push(to_ascii_lower(v[i]));
        assert(ascii_lower_seq(v@.take(i + 1)) == ascii_lower_seq(v@.take(i as int)).push(
            ascii_lower(v@[i as int]),
        ));
        i += 1;
    }
    assert(v@.take(v@.len() as int) == v@);
    r
}

/// `char::is_ascii_alphanumeric`.
pub open spec fn is_ascii_alnum(c: char) -> bool {
    ('a' <= c && c <= 'z') || ('A' <= c && c <= 'Z') || ('0' <= c && c <= '9')
}

pub fn ascii_alnum(c: char) -> (b: bool)
    ensures
        b == is_ascii_alnum(c),
{
    ('a' <= c && c <= 'z') || ('A' <= c && c <= 'Z') || ('0' <= c && c <= '9')
}

/// Whether `p` occurs in `s` starting at index `i`.
pub open spec fn occurs_at(s: Seq<char>, p: Seq<char>, i: int) -> bool {
    0 <= i && i + p.len() <= s.len() && s.subrange(i, i + p.len()) == p
}

pub open spec fn contains_seq(s: Seq<char>, p: Seq<char>) -> bool {
    exists|i: int| occurs_at(s, p, i)
}

pub fn matches_at(s: &[char], p: &[char], i: usize) -> (b: bool)
    ensures
        b == occurs_at(s@, p@, i as int),
{
    if i > s.len() || p.len() > s.len() - i {
        return false;
    }
    let mut k: usize = 0;
    while k < p.len()
        invariant
            k <= p@.len(),
            i + p@.len() <= s@.len(),
            s@.len() <= usize::MAX,
            forall|m: int| 0 <= m < k ==> s@[i + m] == p@[m],
        decreases p@.len() - k,
    {
        if s[i + k] != p[k] {
            assert(s@.subrange(i as int, i + p@.len())[k as int] != p@[k as int]);
            return false;
        }
        k += 1;
    }
    assert(s@.subrange(i as int, i + p@.len()) == p@);
    true
}

pub fn starts_with(s: &[char], p: &[char]) -> (b: bool)
    ensures
        b == p@.is_prefix_of(s@),
        b == occurs_at(s@, p@, 0),
{
    let b = matches_at(s, p, 0);
    assert(b ==> s@.subrange(0, p@.len() as int) == s@.take(p@.len() as int));
    if p.len() <= s.len() {
        assert(s@.subrange(0, p@.len() as int) == s@.take(p@.len() as int));
    }
    b
}

pub fn ends_with(s: &[char], p: &[char]) -> (b: bool)
    ensures
        b == p@.is_suffix_of(s@),
{
    if p.len() > s.len() {
        return false;
    }
    let b = matches_at(s, p, s.len() - p.len());
    assert(s@.subrange(s@.len() - p@.len(), s@.len() as int) == s@.skip(
        s@.len() - p@.len(),
    ));
    b
}

/// The index of the first occurrence of `p` in `s`, at or after `from`.
pub fn find_from(s: &[char], p: &[char], from: usize) -> (r: Option<usize>)
    ensures
        match r {
            Some(i) => from <= i && occurs_at(s@, p@, i as int) && forall|k: int|
                from <= k < i ==> !occurs_at(s@, p@, k),
            None => forall|k: int| from <= k ==> !occurs_at(s@, p@, k),
        },
{
    let mut i = from;
    while i < s.len()
        invariant
            from <= i,
            forall|k: int| from <= k < i ==> !occurs_at(s@, p@, k),
        decreases s@.len() - i,
    {
        if matches_at(s, p, i) {
            return Some(i);
        }
        i += 1;
    }
    if matches_at(s, p, i) {
        return Some(i);
    }
    None
}

pub fn contains(s: &[char], p: &[char]) -> (b: bool)
    ensures
        b == contains_seq(s@, p@),
{
    match find_from(s, p, 0) {
        Some(_) => true,
        None => false,
    }
}

/// The index of the last occurrence of `p` in `s`.
pub fn rfind(s: &[char], p: &[char]) -> (r: Option<usize>)
    ensures
        match r {
            Some(i) => occurs_at(s@, p@, i as int) && forall|k: int|
                i < k ==> !occurs_at(s@, p@, k),
            None => forall|k: int| !occurs_at(s@, p@, k),
        },
{
    if p.len() > s.len() {
        return None;
    }
    if p.len() == 0 {
        assert(s@.subrange(s@.len() as int, s@.len() as int) == p@);
        return Some(s.len());
    }
    let mut i = s.len() - p.len() + 1;
    while i > 0
        invariant
            i <= s@.len() - p@.len() + 1,
            forall|k: int| i <= k ==> !occurs_at(s@, p@, k),
        decreases i,
    {
        if matches_at(s, p, i - 1) {
            return Some(i - 1);
        }
        i -= 1;
    }
    None
}

/// Lexicographic order on character sequences (the order of `String`'s `Ord`,
/// since UTF-8 preserves the order of code points).
pub open spec fn seq_less(a: Seq<char>, b: Seq<char>) -> bool
    decreases a.len(),
{
    if a.len() == 0 {
        b.len() > 0
    } else if b.len() == 0 {
        false
    } else if a[0] < b[0] {
        true
    } else if a[0] == b[0] {
        seq_less(a.drop_first(), b.drop_first())
    } else {
        false
    }
}

pub proof fn lemma_seq_less_irreflexive(a: Seq<char>)
    ensures
        !seq_less(a, a),
    decreases a.len(),
{
    if a.len() > 0 {
        lemma_seq_less_irreflexive(a.drop_first());
    }
}

pub proof fn lemma_seq_less_transitive(a: Seq<char>, b: Seq<char>, c: Seq<char>)
    requires
        seq_less(a, b),
        seq_less(b, c),
    ensures
        seq_less(a, c),
    decreases a.len(),
{
    if a.len() > 0 && b.len() > 0 && c.len() > 0 {
        if a[0] == b[0] && b[0] == c[0] {
            lemma_seq_less_transitive(a.drop_first(), b.drop_first(), c.drop_first());
        }
    }
}

pub proof fn lemma_seq_less_total(a: Seq<char>, b: Seq<char>)
    ensures
        seq_less(a, b) || seq_less(b, a) || a == b,
    decreases a.len(),
{
    if a.len() > 0 && b.len() > 0 && a[0] == b[0] {
        lemma_seq_less_total(a.drop_first(), b.drop_first());
        if a.drop_first() == b.drop_first() {
            assert(a == seq![a[0]] + a.drop_first());
            assert(b == seq![b[0]] + b.drop_first());
        }
    } else if a.len() == 0 && b.len() == 0 {
        assert(a == b);
    }
}

pub proof fn lemma_seq_less_asymmetric(a: Seq<char>, b: Seq<char>)
    requires
        seq_less(a, b),
    ensures
        !seq_less(b, a),
{
    if seq_less(b, a) {
        lemma_seq_less_transitive(a, b, a);
        lemma_seq_less_irreflexive(a);
    }
}

/// Lexicographic order on byte strings (the order in which an FST keeps its keys).
pub open spec fn bytes_less(a: Seq<u8>, b: Seq<u8>) -> bool
    decreases a.len(),
{
    if a.len() == 0 {
        b.len() > 0
    } else if b.len() == 0 {
        false
    } else if a[0] < b[0] {
        true
    } else if a[0] == b[0] {
        bytes_less(a.drop_first(), b.drop_first())
    } else {
        false
    }
}

proof fn lemma_bytes_less_common_prefix(p: Seq<u8>, x: Seq<u8>, y: Seq<u8>)
    ensures
        bytes_less(p + x, p + y) == bytes_less(x, y),
    decreases p.len(),
{
    if p.len() > 0 {
        assert((p + x).drop_first() == p.drop_first() + x);
        assert((p + y).drop_first() == p.drop_first() + y);
        lemma_bytes_less_common_prefix(p.drop_first(), x, y);
    } else {
        assert(p + x == x);
        assert(p + y == y);
    }
}

/// Two byte strings that agree before `k` and differ at `k`, smaller first,
/// stay in that order whatever follows them.
proof fn lemma_bytes_less_at(s: Seq<u8>, t: Seq<u8>, x: Seq<u8>, y: Seq<u8>, k: int)
    requires
        0 <= k < s.len(),
        k < t.len(),
        forall|i: int| 0 <= i < k ==> s[i] == t[i],
        s[k] < t[k],
    ensures
        bytes_less(s + x, t + y),
    decreases k,
{
    assert((s + x)[0] == s[0]);
    assert((t + y)[0] == t[0]);
    if k > 0 {
        assert((s + x).drop_first() == s.drop_first() + x);
        assert((t + y).drop_first() == t.drop_first() + y);
        lemma_bytes_less_at(s.drop_first(), t.drop_first(), x, y, k - 1);
    }
}

proof fn lemma_width_1_leads(u: u32, v: u32)
    by (bit_vector)
    requires
        u < v,
        v <= 0x7F,
    ensures
        vstd::utf8::leading_byte_width_1(u) < vstd::utf8::leading_byte_width_1(v),
{
}

proof fn lemma_lead_bands(u: u32)
    by (bit_vector)
    requires
        u <= 0x10FFFF,
    ensures
        u <= 0x7F ==> vstd::utf8::leading_byte_width_1(u) < 0xC0,
        0x80 <= u <= 0x7FF ==> 0xC0 <= vstd::utf8::leading_byte_width_2(u) < 0xE0,
        0x800 <= u <= 0xFFFF ==> 0xE0 <= vstd::utf8::leading_byte_width_3(u) < 0xF0,
        0x10000 <= u ==> 0xF0 <= vstd::utf8::leading_byte_width_4(u),
{
}

proof fn lemma_width_2_order(u: u32, v: u32)
    by (bit_vector)
    requires
        0x80 <= u,
        u < v,
        v <= 0x7FF,
    ensures
        vstd::utf8::leading_byte_width_2(u) < vstd::utf8::leading_byte_width_2(v) || (
        vstd::utf8::leading_byte_width_2(u) == vstd::utf8::leading_byte_width_2(v)
            && vstd::utf8::last_continuation_byte(u) < vstd::utf8::last_continuation_byte(v)),
{
}

proof fn lemma_width_3_order(u: u32, v: u32)
    by (bit_vector)
    requires
        0x800 <= u,
        u < v,
        v <= 0xFFFF,
    ensures
        vstd::utf8::leading_byte_width_3(u) < vstd::utf8::leading_byte_width_3(v) || (
        vstd::utf8::leading_byte_width_3(u) == vstd::utf8::leading_byte_width_3(v)
            && vstd::utf8::second_last_continuation_byte(u) < vstd::utf8::second_last_continuation_byte(v)) || (
        vstd::utf8::leading_byte_width_3(u) == vstd::utf8::leading_byte_width_3(v)
            && vstd::utf8::second_last_continuation_byte(u) == vstd::utf8::second_last_continuation_byte(v)
            && vstd::utf8::last_continuation_byte(u) < vstd::utf8::last_continuation_byte(v)),
{
}

proof fn lemma_width_4_order(u: u32, v: u32)
    by (bit_vector)
    requires
        0x10000 <= u,
        u < v,
        v <= 0x10FFFF,
    ensures
        vstd::utf8::leading_byte_width_4(u) < vstd::utf8::leading_byte_width_4(v) || (
        vstd::utf8::leading_byte_width_4(u) == vstd::utf8::leading_byte_width_4(v)
            && vstd::utf8::third_last_continuation_byte(u) < vstd::utf8::third_last_continuation_byte(v)) || (
        vstd::utf8::leading_byte_width_4(u) == vstd::utf8::leading_byte_width_4(v)
            && vstd::utf8::third_last_continuation_byte(u) == vstd::utf8::third_last_continuation_byte(v)
            && vstd::utf8::second_last_continuation_byte(u) < vstd::utf8::second_last_continuation_byte(v)) || (
        vstd::utf8::leading_byte_width_4(u) == vstd::utf8::leading_byte_width_4(v)
            && vstd::utf8::third_last_continuation_byte(u) == vstd::utf8::third_last_continuation_byte(v)
            && vstd::utf8::second_last_continuation_byte(u) == vstd::utf8::second_last_continuation_byte(v)
            && vstd::utf8::last_continuation_byte(u) < vstd::utf8::last_continuation_byte(v)),
{
}

/// The UTF-8 encodings of two scalars keep their order, whatever follows them.
proof fn lemma_encode_scalar_less(u: u32, v: u32, x: Seq<u8>, y: Seq<u8>)
    requires
        vstd::utf8::is_scalar(u),
        vstd::utf8::is_scalar(v),
        u < v,
    ensures
        bytes_less(vstd::utf8::encode_scalar(u) + x, vstd::utf8::encode_scalar(v) + y),
{
    let s = vstd::utf8::encode_scalar(u);
    let t = vstd::utf8::encode_scalar(v);
    lemma_lead_bands(u);
    lemma_lead_bands(v);
    if vstd::utf8::has_width_1_encoding(v) {
        lemma_width_1_leads(u, v);
        lemma_bytes_less_at(s, t, x, y, 0);
    } else if vstd::utf8::has_width_2_encoding(v) && vstd::utf8::has_width_2_encoding(u) {
        lemma_width_2_order(u, v);
        if s[0] < t[0] {
            lemma_bytes_less_at(s, t, x, y, 0);
        } else {
            lemma_bytes_less_at(s, t, x, y, 1);
        }
    } else if vstd::utf8::has_width_3_encoding(v) && vstd::utf8::has_width_3_encoding(u) {
        lemma_width_3_order(u, v);
        if s[0] < t[0] {
            lemma_bytes_less_at(s, t, x, y, 0);
        } else if s[1] < t[1] {
            lemma_bytes_less_at(s, t, x, y, 1);
        } else {
            lemma_bytes_less_at(s, t, x, y, 2);
        }
    } else if vstd::utf8::has_width_4_encoding(v) && vstd::utf8::has_width_4_encoding(u) {
        lemma_width_4_order(u, v);
        if s[0] < t[0] {
            lemma_bytes_less_at(s, t, x, y, 0);
        } else if s[1] < t[1] {
            lemma_bytes_less_at(s, t, x, y, 1);
        } else if s[2] < t[2] {
            lemma_bytes_less_at(s, t, x, y, 2);
        } else {
            lemma_bytes_less_at(s, t, x, y, 3);
        }
    } else {
        assert(s[0] < t[0]);
        lemma_bytes_less_at(s, t, x, y, 0);
    }
}

proof fn lemma_char_cast_order(c: char, d: char)
    requires
        c < d,
    ensures
        (c as u32) < (d as u32),
{
}

/// UTF-8 keeps the order of character sequences: the order of `String` is
/// the order of its bytes.
pub proof fn lemma_utf8_keeps_order(a: Seq<char>, b: Seq<char>)
    requires
        seq_less(a, b),
    ensures
        bytes_less(vstd::utf8::encode_utf8(a), vstd::utf8::encode_utf8(b)),
    decreases a.len(),
{
    let ea = vstd::utf8::encode_utf8(a);
    let eb = vstd::utf8::encode_utf8(b);
    if a.len() == 0 {
        vstd::utf8::char_is_scalar(b[0]);
        assert(vstd::utf8::encode_scalar(b[0] as u32).len() > 0);
        assert(eb.len() > 0);
    } else if a[0] < b[0] {
        vstd::utf8::char_is_scalar(a[0]);
        vstd::utf8::char_is_scalar(b[0]);
        lemma_char_cast_order(a[0], b[0]);
        lemma_encode_scalar_less(a[0] as u32, b[0] as u32, vstd::utf8::encode_utf8(a.drop_first()), vstd::utf8::encode_utf8(b.drop_first()));
    } else {
        lemma_utf8_keeps_order(a.drop_first(), b.drop_first());
        lemma_bytes_less_common_prefix(vstd::utf8::encode_scalar(a[0] as u32), vstd::utf8::encode_utf8(a.drop_first()), vstd::utf8::encode_utf8(b.drop_first()));
    }
}

/// Compares two character sequences: -1, 0 or 1.
pub fn compare_chars(a: &[char], b: &[char]) -> (r: i8)
    ensures
        r == -1 <==> seq_less(a@, b@),
        r == 0 <==> a@ == b@,
        r == 1 <==> seq_less(b@, a@),
        r == -1 || r == 0 || r == 1,
{
    let mut i: usize = 0;
    assert(a@.skip(0) == a@);
    assert(b@.skip(0) == b@);
    while i < a.len() && i < b.len() && a[i] == b[i]
        invariant
            i <= a@.len(),
            i <= b@.len(),
            a@.take(i as int) == b@.take(i as int),
            seq_less(a@, b@) == seq_less(a@.skip(i as int), b@.skip(i as int)),
            seq_less(b@, a@) == seq_less(b@.skip(i as int), a@.skip(i as int)),
        decreases a@.len() - i,
    {
        assert(a@.skip(i as int).drop_first() == a@.skip(i + 1));
        assert(b@.skip(i as int).drop_first() == b@.skip(i + 1));
        assert(a@.take(i + 1) == a@.take(i as int).push(a@[i as int]));
        assert(b@.take(i + 1) == b@.take(i as int).push(b@[i as int]));
        i += 1;
    }
    proof {
        lemma_seq_less_irreflexive(a@);
    }
    if i == a.len() && i == b.len() {
        assert(a@ == a@.take(i as int));
        assert(b@ == b@.take(i as int));
        0
    } else if i == a.len() {
        assert(a@.skip(i as int).len() == 0);
        assert(a@ != b@);
        -1
    } else if i == b.len() {
        assert(b@.skip(i as int).len() == 0);
        assert(a@[i as int] == a@.skip(i as int)[0]);
        assert(a@ != b@);
        1
    } else {
        assert(a@[i as int] == a@.skip(i as int)[0]);
        assert(b@[i as int] == b@.skip(i as int)[0]);
        assert(a@[i as int] != b@[i as int]);
        if a[i] < b[i] {
            -1
        } else {
            1
        }
    }
}

/// The decimal digit character for `d < 10`.
pub open spec fn digit_char(d: nat) -> char {
    (('0' as u32) + d) as char
}

/// Decimal representation of `n`, as `Display` for integers writes it.
pub open spec fn decimal(n: nat) -> Seq<char>
    decreases n,
{
    if n < 10 {
        seq![digit_char(n)]
    } else {
        decimal(n / 10).push(digit_char(n % 10))
    }
}

fn digit(d: u128) -> (c: char)
    requires
        d < 10,
    ensures
        c == digit_char(d as nat),
{
    ((d as u8) + 48) as char
}

/// Decimal digits of `n`.
pub fn decimal_chars(n: u128) -> (v: Vec<char>)
    ensures
        v@ == decimal(n as nat),
    decreases n,
{
    if n < 10 {
        let mut v: Vec<char> = Vec::new();
        v.push(digit(n));
        v
    } else {
        let mut v = decimal_chars(n / 10);
        v.push(digit(n % 10));
        v
    }
}

} // verus!

verus! {

/// The character sequences of a list of strings.
pub open spec fn strings_view(v: Seq<String>) -> Seq<Seq<char>> {
    v.map_values(|s: String| s@)
}

/// Strictly ascending in lexicographic order (sorted, nothing repeated).
pub open spec fn strictly_ascending(keys: Seq<Seq<char>>) -> bool {
    forall|i: int, j: int| 0 <= i < j < keys.len() ==> seq_less(keys[i], keys[j])
}

/// Inserts `x` into the strictly ascending list `v` unless it is already there.
pub fn insert_sorted_unique(v: &mut Vec<String>, x: String)
    requires
        strictly_ascending(strings_view(old(v)@)),
    ensures
        strictly_ascending(strings_view(final(v)@)),
        strings_view(final(v)@).to_set() == strings_view(old(v)@).to_set().insert(x@),
{
    let xc = chars_of(x.as_str());
    let mut i: usize = 0;
    let mut found = false;
    while i < v.len()
        invariant_except_break
            !found,
        invariant
            i <= v@.len(),
            v@ == old(v)@,
            xc@ == x@,
            forall|k: int| 0 <= k < i ==> seq_less(#[trigger] v@[k]@, xc@),
        ensures
            i <= v@.len(),
            found ==> i < v@.len() && v@[i as int]@ == xc@,
            !found && i < v@.len() ==> seq_less(xc@, v@[i as int]@),
        decreases v@.len() - i,
    {
        let ec = chars_of(v[i].as_str());
        let c = compare_chars(&ec, &xc);
        if c == 0 {
            found = true;
            break;
        } else if c == 1 {
            break;
        }
        i += 1;
    }
    let ghost ov = strings_view(v@);
    if found {
        proof {
            assert(ov[i as int] == x@);
            assert(ov.to_set().insert(x@) =~= ov.to_set());
        }
    } else {
        v.insert(i, x);
        proof {
            let nv = strings_view(v@);
            assert(nv == ov.insert(i as int, xc@));
            assert forall|a: int, b: int| 0 <= a < b < nv.len() implies seq_less(nv[a], nv[b]) by {
                if b < i {
                    assert(nv[a] == ov[a] && nv[b] == ov[b]);
                } else if b == i {
                    assert(nv[a] == ov[a]);
                } else if a == i {
                    assert(nv[b] == ov[b - 1]);
                    if b - 1 > i {
                        lemma_seq_less_transitive(xc@, ov[i as int], ov[b - 1]);
                    }
                } else if a < i {
                    assert(nv[a] == ov[a] && nv[b] == ov[b - 1]);
                    if b - 1 > i {
                        lemma_seq_less_transitive(xc@, ov[i as int], ov[b - 1]);
                    }
                    lemma_seq_less_transitive(ov[a], xc@, ov[b - 1]);
                } else {
                    assert(nv[a] == ov[a - 1] && nv[b] == ov[b - 1]);
                }
            }
            assert forall|s: Seq<char>| nv.to_set().contains(s) == ov.to_set().insert(xc@).contains(s) by {
                if nv.to_set().contains(s) {
                    let k = choose|k: int| 0 <= k < nv.len() && nv[k] == s;
                    if k < i {
                        assert(ov[k] == s);
                    } else if k > i {
                        assert(ov[k - 1] == s);
                    }
                }
                if ov.to_set().contains(s) {
                    let k = choose|k: int| 0 <= k < ov.len() && ov[k] == s;
                    if k < i {
                        assert(nv[k] == s);
                    } else {
                        assert(nv[k + 1] == s);
                    }
                }
                if s == xc@ {
                    assert(nv[i as int] == s);
                }
            }
            assert(nv.to_set() =~= ov.to_set().insert(xc@));
        }
    }
}

/// The strings of `v`, sorted and with repetitions removed.
pub fn sorted_unique(v: Vec<String>) -> (r: Vec<String>)
    ensures
        strictly_ascending(strings_view(r@)),
        strings_view(r@).to_set() == strings_view(v@).to_set(),
{
    let mut r: Vec<String> = Vec::new();
    let n = v.len();
    let mut rest = v;
    let ghost orig = strings_view(rest@);
    let mut i: usize = 0;
    while i < n
        invariant
            n == orig.len(),
            i <= n,
            strings_view(rest@) == orig,
            strictly_ascending(strings_view(r@)),
            strings_view(r@).to_set() == orig.take(i as int).to_set(),
        decreases n - i,
    {
        let x = rest[i].clone();
        insert_sorted_unique(&mut r, x);
        proof {
            assert(orig.take(i + 1) == orig.take(i as int).push(orig[i as int]));
            orig.take(i as int).lemma_push_to_set_commute(orig[i as int]);
        }
        i += 1;
    }
    proof {
        assert(orig.take(n as int) == orig);
        assert(strings_view(r@).len() == 0 ==> strictly_ascending(strings_view(r@)));
    }
    r
}

} // verus!

verus! {

/// The pieces of `s` between occurrences of `c` (as `str::split(c)`).
pub open spec fn split_on(s: Seq<char>, c: char) -> Seq<Seq<char>>
    decreases s.len(),
{
    if s.len() == 0 {
        seq![Seq::<char>::empty()]
    } else {
        let rest = split_on(s.drop_last(), c);
        if s.last() == c {
            rest.push(Seq::<char>::empty())
        } else {
            rest.update(rest.len() - 1, rest.last().push(s.last()))
        }
    }
}

pub proof fn lemma_split_on_nonempty(s: Seq<char>, c: char)
    ensures
        split_on(s, c).len() >= 1,
    decreases s.len(),
{
    if s.len() > 0 {
        lemma_split_on_nonempty(s.drop_last(), c);
    }
}

/// Splitting at a separator splits the text on either side of it apart.
pub proof fn lemma_split_on_concat(x: Seq<char>, c: char, y: Seq<char>)
    ensures
        split_on(x + seq![c] + y, c) == split_on(x, c) + split_on(y, c),
    decreases y.len(),
{
    let s = x + seq![c] + y;
    if y.len() == 0 {
        assert(s.drop_last() =~= x);
        assert(split_on(x, c) + split_on(y, c) =~= split_on(x, c).push(Seq::<char>::empty()));
    } else {
        let y1 = y.drop_last();
        assert(s.drop_last() =~= x + seq![c] + y1);
        assert(s.last() == y.last());
        lemma_split_on_concat(x, c, y1);
        lemma_split_on_nonempty(y1, c);
        lemma_split_on_nonempty(x, c);
        let a = split_on(x, c);
        let b = split_on(y1, c);
        if y.last() == c {
            assert((a + b).push(Seq::<char>::empty()) =~= a + b.push(Seq::<char>::empty()));
        } else {
            let ab = a + b;
            assert(ab.last() == b.last());
            assert(ab.update(ab.len() - 1, ab.last().push(y.last())) =~= a + b.update(b.len() - 1, b.last().push(y.last())));
        }
    }
}

/// Text without the separator is one piece.
pub proof fn lemma_split_on_single(p: Seq<char>, c: char)
    requires
        !p.contains(c),
    ensures
        split_on(p, c) == seq![p],
    decreases p.len(),
{
    if p.len() > 0 {
        assert(!p.drop_last().contains(c)) by {
            if p.drop_last().contains(c) {
                let k = choose|k: int| 0 <= k < p.drop_last().len() && p.drop_last()[k] == c;
                assert(p[k] == c);
            }
        }
        lemma_split_on_single(p.drop_last(), c);
        assert(p.last() != c) by {
            assert(p[p.len() - 1] == p.last());
        }
        assert(p.drop_last().push(p.last()) =~= p);
        assert(seq![p.drop_last()].update(0, p.drop_last().push(p.last())) =~= seq![p]);
    } else {
        assert(p =~= Seq::<char>::empty());
    }
}

/// Splitting pieces joined with a separator they do not hold gives the
/// pieces back.
pub proof fn lemma_split_joined(parts: Seq<Seq<char>>, c: char)
    requires
        parts.len() > 0,
        forall|i: int| 0 <= i < parts.len() ==> !(#[trigger] parts[i]).contains(c),
    ensures
        split_on(joined(parts, seq![c]), c) == parts,
    decreases parts.len(),
{
    if parts.len() == 1 {
        lemma_split_on_single(parts[0], c);
        assert(parts =~= seq![parts[0]]);
    } else {
        let init = parts.drop_last();
        assert forall|i: int| 0 <= i < init.len() implies !(#[trigger] init[i]).contains(c) by {
            assert(init[i] == parts[i]);
        }
        lemma_split_joined(init, c);
        assert(!parts.last().contains(c)) by {
            assert(parts[parts.len() - 1] == parts.last());
        }
        lemma_split_on_single(parts.last(), c);
        lemma_split_on_concat(joined(init, seq![c]), c, parts.last());
        assert(init + seq![parts.last()] =~= parts);
    }
}

/// Splits `v` at each `c`.
pub fn split_chars(v: &[char], c: char) -> (r: Vec<Vec<char>>)
    ensures
        r@.len() == split_on(v@, c).len(),
        forall|i: int| 0 <= i < r@.len() ==> #[trigger] r@[i]@ == split_on(v@, c)[i],
{
    let mut r: Vec<Vec<char>> = Vec::new();
    let mut cur: Vec<char> = Vec::new();
    let mut i: usize = 0;
    while i < v.len()
        invariant
            i <= v@.len(),
            r@.len() + 1 == split_on(v@.take(i as int), c).len(),
            forall|k: int| 0 <= k < r@.len() ==> #[trigger] r@[k]@ == split_on(v@.take(i as int), c)[k],
            cur@ == split_on(v@.take(i as int), c).last(),
        decreases v@.len() - i,
    {
        proof {
            lemma_split_on_nonempty(v@.take(i as int), c);
            assert(v@.take(i + 1).drop_last() == v@.take(i as int));
        }
        if v[i] == c {
            let done = cur;
            r.push(done);
            cur = Vec::new();
        } else {
            cur.push(v[i]);
        }
        i += 1;
    }
    assert(v@.take(v@.len() as int) == v@);
    r.push(cur);
    r
}

/// The maximal runs of non-whitespace characters of `s` (as `str::split_whitespace`).
pub open spec fn words(s: Seq<char>) -> Seq<Seq<char>>
    decreases s.len(),
{
    if s.len() == 0 {
        seq![]
    } else {
        let w = words(s.drop_last());
        if is_ws(s.last()) {
            w
        } else if s.len() >= 2 && !is_ws(s[s.len() - 2]) {
            w.update(w.len() - 1, w.last().push(s.last()))
        } else {
            w.push(seq![s.last()])
        }
    }
}

pub proof fn lemma_words_nonempty(s: Seq<char>)
    ensures
        s.len() > 0 && !is_ws(s.last()) ==> words(s).len() >= 1,
    decreases s.len(),
{
    if s.len() > 0 {
        lemma_words_nonempty(s.drop_last());
    }
}

/// The words of `v`.
pub fn split_words(v: &[char]) -> (r: Vec<Vec<char>>)
    ensures
        r@.len() == words(v@).len(),
        forall|i: int| 0 <= i < r@.len() ==> #[trigger] r@[i]@ == words(v@)[i],
{
    let mut r: Vec<Vec<char>> = Vec::new();
    let mut i: usize = 0;
    while i < v.len()
        invariant
            i <= v@.len(),
            r@.len() == words(v@.take(i as int)).len(),
            forall|k: int| 0 <= k < r@.len() ==> #[trigger] r@[k]@ == words(v@.take(i as int))[k],
        decreases v@.len() - i,
    {
        let c = v[i];
        proof {
            assert(v@.take(i + 1).drop_last() == v@.take(i as int));
            assert(v@.take(i + 1).last() == c);
            if i >= 1 {
                assert(v@.take(i + 1)[i - 1] == v@[i - 1]);
                assert(v@.take(i as int).last() == v@[i - 1]);
                lemma_words_nonempty(v@.take(i as int));
            }
        }
        if is_whitespace(c) {
        } else if i >= 1 && !is_whitespace(v[i - 1]) {
            let last = r.len() - 1;
            let mut w = r.remove(last);
            w.push(c);
            r.push(w);
            proof {
                let ws = words(v@.take(i + 1));
                assert forall|k: int| 0 <= k < r@.len() implies #[trigger] r@[k]@ == ws[k] by {
                }
            }
        } else {
            let mut w: Vec<char> = Vec::new();
            w.push(c);
            r.push(w);
            proof {
                assert(w@ == seq![c]);
            }
        }
        i += 1;
    }
    assert(v@.take(v@.len() as int) == v@);
    r
}

/// The pieces of `parts` with `sep` between consecutive ones.
pub open spec fn joined(parts: Seq<Seq<char>>, sep: Seq<char>) -> Seq<char>
    decreases parts.len(),
{
    if parts.len() == 0 {
        seq![]
    } else if parts.len() == 1 {
        parts[0]
    } else {
        joined(parts.drop_last(), sep) + sep + parts.last()
    }
}

pub fn join_chars(parts: &Vec<Vec<char>>, sep: &[char]) -> (r: Vec<char>)
    ensures
        r@ == joined(parts@.map_values(|p: Vec<char>| p@), sep@),
{
    let ghost pv = parts@.map_values(|p: Vec<char>| p@);
    let mut r: Vec<char> = Vec::new();
    let mut i: usize = 0;
    while i < parts.len()
        invariant
            i <= parts@.len(),
            pv == parts@.map_values(|p: Vec<char>| p@),
            r@ == joined(pv.take(i as int), sep@),
        decreases parts@.len() - i,
    {
        proof {
            assert(pv.take(i + 1).drop_last() == pv.take(i as int));
            assert(pv.take(i + 1).last() == parts@[i as int]@);
        }
        if i > 0 {
            push_all(&mut r, sep);
        }
        push_all(&mut r, &parts[i]);
        proof {
            if i == 0 {
                assert(pv.take(1)[0] == parts@[0]@);
                assert(r@ == seq![] + parts@[0]@);
            }
        }
        i += 1;
    }
    assert(pv.take(parts@.len() as int) == pv);
    r
}

} // verus!
