//! Dictionary lookups: redirect resolution, resource key resolution, entity
//! tags and the other per-request rules of the dictionary engine.

use vstd::prelude::*;
use crate::domain::{
    entry_not_found_message, resource_not_found_message, dictionary_unavailable_message,
    ErrorCode, LookupMatchType, RenderedEntryContent, ServiceError, STATUS_INTERNAL_SERVER_ERROR,
    STATUS_NOT_FOUND, STATUS_SERVICE_UNAVAILABLE,
};
use crate::text::{
    chars_of, decimal, decimal_chars, push_all, push_str, starts_with, string_of, strings_view,
    trim_chars, trim_spec, trim_start_spec, trim_start_index, trim_str, CharClass,
};
use crate::trusted::{
    blake3_hex, blake3_hex_digest, is_lower_hex_digit, guess_mime, guessed_mime, mdd_lookup_span, mdx_lookup, parse_url,
    parsed_url, utf8_bytes, utf8_lossy, utf8_lossy_chars, ResourceSpan,
};
use crate::config::DictionaryBundleManifest;
use crate::domain::{DictionaryHeaderInfo, SuggestionItem, SuggestionMatchType};
use crate::index::DictionarySuggestIndex;
use crate::rewrite::{css_rewritten, entry_html_rewritten, rewrite_css_urls, rewrite_entry_html};
use crate::service::LookupArtifact;

verus! {

pub const ENTRY_CACHE_CONTROL: &'static str = "public, max-age=60";
pub const RESOURCE_CACHE_CONTROL: &'static str = "public, max-age=86400";
pub const ENTRY_RENDER_VERSION: &'static str = "entry-html-v3";
pub const RESOURCE_RENDER_VERSION: &'static str = "resource-v1";
pub const ENTRY_LINK_PREFIX: &'static str = "@@@LINK=";
pub const MAX_ENTRY_REDIRECT_DEPTH: usize = 8;

/// The target of an alias record `@@@LINK=target` (surrounding whitespace
/// and NULs ignored), or `None` for an ordinary record.
pub open spec fn link_target(text: Seq<char>) -> Option<Seq<char>> {
    let t = trim_spec(text, CharClass::WhitespaceOrNul);
    if ENTRY_LINK_PREFIX@.is_prefix_of(t) {
        let target = trim_spec(t.skip(ENTRY_LINK_PREFIX@.len() as int), CharClass::Whitespace);
        if target.len() > 0 {
            Some(target)
        } else {
            None
        }
    } else {
        None
    }
}

pub fn entry_link_target(text: &str) -> (r: Option<String>)
    ensures
        crate::trusted::opt_string_view(r) == link_target(text@),
{
    let t = trim_str(text, CharClass::WhitespaceOrNul);
    let prefix = chars_of(ENTRY_LINK_PREFIX);
    if !starts_with(&t, &prefix) {
        return None;
    }
    let mut rest: Vec<char> = Vec::new();
    let mut k = prefix.len();
    while k < t.len()
        invariant
            prefix@.len() <= k <= t@.len(),
            rest@ == t@.subrange(prefix@.len() as int, k as int),
        decreases t@.len() - k,
    {
        rest.push(t[k]);
        k += 1;
    }
    assert(rest@ == t@.skip(prefix@.len() as int));
    let target = trim_chars(&rest, CharClass::Whitespace);
    if target.len() > 0 {
        Some(string_of(&target))
    } else {
        None
    }
}

pub open spec fn replace_char(s: Seq<char>, from: char, to: char) -> Seq<char> {
    s.map_values(|c: char| if c == from { to } else { c })
}

fn replace_chars(v: &[char], from: char, to: char) -> (r: Vec<char>)
    ensures
        r@ == replace_char(v@, from, to),
{
    let mut r: Vec<char> = Vec::new();
    let mut i: usize = 0;
    while i < v.len()
        invariant
            i <= v@.len(),
            r@ == replace_char(v@.take(i as int), from, to),
        decreases v@.len() - i,
    {
        r.push(if v[i] == from { to } else { v[i] });
        assert(replace_char(v@.take(i + 1), from, to) == replace_char(v@.take(i as int), from, to).push(if v@[i as int] == from { to } else { v@[i as int] }));
        i += 1;
    }
    assert(v@.take(v@.len() as int) == v@);
    r
}

/// A `sound://host/path` reference read as the resource key `host/path`.
pub open spec fn sound_lookup_base(raw: Seq<char>) -> Option<Seq<char>> {
    match parsed_url(raw) {
        Some(u) => if u.0 == "sound"@ && u.1 is Some {
            let host = u.1->0;
            let path = trim_start_spec(u.2, CharClass::Slash);
            Some(if path.len() == 0 { host } else { host + seq!['/'] + path })
        } else {
            None
        },
        None => None,
    }
}

pub fn special_resource_lookup_base(raw: &str) -> (r: Option<Vec<char>>)
    ensures
        match r {
            Some(v) => sound_lookup_base(raw@) == Some(v@),
            None => sound_lookup_base(raw@) is None,
        },
{
    let u = match parse_url(raw) {
        Some(u) => u,
        None => {
            return None;
        },
    };
    if u.scheme != "sound".to_owned() {
        return None;
    }
    let host = match &u.host {
        Some(h) => chars_of(h.as_str()),
        None => {
            return None;
        },
    };
    let path = chars_of(u.path.as_str());
    let start = trim_start_index(&path, CharClass::Slash);
    let mut out = host;
    if start < path.len() {
        out.push('/');
        let mut k = start;
        while k < path.len()
            invariant
                start <= k <= path@.len(),
                out@ == host@ + seq!['/'] + path@.subrange(start as int, k as int),
            decreases path@.len() - k,
        {
            out.push(path[k]);
            k += 1;
        }
        assert(path@.subrange(start as int, path@.len() as int) == path@.skip(start as int));
    }
    Some(out)
}

/// The spellings under which a resource key is looked up: the key itself,
/// without leading separators, with `/` and `\\` swapped either way, each
/// bare and behind a `\\` or `/`; and the same for a `sound://` reference
/// read as a plain key.
pub open spec fn key_variants(base: Seq<char>) -> Seq<Seq<char>> {
    let n = trim_start_spec(base, CharClass::PathSeparator);
    seq![base, n, replace_char(n, '/', '\\'), replace_char(n, '\\', '/')]
}

pub open spec fn prefixed_spellings(v: Seq<char>) -> Seq<Seq<char>> {
    if v.len() == 0 {
        seq![]
    } else {
        seq![v, seq!['\\'] + v, seq!['/'] + v]
    }
}

pub open spec fn spellings_of_all(vs: Seq<Seq<char>>) -> Seq<Seq<char>>
    decreases vs.len(),
{
    if vs.len() == 0 {
        seq![]
    } else {
        spellings_of_all(vs.drop_last()) + prefixed_spellings(vs.last())
    }
}

pub open spec fn lookup_bases(raw: Seq<char>) -> Seq<Seq<char>> {
    let t = trim_spec(trim_spec(raw, CharClass::Whitespace), CharClass::Nul);
    match sound_lookup_base(t) {
        Some(s) => seq![t, s],
        None => seq![t],
    }
}

pub open spec fn candidate_stream(bases: Seq<Seq<char>>) -> Seq<Seq<char>>
    decreases bases.len(),
{
    if bases.len() == 0 {
        seq![]
    } else {
        candidate_stream(bases.drop_last()) + spellings_of_all(key_variants(bases.last()))
    }
}

/// `s` without repetitions, keeping first occurrences in order.
pub open spec fn dedup_seq(s: Seq<Seq<char>>) -> Seq<Seq<char>>
    decreases s.len(),
{
    if s.len() == 0 {
        seq![]
    } else {
        let d = dedup_seq(s.drop_last());
        if d.contains(s.last()) {
            d
        } else {
            d.push(s.last())
        }
    }
}

pub open spec fn key_candidates(raw: Seq<char>) -> Seq<Seq<char>> {
    dedup_seq(candidate_stream(lookup_bases(raw)))
}

proof fn lemma_dedup_keeps(s: Seq<Seq<char>>, x: Seq<char>)
    requires
        s.contains(x),
    ensures
        dedup_seq(s).contains(x),
    decreases s.len(),
{
    let init = s.drop_last();
    if s.last() == x {
        if !dedup_seq(init).contains(x) {
            assert(dedup_seq(s).last() == x);
            assert(dedup_seq(s)[dedup_seq(s).len() - 1] == x);
        }
    } else {
        let k = choose|k: int| 0 <= k < s.len() && s[k] == x;
        assert(k < s.len() - 1);
        assert(init[k] == x);
        lemma_dedup_keeps(init, x);
        let d = dedup_seq(init);
        let j = choose|j: int| 0 <= j < d.len() && d[j] == x;
        if !d.contains(s.last()) {
            assert(d.push(s.last())[j] == x);
        }
    }
}

proof fn lemma_spellings_contain(vs: Seq<Seq<char>>, k: int, x: Seq<char>)
    requires
        0 <= k < vs.len(),
        prefixed_spellings(vs[k]).contains(x),
    ensures
        spellings_of_all(vs).contains(x),
    decreases vs.len(),
{
    let init = vs.drop_last();
    let a = spellings_of_all(init);
    let b = prefixed_spellings(vs.last());
    if k == vs.len() - 1 {
        let j = choose|j: int| 0 <= j < b.len() && b[j] == x;
        assert((a + b)[a.len() + j] == x);
    } else {
        assert(init[k] == vs[k]);
        lemma_spellings_contain(init, k, x);
        let j = choose|j: int| 0 <= j < a.len() && a[j] == x;
        assert((a + b)[j] == x);
    }
}

proof fn lemma_stream_keeps_first(bases: Seq<Seq<char>>, x: Seq<char>)
    requires
        bases.len() > 0,
        spellings_of_all(key_variants(bases[0])).contains(x),
    ensures
        candidate_stream(bases).contains(x),
    decreases bases.len(),
{
    let init = bases.drop_last();
    let a = candidate_stream(init);
    let b = spellings_of_all(key_variants(bases.last()));
    if bases.len() == 1 {
        assert(a =~= Seq::<Seq<char>>::empty());
        assert(bases.last() == bases[0]);
        assert(a + b =~= b);
    } else {
        assert(init[0] == bases[0]);
        lemma_stream_keeps_first(init, x);
        let j = choose|j: int| 0 <= j < a.len() && a[j] == x;
        assert((a + b)[j] == x);
    }
}

/// A key is tried with its separators swapped both ways: for the key
/// trimmed of whitespace and NULs and stripped of leading separators, the
/// spelling with every `\` written as `/`, and the one with every `/`
/// written as `\`, are each tried bare and behind `\` and `/`.
pub proof fn law_candidates_try_both_separators(raw: Seq<char>, u: Seq<char>)
    requires
        ({
            let n = trim_start_spec(trim_spec(trim_spec(raw, CharClass::Whitespace), CharClass::Nul), CharClass::PathSeparator);
            &&& n.len() > 0
            &&& u.len() == n.len()
            &&& (forall|k: int| 0 <= k < n.len() ==> #[trigger] u[k] == (if n[k] == '\\' { '/' } else { n[k] }))
                || (forall|k: int| 0 <= k < n.len() ==> #[trigger] u[k] == (if n[k] == '/' { '\\' } else { n[k] }))
        }),
    ensures
        key_candidates(raw).contains(u),
        key_candidates(raw).contains(seq!['\\'] + u),
        key_candidates(raw).contains(seq!['/'] + u),
{
    let t = trim_spec(trim_spec(raw, CharClass::Whitespace), CharClass::Nul);
    let n = trim_start_spec(t, CharClass::PathSeparator);
    let bases = lookup_bases(raw);
    assert(bases[0] == t);
    let vs = key_variants(t);
    let k: int = if forall|k: int| 0 <= k < n.len() ==> #[trigger] u[k] == (if n[k] == '\\' { '/' } else { n[k] }) {
        assert(u =~= replace_char(n, '\\', '/'));
        3
    } else {
        assert(u =~= replace_char(n, '/', '\\'));
        2
    };
    assert(vs[k] == u);
    let ps = prefixed_spellings(u);
    assert(ps[0] == u && ps[1] == seq!['\\'] + u && ps[2] == seq!['/'] + u);
    let cs = candidate_stream(bases);
    lemma_spellings_contain(vs, k, u);
    lemma_spellings_contain(vs, k, seq!['\\'] + u);
    lemma_spellings_contain(vs, k, seq!['/'] + u);
    lemma_stream_keeps_first(bases, u);
    lemma_stream_keeps_first(bases, seq!['\\'] + u);
    lemma_stream_keeps_first(bases, seq!['/'] + u);
    lemma_dedup_keeps(cs, u);
    lemma_dedup_keeps(cs, seq!['\\'] + u);
    lemma_dedup_keeps(cs, seq!['/'] + u);
}

fn push_spellings(out: &mut Vec<Vec<char>>, v: &Vec<char>)
    ensures
        final(out)@.map_values(|p: Vec<char>| p@) == old(out)@.map_values(|p: Vec<char>| p@) + prefixed_spellings(v@),
{
    if v.len() == 0 {
        assert(old(out)@.map_values(|p: Vec<char>| p@) + prefixed_spellings(v@) =~= old(out)@.map_values(|p: Vec<char>| p@));
        return;
    }
    out.push(v.clone());
    let mut a: Vec<char> = Vec::new();
    a.push('\\');
    push_all(&mut a, v);
    out.push(a);
    let mut b: Vec<char> = Vec::new();
    b.push('/');
    push_all(&mut b, v);
    out.push(b);
    assert(final(out)@.map_values(|p: Vec<char>| p@) =~= old(out)@.map_values(|p: Vec<char>| p@) + prefixed_spellings(v@));
}

fn push_variants(out: &mut Vec<Vec<char>>, base: &Vec<char>)
    ensures
        final(out)@.map_values(|p: Vec<char>| p@) == old(out)@.map_values(|p: Vec<char>| p@) + spellings_of_all(key_variants(base@)),
{
    let start = trim_start_index(base, CharClass::PathSeparator);
    let mut n: Vec<char> = Vec::new();
    let mut k = start;
    while k < base.len()
        invariant
            start <= k <= base@.len(),
            n@ == base@.subrange(start as int, k as int),
        decreases base@.len() - k,
    {
        n.push(base[k]);
        k += 1;
    }
    assert(n@ == base@.skip(start as int));
    let r1 = replace_chars(&n, '/', '\\');
    let r2 = replace_chars(&n, '\\', '/');
    let ghost vs = key_variants(base@);
    let ghost o = old(out)@.map_values(|p: Vec<char>| p@);
    push_spellings(out, base);
    push_spellings(out, &n);
    push_spellings(out, &r1);
    push_spellings(out, &r2);
    proof {
        let e = Seq::<Seq<char>>::empty();
        let s1 = seq![base@];
        let s2 = seq![base@, n@];
        let s3 = seq![base@, n@, r1@];
        assert(s1.drop_last() =~= e);
        assert(s2.drop_last() =~= s1);
        assert(s3.drop_last() =~= s2);
        assert(vs.drop_last() =~= s3);
        assert(spellings_of_all(e) =~= e);
        assert(spellings_of_all(s1) =~= prefixed_spellings(base@));
        assert(spellings_of_all(s2) =~= prefixed_spellings(base@) + prefixed_spellings(n@));
        assert(spellings_of_all(s3) =~= prefixed_spellings(base@) + prefixed_spellings(n@) + prefixed_spellings(r1@));
        assert(spellings_of_all(vs) =~= prefixed_spellings(base@) + prefixed_spellings(n@) + prefixed_spellings(r1@) + prefixed_spellings(r2@));
        assert(final(out)@.map_values(|p: Vec<char>| p@) =~= o + spellings_of_all(vs));
    }
}

/// The distinct spellings of a resource key, in the order they are tried.
pub fn resource_key_candidates(raw: &str) -> (r: Vec<String>)
    ensures
        strings_view(r@) == key_candidates(raw@),
        strings_view(r@).no_duplicates(),
{
    let t0 = trim_str(raw, CharClass::Whitespace);
    let t = trim_chars(&t0, CharClass::Nul);
    let ts = string_of(&t);
    let special = special_resource_lookup_base(ts.as_str());
    let mut stream: Vec<Vec<char>> = Vec::new();
    let ghost bases = lookup_bases(raw@);
    push_variants(&mut stream, &t);
    proof {
        let e = Seq::<Seq<char>>::empty();
        assert(seq![bases[0]].drop_last() =~= e);
        assert(candidate_stream(e) =~= e);
        assert(candidate_stream(seq![bases[0]]) =~= spellings_of_all(key_variants(bases[0])));
    }
    match special {
        Some(s) => {
            push_variants(&mut stream, &s);
            proof {
                assert(bases.drop_last() =~= seq![bases[0]]);
            }
        },
        None => {
            proof {
                assert(bases =~= seq![bases[0]]);
            }
        },
    }
    let ghost sv = stream@.map_values(|p: Vec<char>| p@);
    assert(sv == candidate_stream(bases));
    let mut out: Vec<String> = Vec::new();
    let mut i: usize = 0;
    while i < stream.len()
        invariant
            i <= stream@.len(),
            sv == stream@.map_values(|p: Vec<char>| p@),
            strings_view(out@) == dedup_seq(sv.take(i as int)),
            strings_view(out@).no_duplicates(),
        decreases stream@.len() - i,
    {
        proof {
            assert(sv.take(i + 1).drop_last() == sv.take(i as int));
            assert(sv.take(i + 1).last() == stream@[i as int]@);
        }
        let mut seen = false;
        let mut k: usize = 0;
        while k < out.len()
            invariant
                k <= out@.len(),
                i < stream@.len(),
                !seen ==> forall|j: int| 0 <= j < k ==> out@[j]@ != stream@[i as int]@,
                seen ==> exists|j: int| 0 <= j < out@.len() && out@[j]@ == stream@[i as int]@,
            decreases out@.len() - k,
        {
            let c = chars_of(out[k].as_str());
            if crate::text::compare_chars(&c, &stream[i]) == 0 {
                seen = true;
            }
            k += 1;
        }
        proof {
            let ov = strings_view(out@);
            if seen {
                let j = choose|j: int| 0 <= j < out@.len() && out@[j]@ == stream@[i as int]@;
                assert(ov[j] == stream@[i as int]@);
                assert(ov.contains(stream@[i as int]@));
            } else {
                assert(!ov.contains(stream@[i as int]@));
            }
        }
        if !seen {
            out.push(string_of(&stream[i]));
            proof {
                assert(strings_view(out@) =~= dedup_seq(sv.take(i as int)).push(stream@[i as int]@));
            }
        }
        i += 1;
    }
    assert(sv.take(stream@.len() as int) == sv);
    out
}

/// Entity tag of a string: its BLAKE3 digest in quotes.
pub open spec fn strong_etag_spec(input: Seq<char>) -> Seq<char> {
    "\""@ + blake3_hex(input) + "\""@
}

pub fn strong_etag(input: &str) -> (r: String)
    ensures
        r@ == strong_etag_spec(input@),
        r@.len() == 66,
        r@[0] == '"' && r@[65] == '"',
        forall|i: int| 1 <= i < 65 ==> is_lower_hex_digit(#[trigger] r@[i]),
{
    let mut out: Vec<char> = Vec::new();
    push_str(&mut out, "\"");
    let hex = blake3_hex_digest(input);
    push_str(&mut out, hex.as_str());
    push_str(&mut out, "\"");
    proof {
        reveal_strlit("\"");
        assert(out@ == "\""@ + hex@ + "\""@);
        assert forall|i: int| 1 <= i < 65 implies is_lower_hex_digit(#[trigger] out@[i]) by {
            assert(out@[i] == hex@[i - 1]);
        }
    }
    string_of(&out)
}

pub open spec fn tagged(kind: Seq<char>, dictionary_id: Seq<char>, version_tag: Seq<char>, key: Seq<char>, render_version: Seq<char>) -> Seq<char> {
    kind + dictionary_id + ":"@ + version_tag + ":"@ + key + ":"@ + render_version
}

fn tag_string(kind: &str, dictionary_id: &str, version_tag: &str, key: &str, render_version: &str) -> (r: String)
    ensures
        r@ == tagged(kind@, dictionary_id@, version_tag@, key@, render_version@),
{
    let mut out: Vec<char> = Vec::new();
    push_str(&mut out, kind);
    push_str(&mut out, dictionary_id);
    push_str(&mut out, ":");
    push_str(&mut out, version_tag);
    push_str(&mut out, ":");
    push_str(&mut out, key);
    push_str(&mut out, ":");
    push_str(&mut out, render_version);
    string_of(&out)
}

/// Entity tag of an entry: its dictionary and key in readable form, then the
/// BLAKE3 digest of the full tag text, all in quotes.
pub open spec fn entry_etag_spec(dictionary_id: Seq<char>, version_tag: Seq<char>, key: Seq<char>, render_version: Seq<char>) -> Seq<char> {
    "\"entry:"@ + dictionary_id + ":"@ + key + ":"@
        + blake3_hex(tagged("entry:"@, dictionary_id, version_tag, key, render_version)) + "\""@
}

pub open spec fn resource_etag_spec(dictionary_id: Seq<char>, version_tag: Seq<char>, key: Seq<char>, render_version: Seq<char>) -> Seq<char> {
    strong_etag_spec(tagged("resource:"@, dictionary_id, version_tag, key, render_version))
}

pub fn entry_etag(dictionary_id: &str, version_tag: &str, key: &str, render_version: &str) -> (r: String)
    ensures
        r@ == entry_etag_spec(dictionary_id@, version_tag@, key@, render_version@),
        r@.len() == 74 + dictionary_id@.len() + key@.len(),
        r@.last() == '"',
        forall|i: int| r@.len() - 65 <= i < r@.len() - 1 ==> is_lower_hex_digit(#[trigger] r@[i]),
{
    let t = tag_string("entry:", dictionary_id, version_tag, key, render_version);
    let mut out: Vec<char> = Vec::new();
    push_str(&mut out, "\"entry:");
    push_str(&mut out, dictionary_id);
    push_str(&mut out, ":");
    push_str(&mut out, key);
    push_str(&mut out, ":");
    let hex = blake3_hex_digest(t.as_str());
    push_str(&mut out, hex.as_str());
    push_str(&mut out, "\"");
    proof {
        reveal_strlit("\"entry:");
        reveal_strlit(":");
        reveal_strlit("\"");
        let head = "\"entry:"@ + dictionary_id@ + ":"@ + key@ + ":"@;
        assert(out@ == head + hex@ + "\""@);
        assert forall|i: int| out@.len() - 65 <= i < out@.len() - 1 implies is_lower_hex_digit(#[trigger] out@[i]) by {
            assert(out@[i] == hex@[i - head.len()]);
        }
    }
    string_of(&out)
}

/// Different version tags give different hash inputs to a resource's (or
/// an entry's) tag, all else equal: a reload that changed the files changes
/// what is hashed.
pub proof fn law_version_tag_changes_hash_input(kind: Seq<char>, dictionary_id: Seq<char>, v1: Seq<char>, v2: Seq<char>, key: Seq<char>, render_version: Seq<char>)
    requires
        v1 != v2,
    ensures
        tagged(kind, dictionary_id, v1, key, render_version) != tagged(kind, dictionary_id, v2, key, render_version),
{
    let p = kind + dictionary_id + ":"@;
    let s = ":"@ + key + ":"@ + render_version;
    let a = tagged(kind, dictionary_id, v1, key, render_version);
    let b = tagged(kind, dictionary_id, v2, key, render_version);
    assert(a =~= p + v1 + s);
    assert(b =~= p + v2 + s);
    if v1.len() == v2.len() {
        assert(exists|k: int| 0 <= k < v1.len() && v1[k] != v2[k]) by {
            if forall|k: int| 0 <= k < v1.len() ==> v1[k] == v2[k] {
                assert(v1 =~= v2);
            }
        }
        let k = choose|k: int| 0 <= k < v1.len() && v1[k] != v2[k];
        assert(a[p.len() + k] == v1[k]);
        assert(b[p.len() + k] == v2[k]);
    } else {
        assert(a.len() != b.len());
    }
}
pub fn resource_etag(dictionary_id: &str, version_tag: &str, key: &str, render_version: &str) -> (r: String)
    ensures
        r@ == resource_etag_spec(dictionary_id@, version_tag@, key@, render_version@),
        r@.len() == 66,
        r@[0] == '"' && r@[65] == '"',
        forall|i: int| 1 <= i < 65 ==> is_lower_hex_digit(#[trigger] r@[i]),
{
    let t = tag_string("resource:", dictionary_id, version_tag, key, render_version);
    strong_etag(t.as_str())
}

/// Size and modification time (milliseconds since the epoch) of a file.
#[derive(Debug, Clone, Copy, PartialEq, Eq)]
pub struct FileStamp {
    pub len: u64,
    pub modified_millis: u128,
}

pub open spec fn stamp_text(kind: Seq<char>, s: FileStamp) -> Seq<char> {
    kind + decimal(s.len as nat) + ":"@ + decimal(s.modified_millis as nat)
}

pub open spec fn mdd_stamps_text(stamps: Seq<FileStamp>) -> Seq<char>
    decreases stamps.len(),
{
    if stamps.len() == 0 {
        seq![]
    } else {
        mdd_stamps_text(stamps.drop_last()) + stamp_text(":mdd:"@, stamps.last())
    }
}

/// The version tag of a bundle: `mdx:len:mtime`, then `:mdd:len:mtime` per resource file.
pub open spec fn version_tag_spec(mdx: FileStamp, mdds: Seq<FileStamp>) -> Seq<char> {
    stamp_text("mdx:"@, mdx) + mdd_stamps_text(mdds)
}

fn push_stamp(out: &mut Vec<char>, kind: &str, s: FileStamp)
    ensures
        final(out)@ == old(out)@ + stamp_text(kind@, s),
{
    push_str(out, kind);
    let a = decimal_chars(s.len as u128);
    push_all(out, &a);
    push_str(out, ":");
    let b = decimal_chars(s.modified_millis);
    push_all(out, &b);
}

pub fn dictionary_version_tag(mdx: FileStamp, mdds: &Vec<FileStamp>) -> (r: String)
    ensures
        r@ == version_tag_spec(mdx, mdds@),
{
    let mut out: Vec<char> = Vec::new();
    push_stamp(&mut out, "mdx:", mdx);
    let ghost head = out@;
    let mut i: usize = 0;
    while i < mdds.len()
        invariant
            i <= mdds@.len(),
            out@ == head + mdd_stamps_text(mdds@.take(i as int)),
        decreases mdds@.len() - i,
    {
        assert(mdds@.take(i + 1).drop_last() == mdds@.take(i as int));
        push_stamp(&mut out, ":mdd:", mdds[i]);
        i += 1;
    }
    assert(mdds@.take(mdds@.len() as int) == mdds@);
    string_of(&out)
}

/// Whether a resource is read whole into memory rather than streamed:
/// stylesheets always (they are rewritten), others up to the size limit.
pub fn should_materialize_resource(content_type: &str, content_len: u64, cache_item_limit: usize) -> (b: bool)
    ensures
        b == (content_type@ == "text/css"@ || content_len <= cache_item_limit),
{
    content_type.to_owned() == "text/css".to_owned() || content_len <= cache_item_limit as u64
}

/// The cache key of an entry or resource: `dictionary_id:key`.
pub fn cache_key(dictionary_id: &str, key: &str) -> (r: String)
    ensures
        r@ == dictionary_id@ + ":"@ + key@,
{
    let mut out: Vec<char> = Vec::new();
    push_str(&mut out, dictionary_id);
    push_str(&mut out, ":");
    push_str(&mut out, key);
    string_of(&out)
}

/// A record found for a query: the key first matched, the alias it was
/// reached through (if any), and the final record.
#[derive(Debug, Clone, PartialEq, Eq)]
pub struct ResolvedMdxRecord {
    pub matched_key: String,
    pub redirected_from: Option<String>,
    pub key: String,
    pub text: String,
}

/// Where a redirect chain stands: how many hops were taken, what to look up
/// next, the first key matched, the alias followed first, and the keys passed.
#[derive(Debug, Clone, PartialEq, Eq)]
pub struct RedirectState {
    pub depth: usize,
    pub current_query: String,
    pub matched_key: Option<String>,
    pub redirected_from: Option<String>,
    pub visited: Vec<String>,
}

pub enum RedirectStep {
    Follow(RedirectState),
    Finished(Result<ResolvedMdxRecord, ServiceError>),
}

pub open spec fn target_missing_message(target: Seq<char>, dictionary_id: Seq<char>, query: Seq<char>) -> Seq<char> {
    "entry redirect target `"@ + target + "` was not found in dictionary `"@ + dictionary_id + "` for query `"@ + query + "`"@
}

pub open spec fn chain_too_long_message(dictionary_id: Seq<char>, query: Seq<char>) -> Seq<char> {
    "entry redirect chain exceeded 8 hops in dictionary `"@ + dictionary_id + "` for query `"@ + query + "`"@
}

pub open spec fn redirect_loop_message(dictionary_id: Seq<char>, query: Seq<char>) -> Seq<char> {
    "entry redirect loop detected in dictionary `"@ + dictionary_id + "` for query `"@ + query + "`"@
}

fn three_part_message(a: &str, x: &str, b: &str, y: &str, c: &str) -> (r: String)
    ensures
        r@ == a@ + x@ + b@ + y@ + c@,
{
    let mut out: Vec<char> = Vec::new();
    push_str(&mut out, a);
    push_str(&mut out, x);
    push_str(&mut out, b);
    push_str(&mut out, y);
    push_str(&mut out, c);
    string_of(&out)
}

impl RedirectState {
    /// The state before the first lookup of `query_key`.
    pub fn start(query_key: &str) -> (s: Self)
        ensures
            s.depth == 0,
            s.current_query@ == query_key@,
            s.matched_key is None,
            s.redirected_from is None,
            s.visited@.len() == 0,
    {
        RedirectState {
            depth: 0,
            current_query: query_key.to_owned(),
            matched_key: None,
            redirected_from: None,
            visited: Vec::new(),
        }
    }

    /// What the chain keeps between lookups: the first matched key and the
    /// first alias are set exactly once a hop was taken, and are the same key.
    pub open spec fn well_formed(&self) -> bool {
        &&& self.depth <= MAX_ENTRY_REDIRECT_DEPTH
        &&& self.visited@.len() == self.depth
        &&& (self.depth == 0 <==> self.redirected_from is None)
        &&& (self.depth == 0 <==> self.matched_key is None)
        &&& self.depth > 0 ==> self.matched_key->0@ == self.redirected_from->0@
    }
}

/// One step of redirect resolution, given what the lookup of
/// `state.current_query` found (a record's key and text, or nothing).
pub fn redirect_step(
    dictionary_id: &str,
    query_key: &str,
    state: RedirectState,
    found: Option<(String, String)>,
) -> (r: RedirectStep)
    ensures
        match found {
            None => r matches RedirectStep::Finished(Err(e)) && if state.redirected_from is Some {
                e.is(STATUS_INTERNAL_SERVER_ERROR, ErrorCode::InternalError, target_missing_message(state.current_query@, dictionary_id@, query_key@))
            } else {
                e.is(STATUS_NOT_FOUND, ErrorCode::EntryNotFound, entry_not_found_message(dictionary_id@, state.current_query@))
            },
            Some((key, text)) => {
                let matched = match state.matched_key { Some(m) => m@, None => key@ };
                match link_target(text@) {
                    None => r matches RedirectStep::Finished(Ok(rec))
                        && rec.matched_key@ == matched
                        && crate::trusted::opt_string_view(rec.redirected_from) == crate::trusted::opt_string_view(state.redirected_from)
                        && rec.key == key && rec.text == text,
                    Some(target) => if state.depth >= MAX_ENTRY_REDIRECT_DEPTH {
                        r matches RedirectStep::Finished(Err(e)) && e.is(STATUS_INTERNAL_SERVER_ERROR, ErrorCode::InternalError, chain_too_long_message(dictionary_id@, query_key@))
                    } else if strings_view(state.visited@).contains(key@) {
                        r matches RedirectStep::Finished(Err(e)) && e.is(STATUS_INTERNAL_SERVER_ERROR, ErrorCode::InternalError, redirect_loop_message(dictionary_id@, query_key@))
                    } else {
                        r matches RedirectStep::Follow(next)
                            && next.depth == state.depth + 1
                            && next.current_query@ == target
                            && crate::trusted::opt_string_view(next.matched_key) == Some(matched)
                            && crate::trusted::opt_string_view(next.redirected_from) == Some(match state.redirected_from { Some(f) => f@, None => key@ })
                            && strings_view(next.visited@) == strings_view(state.visited@).push(key@)
                    },
                }
            },
        },
{
    let (key, text) = match found {
        None => {
            let e = match &state.redirected_from {
                Some(_) => {
                    let mut m: Vec<char> = Vec::new();
                    push_str(&mut m, "entry redirect target `");
                    push_str(&mut m, state.current_query.as_str());
                    push_str(&mut m, "` was not found in dictionary `");
                    push_str(&mut m, dictionary_id);
                    push_str(&mut m, "` for query `");
                    push_str(&mut m, query_key);
                    push_str(&mut m, "`");
                    ServiceError::internal(string_of(&m))
                },
                None => ServiceError::entry_not_found(dictionary_id, state.current_query.as_str()),
            };
            return RedirectStep::Finished(Err(e));
        },
        Some(f) => f,
    };
    let matched = match state.matched_key {
        Some(m) => m,
        None => key.clone(),
    };
    match entry_link_target(text.as_str()) {
        None => {
            return RedirectStep::Finished(Ok(ResolvedMdxRecord {
                matched_key: matched,
                redirected_from: state.redirected_from,
                key,
                text,
            }));
        },
        Some(target) => {
            if state.depth >= MAX_ENTRY_REDIRECT_DEPTH {
                let m = three_part_message(
                    "entry redirect chain exceeded 8 hops in dictionary `",
                    dictionary_id,
                    "` for query `",
                    query_key,
                    "`",
                );
                return RedirectStep::Finished(Err(ServiceError::internal(m)));
            }
            let kc = chars_of(key.as_str());
            let mut i: usize = 0;
            #[verifier::loop_isolation(false)]
            while i < state.visited.len()
                invariant
                    i <= state.visited@.len(),
                    kc@ == key@,
                    forall|j: int| 0 <= j < i ==> state.visited@[j]@ != key@,
                decreases state.visited@.len() - i,
            {
                let v = chars_of(state.visited[i].as_str());
                if crate::text::compare_chars(&v, &kc) == 0 {
                    assert(strings_view(state.visited@)[i as int] == key@);
                    let m = three_part_message(
                        "entry redirect loop detected in dictionary `",
                        dictionary_id,
                        "` for query `",
                        query_key,
                        "`",
                    );
                    return RedirectStep::Finished(Err(ServiceError::internal(m)));
                }
                i += 1;
            }
            let redirected = match state.redirected_from {
                Some(f) => f,
                None => key.clone(),
            };
            let mut visited = state.visited;
            visited.push(key);
            assert(strings_view(visited@) =~= strings_view(state.visited@).push(key@));
            RedirectStep::Follow(RedirectState {
                depth: state.depth + 1,
                current_query: target,
                matched_key: Some(matched),
                redirected_from: Some(redirected),
                visited,
            })
        },
    }
}

/// What redirect resolution ends in from the chain position (`depth` hops
/// taken, `current` to look up next, the first key matched, the first alias
/// followed, the keys passed) when the lookups answer `answers` in turn (a
/// record's key and text, or nothing): the final record as (first matched
/// key, alias followed, key, text), or an error as (status, code, message);
/// `None` when the answers run out first.
pub open spec fn redirect_from(
    dictionary_id: Seq<char>,
    query: Seq<char>,
    depth: int,
    current: Seq<char>,
    matched: Option<Seq<char>>,
    redirected: Option<Seq<char>>,
    visited: Seq<Seq<char>>,
    answers: Seq<Option<(Seq<char>, Seq<char>)>>,
) -> Option<Result<(Seq<char>, Option<Seq<char>>, Seq<char>, Seq<char>), (u16, ErrorCode, Seq<char>)>>
    decreases answers.len(),
{
    if answers.len() == 0 {
        None
    } else {
        match answers[0] {
            None => Some(Err(if redirected is Some {
                (STATUS_INTERNAL_SERVER_ERROR, ErrorCode::InternalError, target_missing_message(current, dictionary_id, query))
            } else {
                (STATUS_NOT_FOUND, ErrorCode::EntryNotFound, entry_not_found_message(dictionary_id, current))
            })),
            Some((key, text)) => {
                let m = match matched { Some(mm) => mm, None => key };
                match link_target(text) {
                    None => Some(Ok((m, redirected, key, text))),
                    Some(target) => if depth >= MAX_ENTRY_REDIRECT_DEPTH {
                        Some(Err((STATUS_INTERNAL_SERVER_ERROR, ErrorCode::InternalError, chain_too_long_message(dictionary_id, query))))
                    } else if visited.contains(key) {
                        Some(Err((STATUS_INTERNAL_SERVER_ERROR, ErrorCode::InternalError, redirect_loop_message(dictionary_id, query))))
                    } else {
                        redirect_from(
                            dictionary_id,
                            query,
                            depth + 1,
                            target,
                            Some(m),
                            Some(match redirected { Some(f) => f, None => key }),
                            visited.push(key),
                            answers.drop_first(),
                        )
                    },
                }
            },
        }
    }
}

/// What resolving `query` ends in when the lookups answer `answers` in turn.
pub open spec fn redirect_outcome(dictionary_id: Seq<char>, query: Seq<char>, answers: Seq<Option<(Seq<char>, Seq<char>)>>)
    -> Option<Result<(Seq<char>, Option<Seq<char>>, Seq<char>, Seq<char>), (u16, ErrorCode, Seq<char>)>>
{
    redirect_from(dictionary_id, query, 0, query, None, None, seq![], answers)
}

pub open spec fn answer_view(found: Option<(String, String)>) -> Option<(Seq<char>, Seq<char>)> {
    match found {
        Some((k, t)) => Some((k@, t@)),
        None => None,
    }
}

/// `asked` are the keys a redirect walk looked up, one for each of
/// `answers` (and one more when the lookup after them failed): `query`
/// first, then the target that each alias record answered names.
pub open spec fn walk_asks(query: Seq<char>, answers: Seq<Option<(Seq<char>, Seq<char>)>>, asked: Seq<Seq<char>>) -> bool {
    &&& answers.len() <= asked.len() <= answers.len() + 1
    &&& asked.len() > 0 ==> asked[0] == query
    &&& forall|i: int| 0 <= i < asked.len() - 1 ==> ((#[trigger] answers[i]) matches Some(a) && link_target(a.1) == Some(asked[i + 1]))
}

/// A completed walk for `query`: the lookups of `asked` answered `answers`,
/// at most `MAX_ENTRY_REDIRECT_DEPTH + 1` of them.
pub open spec fn walk_done(query: Seq<char>, answers: Seq<Option<(Seq<char>, Seq<char>)>>, asked: Seq<Seq<char>>) -> bool {
    &&& walk_asks(query, answers, asked)
    &&& asked.len() == answers.len()
    &&& answers.len() <= MAX_ENTRY_REDIRECT_DEPTH + 1
}

/// A walk for `query` cut short: the lookups of `asked` answered `answers`
/// without settling, and the lookup of the last key in `asked` failed.
pub open spec fn walk_failed(dictionary_id: Seq<char>, query: Seq<char>, answers: Seq<Option<(Seq<char>, Seq<char>)>>, asked: Seq<Seq<char>>) -> bool {
    &&& walk_asks(query, answers, asked)
    &&& asked.len() == answers.len() + 1
    &&& answers.len() <= MAX_ENTRY_REDIRECT_DEPTH
    &&& redirect_outcome(dictionary_id, query, answers) is None
}

/// A resolved record as (first matched key, alias followed, key, text).
pub open spec fn record_outcome(rec: ResolvedMdxRecord) -> (Seq<char>, Option<Seq<char>>, Seq<char>, Seq<char>) {
    (rec.matched_key@, crate::trusted::opt_string_view(rec.redirected_from), rec.key@, rec.text@)
}

/// Some completed walk for `query`, each lookup on the key being followed,
/// resolves to `o`.
pub open spec fn walk_resolves(dictionary_id: Seq<char>, query: Seq<char>, o: (Seq<char>, Option<Seq<char>>, Seq<char>, Seq<char>)) -> bool {
    exists|answers: Seq<Option<(Seq<char>, Seq<char>)>>, asked: Seq<Seq<char>>|
        #![trigger walk_done(query, answers, asked), redirect_outcome(dictionary_id, query, answers)]
        walk_done(query, answers, asked) && redirect_outcome(dictionary_id, query, answers)
            == Some(Ok::<(Seq<char>, Option<Seq<char>>, Seq<char>, Seq<char>), (u16, ErrorCode, Seq<char>)>(o))
}

/// `e` is how a walk for `query` fails: redirect resolution refused what a
/// completed walk answered (not found, or a dangling, looping or too long
/// alias chain), or a lookup in the walk could not read the file.
pub open spec fn walk_refuses(dictionary_id: Seq<char>, query: Seq<char>, e: ServiceError) -> bool {
    &&& e.code == ErrorCode::EntryNotFound || e.code == ErrorCode::DictionaryUnavailable || e.code == ErrorCode::InternalError
    &&& e.details@.len() == 0
    &&& {
        ||| exists|answers: Seq<Option<(Seq<char>, Seq<char>)>>, asked: Seq<Seq<char>>|
            #![trigger walk_done(query, answers, asked), redirect_outcome(dictionary_id, query, answers)]
            walk_done(query, answers, asked) && redirect_outcome(dictionary_id, query, answers)
            == Some(Err::<(Seq<char>, Option<Seq<char>>, Seq<char>, Seq<char>), (u16, ErrorCode, Seq<char>)>((e.status, e.code, e.message@)))
        ||| e.status == STATUS_SERVICE_UNAVAILABLE && e.code == ErrorCode::DictionaryUnavailable
            && exists|answers: Seq<Option<(Seq<char>, Seq<char>)>>, asked: Seq<Seq<char>>, reason: Seq<char>|
            #![trigger walk_failed(dictionary_id, query, answers, asked), dictionary_unavailable_message(dictionary_id, reason)]
            walk_failed(dictionary_id, query, answers, asked) && e.message@ == dictionary_unavailable_message(dictionary_id, reason)
    }
}

/// Looks up `query_key` and follows alias records (`@@@LINK=`) for at most
/// `MAX_ENTRY_REDIRECT_DEPTH` hops: each lookup asks for the key being
/// followed (the query, then each alias target), and the answer is what
/// redirect resolution gives for the records the dictionary file returned,
/// unless reading the file failed.
pub fn resolve_mdx_record(mdx: &mdict_rs::MdxFile, dictionary_id: &str, query_key: &str) -> (r: Result<ResolvedMdxRecord, ServiceError>)
    ensures
        r matches Ok(rec) ==> link_target(rec.text@) is None,
        r matches Ok(rec) ==> match rec.redirected_from {
            Some(f) => f@ == rec.matched_key@,
            None => rec.matched_key@ == rec.key@,
        },
        r matches Ok(rec) ==> walk_resolves(dictionary_id@, query_key@, record_outcome(rec)),
        r matches Err(e) ==> walk_refuses(dictionary_id@, query_key@, e),
{
    let mut state = RedirectState::start(query_key);
    let ghost mut answers: Seq<Option<(Seq<char>, Seq<char>)>> = Seq::empty();
    let ghost mut asked: Seq<Seq<char>> = Seq::empty();
    proof {
        assert forall|rest: Seq<Option<(Seq<char>, Seq<char>)>>|
            #[trigger] redirect_outcome(dictionary_id@, query_key@, answers + rest)
                == redirect_from(dictionary_id@, query_key@, state.depth as int, state.current_query@,
                    crate::trusted::opt_string_view(state.matched_key), crate::trusted::opt_string_view(state.redirected_from),
                    strings_view(state.visited@), rest) by {
            assert(answers + rest =~= rest);
            assert(strings_view(state.visited@) =~= Seq::<Seq<char>>::empty());
        }
    }
    loop
        invariant
            state.well_formed(),
            forall|rest: Seq<Option<(Seq<char>, Seq<char>)>>|
                #[trigger] redirect_outcome(dictionary_id@, query_key@, answers + rest)
                    == redirect_from(dictionary_id@, query_key@, state.depth as int, state.current_query@,
                        crate::trusted::opt_string_view(state.matched_key), crate::trusted::opt_string_view(state.redirected_from),
                        strings_view(state.visited@), rest),
            walk_asks(query_key@, answers, asked),
            asked.len() == answers.len(),
            answers.len() == state.depth,
            answers.len() == 0 ==> state.current_query@ == query_key@,
            answers.len() > 0 ==> (answers.last() matches Some(a) && link_target(a.1) == Some(state.current_query@)),
        decreases MAX_ENTRY_REDIRECT_DEPTH + 1 - state.depth,
    {
        let (asked_key, answer) = mdx_lookup(mdx, state.current_query.as_str());
        let ghost now_asked = asked.push(asked_key@);
        proof {
            assert forall|i: int| 0 <= i < now_asked.len() - 1 implies ((#[trigger] answers[i]) matches Some(a) && link_target(a.1) == Some(now_asked[i + 1])) by {
                if i < asked.len() - 1 {
                    assert(now_asked[i + 1] == asked[i + 1]);
                } else {
                    assert(answers[i] == answers.last());
                }
            }
            assert(now_asked.len() > 0 ==> now_asked[0] == query_key@);
        }
        let found = match answer {
            Ok(f) => f,
            Err(error) => {
                proof {
                    let none = Seq::<Option<(Seq<char>, Seq<char>)>>::empty();
                    assert(answers + none =~= answers);
                    assert(redirect_outcome(dictionary_id@, query_key@, answers + none) is None);
                    assert(walk_failed(dictionary_id@, query_key@, answers, now_asked));
                }
                return Err(ServiceError::dictionary_unavailable(dictionary_id, error.as_str()));
            },
        };
        let ghost before = state;
        let ghost f = found;
        let ghost fv = answer_view(found);
        proof {
            let one = seq![fv];
            assert(answers.push(fv) + Seq::<Option<(Seq<char>, Seq<char>)>>::empty() =~= answers + one);
            assert(one.drop_first() =~= Seq::<Option<(Seq<char>, Seq<char>)>>::empty());
            assert(one[0] == fv);
            let done = answers.push(fv);
            assert forall|i: int| 0 <= i < now_asked.len() - 1 implies ((#[trigger] done[i]) matches Some(a) && link_target(a.1) == Some(now_asked[i + 1])) by {
                assert(done[i] == answers[i]);
            }
            assert(walk_asks(query_key@, done, now_asked));
        }
        match redirect_step(dictionary_id, query_key, state, found) {
            RedirectStep::Finished(r) => {
                proof {
                    let done = answers.push(fv);
                    assert(done + Seq::<Option<(Seq<char>, Seq<char>)>>::empty() =~= done);
                    assert(redirect_outcome(dictionary_id@, query_key@, done) == redirect_outcome(dictionary_id@, query_key@, done + Seq::<Option<(Seq<char>, Seq<char>)>>::empty()));
                    assert(walk_done(query_key@, done, now_asked));
                }
                return r;
            },
            RedirectStep::Follow(next) => {
                proof {
                    assert(f is Some);
                    assert(strings_view(next.visited@).len() == next.visited@.len());
                    assert(strings_view(before.visited@).len() == before.visited@.len());
                    assert(next.visited@.len() == before.visited@.len() + 1);
                    assert(next.matched_key is Some && next.redirected_from is Some);
                    if before.depth > 0 {
                        assert(before.matched_key->0@ == before.redirected_from->0@);
                    }
                    assert(next.matched_key->0@ == next.redirected_from->0@);
                    assert forall|rest: Seq<Option<(Seq<char>, Seq<char>)>>|
                        #[trigger] redirect_outcome(dictionary_id@, query_key@, answers.push(fv) + rest)
                            == redirect_from(dictionary_id@, query_key@, next.depth as int, next.current_query@,
                                crate::trusted::opt_string_view(next.matched_key), crate::trusted::opt_string_view(next.redirected_from),
                                strings_view(next.visited@), rest) by {
                        let one_rest = seq![fv] + rest;
                        assert(answers.push(fv) + rest =~= answers + one_rest);
                        assert(one_rest[0] == fv);
                        assert(one_rest.drop_first() =~= rest);
                        assert(redirect_outcome(dictionary_id@, query_key@, answers + one_rest)
                            == redirect_from(dictionary_id@, query_key@, before.depth as int, before.current_query@,
                                crate::trusted::opt_string_view(before.matched_key), crate::trusted::opt_string_view(before.redirected_from),
                                strings_view(before.visited@), one_rest));
                    }
                    answers = answers.push(fv);
                    asked = now_asked;
                    assert(answers.last() == fv);
                }
                state = next;
            },
        }
    }
}

/// The match kind of a lookup: exact when the first matched key is the query itself.
pub fn lookup_match_type(matched_key: &str, query_key: &str) -> (m: LookupMatchType)
    ensures
        (m == LookupMatchType::Exact) == (matched_key@ == query_key@),
{
    if matched_key.to_owned() == query_key.to_owned() {
        LookupMatchType::Exact
    } else {
        LookupMatchType::Normalized
    }
}

/// The answers of a resource search as plain values: a found span, nothing,
/// or the message of a failed read.
pub open spec fn span_answers_view(answers: Seq<Result<Option<ResourceSpan>, String>>) -> Seq<Result<Option<ResourceSpan>, Seq<char>>> {
    answers.map_values(|a: Result<Option<ResourceSpan>, String>| match a {
        Ok(o) => Ok(o),
        Err(e) => Err(e@),
    })
}

/// Every answer found nothing.
pub open spec fn all_missed(answers: Seq<Result<Option<ResourceSpan>, Seq<char>>>) -> bool {
    forall|i: int| 0 <= i < answers.len() ==> #[trigger] answers[i] == Ok::<Option<ResourceSpan>, Seq<char>>(None)
}

/// `i` is the first answer that found something or failed.
pub open spec fn first_answer_at(answers: Seq<Result<Option<ResourceSpan>, Seq<char>>>, i: int) -> bool {
    &&& 0 <= i < answers.len()
    &&& answers[i] != Ok::<Option<ResourceSpan>, Seq<char>>(None)
    &&& forall|j: int| 0 <= j < i ==> #[trigger] answers[j] == Ok::<Option<ResourceSpan>, Seq<char>>(None)
}

/// What a resource search answers, given the archive answers in the order
/// asked (each file in turn, every candidate spelling for each file, so the
/// answer at `i` comes from file `i / candidate_count`): the first span found,
/// with its file; the failure of the first read that failed; not found when
/// every answer missed.
pub open spec fn resource_search_answer(
    answers: Seq<Result<Option<ResourceSpan>, Seq<char>>>,
    candidate_count: int,
    dictionary_id: Seq<char>,
    query_key: Seq<char>,
    r: Result<(usize, ResourceSpan), ServiceError>,
) -> bool {
    &&& all_missed(answers) ==> (r matches Err(e) && e.is(STATUS_NOT_FOUND, ErrorCode::ResourceNotFound, resource_not_found_message(dictionary_id, query_key)))
    &&& forall|i: int| #[trigger] first_answer_at(answers, i) ==> match answers[i] {
        Ok(Some(span)) => r matches Ok((m, found)) && m as int == i / candidate_count && found.key@ == span.key@
            && found.record_start == span.record_start && found.record_end == span.record_end,
        Ok(None) => false,
        Err(d) => r matches Err(e) && e.is(STATUS_SERVICE_UNAVAILABLE, ErrorCode::DictionaryUnavailable, dictionary_unavailable_message(dictionary_id, d)),
    }
}

/// Settles a resource search from the archive answers gathered so far.
pub fn first_resource_answer(answers: &Vec<Result<Option<ResourceSpan>, String>>, candidate_count: usize, dictionary_id: &str, query_key: &str) -> (r: Result<(usize, ResourceSpan), ServiceError>)
    requires
        answers@.len() > 0 ==> candidate_count > 0,
    ensures
        resource_search_answer(span_answers_view(answers@), candidate_count as int, dictionary_id@, query_key@, r),
{
    let ghost av = span_answers_view(answers@);
    let mut i: usize = 0;
    while i < answers.len()
        invariant
            i <= answers@.len(),
            av == span_answers_view(answers@),
            answers@.len() > 0 ==> candidate_count > 0,
            forall|j: int| 0 <= j < i ==> #[trigger] av[j] == Ok::<Option<ResourceSpan>, Seq<char>>(None),
        decreases answers@.len() - i,
    {
        assert(av[i as int] == match answers@[i as int] {
            Ok(o) => Ok::<Option<ResourceSpan>, Seq<char>>(o),
            Err(e) => Err(e@),
        });
        match &answers[i] {
            Ok(None) => {},
            Ok(Some(span)) => {
                proof {
                    assert(first_answer_at(av, i as int));
                    assert forall|k: int| #[trigger] first_answer_at(av, k) implies k == i by {
                        if k < i {
                            assert(av[k] == Ok::<Option<ResourceSpan>, Seq<char>>(None));
                        }
                        if k > i {
                            assert(av[i as int] == Ok::<Option<ResourceSpan>, Seq<char>>(None));
                        }
                    }
                }
                let found = ResourceSpan { key: span.key.clone(), record_start: span.record_start, record_end: span.record_end };
                return Ok((i / candidate_count, found));
            },
            Err(e) => {
                proof {
                    assert(first_answer_at(av, i as int));
                    assert forall|k: int| #[trigger] first_answer_at(av, k) implies k == i by {
                        if k < i {
                            assert(av[k] == Ok::<Option<ResourceSpan>, Seq<char>>(None));
                        }
                        if k > i {
                            assert(av[i as int] == Ok::<Option<ResourceSpan>, Seq<char>>(None));
                        }
                    }
                }
                return Err(ServiceError::dictionary_unavailable(dictionary_id, e.as_str()));
            },
        }
        i += 1;
    }
    proof {
        assert forall|k: int| #[trigger] first_answer_at(av, k) implies false by {
            assert(av[k] == Ok::<Option<ResourceSpan>, Seq<char>>(None));
        }
    }
    Err(ServiceError::resource_not_found(dictionary_id, query_key))
}

/// The lookups of a resource search over `candidates`: the one at position
/// `i` asks file `i / c` for candidate `i % c` (`c` candidates), so each
/// file in turn is asked every candidate.
pub open spec fn search_asks(asked: Seq<(int, Seq<char>)>, candidates: Seq<Seq<char>>) -> bool {
    forall|i: int| 0 <= i < asked.len() ==> #[trigger] asked[i] == (i / (candidates.len() as int), candidates[i % (candidates.len() as int)])
}

/// `r` answers a search for `query_key` over `file_count` resource files:
/// the lookups asked the spellings of `key_candidates(query_key)` file by
/// file, got `answers`, and stopped at the first answer that was no miss
/// (or after every file was asked every spelling).
pub open spec fn resource_searched(file_count: int, dictionary_id: Seq<char>, query_key: Seq<char>, r: Result<(usize, ResourceSpan), ServiceError>) -> bool {
    exists|answers: Seq<Result<Option<ResourceSpan>, Seq<char>>>, asked: Seq<(int, Seq<char>)>| {
        &&& #[trigger] resource_search_answer(answers, key_candidates(query_key).len() as int, dictionary_id, query_key, r)
        &&& #[trigger] search_asks(asked, key_candidates(query_key))
        &&& asked.len() == answers.len()
        &&& answers.len() <= file_count * key_candidates(query_key).len()
        &&& all_missed(answers) ==> answers.len() == file_count * key_candidates(query_key).len()
    }
}

/// Finds a resource under its candidate spellings, in the resource files in
/// order; the first file that holds any spelling answers. Each file is asked
/// for every candidate of `key_candidates(query_key)` in turn, and the search
/// stops at the first answer that is not a miss; what the files answer
/// depends on their contents.
pub fn find_resource_span(mdds: &Vec<mdict_rs::MddFile>, dictionary_id: &str, query_key: &str) -> (r: Result<(usize, ResourceSpan), ServiceError>)
    ensures
        r matches Ok((m, _)) ==> m < mdds@.len(),
        resource_searched(mdds@.len() as int, dictionary_id@, query_key@, r),
        mdds@.len() == 0 ==> (r matches Err(e) && e.is(STATUS_NOT_FOUND, ErrorCode::ResourceNotFound, resource_not_found_message(dictionary_id@, query_key@))),
{
    let candidates = resource_key_candidates(query_key);
    let nc = candidates.len();
    let ghost total = mdds@.len() * nc;
    let ghost cands = key_candidates(query_key@);
    let ghost mut asked: Seq<(int, Seq<char>)> = Seq::empty();
    let mut answers: Vec<Result<Option<ResourceSpan>, String>> = Vec::new();
    let mut m: usize = 0;
    while m < mdds.len()
        invariant
            m <= mdds@.len(),
            nc == candidates@.len(),
            cands == strings_view(candidates@),
            cands == key_candidates(query_key@),
            total == mdds@.len() * nc,
            answers@.len() == m * nc,
            asked.len() == answers@.len(),
            search_asks(asked, cands),
            all_missed(span_answers_view(answers@)),
        decreases mdds@.len() - m,
    {
        let mut c: usize = 0;
        while c < nc
            invariant
                m < mdds@.len(),
                c <= nc,
                nc == candidates@.len(),
                cands == strings_view(candidates@),
                cands == key_candidates(query_key@),
                total == mdds@.len() * nc,
                answers@.len() == m * nc + c,
                asked.len() == answers@.len(),
                search_asks(asked, cands),
                all_missed(span_answers_view(answers@)),
            decreases nc - c,
        {
            let (file_asked, key_asked, answer) = mdd_lookup_span(mdds, m, candidates[c].as_str());
            let missed = match &answer {
                Ok(None) => true,
                _ => false,
            };
            let ghost before = answers@;
            answers.push(answer);
            proof {
                let i = m * nc + c;
                assert(i / (nc as int) == m && i % (nc as int) == c) by (nonlinear_arith)
                    requires i == m * nc + c, 0 <= c < nc, 0 <= m;
                assert(cands[c as int] == candidates@[c as int]@);
                let now = asked.push((file_asked as int, key_asked@));
                assert forall|j: int| 0 <= j < now.len() implies #[trigger] now[j] == (j / (cands.len() as int), cands[j % (cands.len() as int)]) by {
                    if j < asked.len() {
                        assert(now[j] == asked[j]);
                    }
                }
                asked = now;
                assert(answers@ == before.push(answers@.last()));
                assert(m * nc + c + 1 <= total) by (nonlinear_arith)
                    requires m < mdds@.len(), c < nc, total == mdds@.len() * nc;
                assert forall|j: int| 0 <= j < before.len() implies #[trigger] span_answers_view(answers@)[j] == span_answers_view(before)[j] by {
                    assert(answers@[j] == before[j]);
                }
            }
            if !missed {
                let r = first_resource_answer(&answers, nc, dictionary_id, query_key);
                proof {
                    let av = span_answers_view(answers@);
                    let last = m * nc + c;
                    assert(m as int == last / (nc as int)) by (nonlinear_arith)
                        requires c < nc, last == m * nc + c;
                    assert forall|j: int| 0 <= j < last implies #[trigger] av[j] == Ok::<Option<ResourceSpan>, Seq<char>>(None) by {
                        assert(av[j] == span_answers_view(before)[j]);
                    }
                    assert(av[last] == match answers@[last] {
                        Ok(o) => Ok::<Option<ResourceSpan>, Seq<char>>(o),
                        Err(e) => Err(e@),
                    });
                    assert(first_answer_at(av, last));
                    assert(!all_missed(av));
                    assert(resource_search_answer(av, nc as int, dictionary_id@, query_key@, r));
                    assert(search_asks(asked, cands));
                    assert(av.len() == answers@.len());
                    assert(av.len() <= mdds@.len() * key_candidates(query_key@).len());
                    assert(asked.len() == av.len());
                    assert(resource_search_answer(av, key_candidates(query_key@).len() as int, dictionary_id@, query_key@, r)
                        && search_asks(asked, key_candidates(query_key@)));
                }
                return r;
            }
            proof {
                let av = span_answers_view(answers@);
                assert forall|j: int| 0 <= j < av.len() implies #[trigger] av[j] == Ok::<Option<ResourceSpan>, Seq<char>>(None) by {
                    if j < before.len() {
                        assert(av[j] == span_answers_view(before)[j]);
                    }
                }
            }
            c += 1;
        }
        proof {
            assert((m + 1) * nc == m * nc + nc) by (nonlinear_arith);
        }
        m += 1;
    }
    proof {
        assert(nc == 0 ==> m * nc == 0) by (nonlinear_arith);
    }
    let r = first_resource_answer(&answers, nc, dictionary_id, query_key);
    proof {
        let av = span_answers_view(answers@);
        assert(resource_search_answer(av, nc as int, dictionary_id@, query_key@, r));
        assert(search_asks(asked, cands));
        assert(av.len() == answers@.len());
        assert(m == mdds@.len());
        assert(av.len() == mdds@.len() * key_candidates(query_key@).len());
        assert(asked.len() == av.len());
        assert(resource_search_answer(av, key_candidates(query_key@).len() as int, dictionary_id@, query_key@, r)
            && search_asks(asked, key_candidates(query_key@)));
    }
    r
}

/// Why a dictionary bundle could not be opened.
#[derive(Debug, Clone, PartialEq, Eq)]
pub enum EngineInitError {
    Mdict(String),
    Index(crate::index::IndexError),
    Io(String),
}

pub open spec fn engine_init_error_message(e: EngineInitError) -> Seq<char> {
    match e {
        EngineInitError::Mdict(d) => "mdict open error: "@ + d@,
        EngineInitError::Index(i) => "sidecar index error: "@ + crate::index::index_error_message(i),
        EngineInitError::Io(d) => "io error: "@ + d@,
    }
}

impl EngineInitError {
    pub fn message(&self) -> (s: String)
        ensures
            s@ == engine_init_error_message(*self),
    {
        let mut m: Vec<char> = Vec::new();
        match self {
            EngineInitError::Mdict(d) => {
                push_str(&mut m, "mdict open error: ");
                push_str(&mut m, d.as_str());
            },
            EngineInitError::Index(i) => {
                push_str(&mut m, "sidecar index error: ");
                let t = i.message();
                push_str(&mut m, t.as_str());
            },
            EngineInitError::Io(d) => {
                push_str(&mut m, "io error: ");
                push_str(&mut m, d.as_str());
            },
        }
        string_of(&m)
    }
}

/// An opened dictionary bundle: its manifest, the header fields the service
/// reports and the key rules the index follows, the MDX file, the resource
/// files in order, the suggestion index, and the bundle's version tag.
#[derive(Debug)]
pub struct LoadedDictionary {
    pub manifest: DictionaryBundleManifest,
    pub header: DictionaryHeaderInfo,
    pub key_case_sensitive: bool,
    pub strip_key: bool,
    pub entry_count: u64,
    pub mdx: mdict_rs::MdxFile,
    pub mdds: Vec<mdict_rs::MddFile>,
    pub index: DictionarySuggestIndex,
    pub version_tag: String,
}

/// The suggestions for keys found by the index, in order: each key is its own label.
pub fn suggestion_items(keys: Vec<String>) -> (r: Vec<SuggestionItem>)
    ensures
        r@.len() == keys@.len(),
        forall|i: int| 0 <= i < keys@.len() ==> {
            &&& (#[trigger] r@[i]).key@ == keys@[i]@
            &&& r@[i].label@ == keys@[i]@
            &&& r@[i].match_type == SuggestionMatchType::Prefix
        },
{
    let mut r: Vec<SuggestionItem> = Vec::new();
    let mut i: usize = 0;
    while i < keys.len()
        invariant
            i <= keys@.len(),
            r@.len() == i,
            forall|j: int| 0 <= j < i ==> {
                &&& (#[trigger] r@[j]).key@ == keys@[j]@
                &&& r@[j].label@ == keys@[j]@
                &&& r@[j].match_type == SuggestionMatchType::Prefix
            },
        decreases keys@.len() - i,
    {
        let key = keys[i].clone();
        let label = keys[i].clone();
        r.push(SuggestionItem { key, label, match_type: SuggestionMatchType::Prefix });
        i += 1;
    }
    r
}

/// `a` is the lookup answer for `query_key` when redirect resolution gave
/// `o` (first matched key, alias followed, final key, final text): it names
/// the final key and the alias, is exact when the first matched key is the
/// query itself, and carries the entry tag of the final key.
pub open spec fn artifact_answers(a: LookupArtifact, dictionary_id: Seq<char>, version_tag: Seq<char>, query_key: Seq<char>, o: (Seq<char>, Option<Seq<char>>, Seq<char>, Seq<char>)) -> bool {
    &&& a.resolved_key@ == o.2
    &&& crate::trusted::opt_string_view(a.redirected_from) == o.1
    &&& (a.match_type == LookupMatchType::Exact) == (o.0 == query_key)
    &&& a.etag@ == entry_etag_spec(dictionary_id, version_tag, o.2, ENTRY_RENDER_VERSION@)
    &&& link_target(o.3) is None
}

/// `c` is the entry page of the record stored under `key`, whose rewritten
/// HTML is `html`.
pub open spec fn rendered_answers(c: RenderedEntryContent, dictionary_id: Seq<char>, version_tag: Seq<char>, key: Seq<char>, html: Seq<char>) -> bool {
    &&& c.dictionary_id@ == dictionary_id
    &&& c.resolved_key@ == key
    &&& c.html@ == html
    &&& c.etag@ == entry_etag_spec(dictionary_id, version_tag, key, ENTRY_RENDER_VERSION@)
    &&& c.cache_control@ == ENTRY_CACHE_CONTROL@
}

/// The page rendered for the record a lookup resolved to names the same
/// final key (never the alias) and carries the same tag as the lookup answer.
pub proof fn law_rendered_entry_agrees_with_lookup(
    a: LookupArtifact,
    c: RenderedEntryContent,
    dictionary_id: Seq<char>,
    version_tag: Seq<char>,
    query_key: Seq<char>,
    o: (Seq<char>, Option<Seq<char>>, Seq<char>, Seq<char>),
    html: Seq<char>,
)
    requires
        artifact_answers(a, dictionary_id, version_tag, query_key, o),
        rendered_answers(c, dictionary_id, version_tag, o.2, html),
    ensures
        c.resolved_key@ == a.resolved_key@,
        c.etag@ == a.etag@,
        c.dictionary_id@ == dictionary_id,
{
}

/// The lookup answer for a resolved record: the final record's key, the
/// alias followed, exact when the first matched key is the query, and the
/// entry's entity tag.
pub fn lookup_artifact_of(dictionary_id: &str, version_tag: &str, has_resources: bool, query_key: &str, record: &ResolvedMdxRecord) -> (a: LookupArtifact)
    ensures
        a.resolved_key@ == record.key@,
        crate::trusted::opt_string_view(a.redirected_from) == crate::trusted::opt_string_view(record.redirected_from),
        (a.match_type == LookupMatchType::Exact) == (record.matched_key@ == query_key@),
        a.etag@ == entry_etag_spec(dictionary_id@, version_tag@, record.key@, ENTRY_RENDER_VERSION@),
        a.has_resources == has_resources,
{
    LookupArtifact {
        resolved_key: record.key.clone(),
        redirected_from: crate::service::clone_opt_string(&record.redirected_from),
        match_type: lookup_match_type(record.matched_key.as_str(), query_key),
        etag: entry_etag(dictionary_id, version_tag, record.key.as_str(), ENTRY_RENDER_VERSION),
        has_resources,
    }
}

/// The name under which a resource may be served from a stylesheet or
/// script file beside the MDX file: the key, trimmed and without leading
/// separators, when it is a bare file name ending in `.css` or `.js`.
pub open spec fn sidecar_name(key: Seq<char>) -> Option<Seq<char>> {
    let t = trim_spec(trim_spec(key, CharClass::Whitespace), CharClass::Nul);
    let name = trim_start_spec(t, CharClass::PathSeparator);
    let lower = crate::text::ascii_lower_seq(name);
    if name.len() > 0 && !name.contains('/') && !name.contains('\\') && (".css"@.is_suffix_of(lower) || ".js"@.is_suffix_of(lower)) {
        Some(name)
    } else {
        None
    }
}

/// The directory part of a path, up to and including its last `/`.
pub open spec fn parent_prefix(path: Seq<char>) -> Seq<char>
    decreases path.len(),
{
    if path.len() == 0 {
        seq![]
    } else if path.last() == '/' {
        path
    } else {
        parent_prefix(path.drop_last())
    }
}

fn parent_prefix_of(path: &[char]) -> (r: Vec<char>)
    ensures
        r@ == parent_prefix(path@),
{
    let mut j: usize = path.len();
    proof {
        assert(path@.take(j as int) =~= path@);
    }
    while j > 0 && path[j - 1] != '/'
        invariant
            j <= path@.len(),
            parent_prefix(path@) == parent_prefix(path@.take(j as int)),
        decreases j,
    {
        assert(path@.take(j as int).drop_last() =~= path@.take(j - 1));
        j -= 1;
    }
    let mut r: Vec<char> = Vec::new();
    let mut k: usize = 0;
    while k < j
        invariant
            k <= j <= path@.len(),
            r@ == path@.take(k as int),
        decreases j - k,
    {
        assert(path@.take(k + 1) =~= path@.take(k as int).push(path@[k as int]));
        r.push(path[k]);
        k += 1;
    }
    r
}

fn has_char(v: &[char], c: char) -> (b: bool)
    ensures
        b == v@.contains(c),
{
    let mut i: usize = 0;
    while i < v.len()
        invariant
            i <= v@.len(),
            forall|k: int| 0 <= k < i ==> v@[k] != c,
        decreases v@.len() - i,
    {
        if v[i] == c {
            return true;
        }
        i += 1;
    }
    false
}

/// The file beside the MDX file that serves `resource_key`, when the key
/// names a stylesheet or script: such a file, where it exists, is served in
/// place of the resource files' entry.
pub fn sidecar_resource(mdx_path: &str, resource_key: &str) -> (r: Option<(String, String)>)
    ensures
        match sidecar_name(resource_key@) {
            Some(name) => r matches Some((n, path)) && n@ == name && path@ == parent_prefix(mdx_path@) + name,
            None => r is None,
        },
{
    let t0 = trim_str(resource_key, CharClass::Whitespace);
    let t = trim_chars(&t0, CharClass::Nul);
    let i = trim_start_index(&t, CharClass::PathSeparator);
    let mut name: Vec<char> = Vec::new();
    let mut k = i;
    while k < t.len()
        invariant
            i <= k <= t@.len(),
            name@ == t@.subrange(i as int, k as int),
        decreases t@.len() - k,
    {
        name.push(t[k]);
        k += 1;
    }
    proof {
        assert(name@ =~= t@.skip(i as int));
    }
    let lower = crate::text::ascii_lowercase(&name);
    let css = chars_of(".css");
    let js = chars_of(".js");
    if name.len() > 0 && !has_char(&name, '/') && !has_char(&name, '\\')
        && (crate::text::ends_with(&lower, &css) || crate::text::ends_with(&lower, &js)) {
        let mdx_chars = chars_of(mdx_path);
        let mut path = parent_prefix_of(&mdx_chars);
        push_all(&mut path, &name);
        Some((string_of(&name), string_of(&path)))
    } else {
        None
    }
}

/// The MIME type a resource is served with, guessed from its key.
pub fn resource_content_type(key: &str) -> (r: String)
    ensures
        r@ == guessed_mime(key@),
{
    guess_mime(key)
}

/// The bytes served for a resource read whole: stylesheets (read as UTF-8,
/// invalid sequences replaced) with their `url(...)` references rewritten,
/// other resources unchanged.
pub fn resource_payload(dictionary_id: &str, content_type: &str, raw: Vec<u8>) -> (r: Vec<u8>)
    ensures
        content_type@ == "text/css"@ ==> r@ == vstd::utf8::encode_utf8(css_rewritten(dictionary_id@, utf8_lossy_chars(raw@))),
        content_type@ != "text/css"@ ==> r@ == raw@,
{
    if content_type.to_owned() == "text/css".to_owned() {
        let css = utf8_lossy(&raw);
        let rewritten = rewrite_css_urls(dictionary_id, css.as_str());
        utf8_bytes(rewritten)
    } else {
        raw
    }
}

/// Where a resource request is served from.
#[derive(Debug, Clone, PartialEq, Eq)]
pub enum ResourceSource {
    /// The stylesheet or script file beside the MDX file: its name and path.
    Sidecar(String, String),
    /// The dictionary's resource archives.
    Archive,
    /// Nowhere: the dictionary has neither.
    Missing,
}

/// A sidecar file that exists takes precedence over the archives; without
/// one the archives answer, and a dictionary without archives has nothing.
pub fn resource_source(sidecar: Option<(String, String)>, sidecar_exists: bool, archive_count: usize) -> (r: ResourceSource)
    ensures
        match sidecar {
            Some((name, path)) if sidecar_exists => r matches ResourceSource::Sidecar(n, p) && n@ == name@ && p@ == path@,
            _ => if archive_count > 0 { r is Archive } else { r is Missing },
        },
{
    match sidecar {
        Some((name, path)) => {
            if sidecar_exists {
                return ResourceSource::Sidecar(name, path);
            }
        },
        None => {},
    }
    if archive_count > 0 {
        ResourceSource::Archive
    } else {
        ResourceSource::Missing
    }
}

/// A resource read whole, ready to be served.
#[derive(Debug, Clone, PartialEq, Eq)]
pub struct ResourceReply {
    pub resolved_key: String,
    pub content_type: String,
    pub etag: String,
    pub cache_control: String,
    pub body: Vec<u8>,
}

/// The reply for the resource stored under `key` whose bytes are `raw`: its
/// type guessed from the key, its tag, its cache policy, and its body
/// (stylesheets with their URLs rewritten).
pub fn resource_reply(dictionary_id: &str, version_tag: &str, key: &str, raw: Vec<u8>) -> (r: ResourceReply)
    ensures
        r.resolved_key@ == key@,
        r.content_type@ == guessed_mime(key@),
        r.etag@ == resource_etag_spec(dictionary_id@, version_tag@, key@, RESOURCE_RENDER_VERSION@),
        r.cache_control@ == RESOURCE_CACHE_CONTROL@,
        guessed_mime(key@) == "text/css"@ ==> r.body@ == vstd::utf8::encode_utf8(css_rewritten(dictionary_id@, utf8_lossy_chars(raw@))),
        guessed_mime(key@) != "text/css"@ ==> r.body@ == raw@,
{
    let content_type = resource_content_type(key);
    let body = resource_payload(dictionary_id, content_type.as_str(), raw);
    ResourceReply {
        resolved_key: key.to_owned(),
        etag: resource_etag(dictionary_id, version_tag, key, RESOURCE_RENDER_VERSION),
        cache_control: RESOURCE_CACHE_CONTROL.to_owned(),
        content_type,
        body,
    }
}

impl LoadedDictionary {
    pub fn header_info(&self) -> (h: DictionaryHeaderInfo)
        ensures
            crate::service::header_same(h, self.header),
    {
        crate::service::clone_header(&self.header)
    }

    /// Up to `limit` suggestions for `query` from the dictionary's index.
    pub fn suggest(&self, query: &str, limit: usize) -> (r: Result<Vec<SuggestionItem>, ServiceError>)
        ensures
            limit == 0 || crate::index::normalized_key(query@, self.key_case_sensitive, self.strip_key).len() == 0
                || self.index.matching_positions(query@, self.key_case_sensitive, self.strip_key).len() == 0
                ==> (r matches Ok(v) && v@.len() == 0),
            r matches Ok(v) ==> v@.len() <= limit,
            r matches Ok(v) ==> exists|keys: Seq<Seq<char>>| {
                &&& #[trigger] self.index.suggestion_outcome(query@, self.key_case_sensitive, self.strip_key, limit as int, keys)
                &&& keys.len() == v@.len()
                &&& forall|i: int| 0 <= i < keys.len() ==> {
                    &&& (#[trigger] v@[i]).key@ == keys[i]
                    &&& v@[i].label@ == keys[i]
                    &&& v@[i].match_type == SuggestionMatchType::Prefix
                }
            },
            r matches Err(e) ==> exists|reason: crate::index::IndexError| #[trigger] e.is(
                STATUS_SERVICE_UNAVAILABLE,
                ErrorCode::DictionaryUnavailable,
                crate::domain::dictionary_unavailable_message(self.manifest.dictionary_id@, crate::index::index_error_message(reason)),
            ),
    {
        match self.index.suggest(&self.mdx, query, self.key_case_sensitive, self.strip_key, limit) {
            Ok(keys) => {
                let items = suggestion_items(keys);
                proof {
                    let ks = crate::text::strings_view(keys@);
                    assert forall|i: int| 0 <= i < ks.len() implies {
                        &&& (#[trigger] items@[i]).key@ == ks[i]
                        &&& items@[i].label@ == ks[i]
                        &&& items@[i].match_type == SuggestionMatchType::Prefix
                    } by {
                        assert(ks[i] == keys@[i]@);
                    }
                    assert(self.index.suggestion_outcome(query@, self.key_case_sensitive, self.strip_key, limit as int, ks));
                }
                Ok(items)
            },
            Err(e) => {
                let reason = e.message();
                Err(ServiceError::dictionary_unavailable(self.manifest.dictionary_id.as_str(), reason.as_str()))
            },
        }
    }

    /// Finds the record for `query_key`, following alias records.
    pub fn resolve(&self, query_key: &str) -> (r: Result<ResolvedMdxRecord, ServiceError>)
        ensures
            r matches Ok(rec) ==> link_target(rec.text@) is None,
            r matches Ok(rec) ==> walk_resolves(self.manifest.dictionary_id@, query_key@, record_outcome(rec)),
            r matches Err(e) ==> walk_refuses(self.manifest.dictionary_id@, query_key@, e),
    {
        resolve_mdx_record(&self.mdx, self.manifest.dictionary_id.as_str(), query_key)
    }

    /// Looks up `query_key`: what it resolves to, and the entry's tag.
    pub fn lookup(&self, query_key: &str) -> (r: Result<LookupArtifact, ServiceError>)
        ensures
            r matches Ok(a) ==> a.has_resources == (self.mdds@.len() > 0),
            r matches Ok(a) ==> exists|o: (Seq<char>, Option<Seq<char>>, Seq<char>, Seq<char>)|
                #![trigger walk_resolves(self.manifest.dictionary_id@, query_key@, o), artifact_answers(a, self.manifest.dictionary_id@, self.version_tag@, query_key@, o)]
                walk_resolves(self.manifest.dictionary_id@, query_key@, o)
                && artifact_answers(a, self.manifest.dictionary_id@, self.version_tag@, query_key@, o),
            r matches Err(e) ==> walk_refuses(self.manifest.dictionary_id@, query_key@, e),
    {
        let record = match self.resolve(query_key) {
            Ok(rec) => rec,
            Err(e) => {
                return Err(e);
            },
        };
        let a = lookup_artifact_of(
            self.manifest.dictionary_id.as_str(),
            self.version_tag.as_str(),
            self.mdds.len() > 0,
            query_key,
            &record,
        );
        proof {
            let o = record_outcome(record);
            assert(artifact_answers(a, self.manifest.dictionary_id@, self.version_tag@, query_key@, o));
            assert(walk_resolves(self.manifest.dictionary_id@, query_key@, o));
        }
        Ok(a)
    }

    /// The entry page of a resolved record: its HTML rewritten for the
    /// viewer (scripts kept only where the dictionary allows them), tagged.
    pub fn rendered_entry(&self, record: &ResolvedMdxRecord) -> (r: Result<RenderedEntryContent, ServiceError>)
        ensures
            match entry_html_rewritten(self.manifest.dictionary_id@, record.text@, self.manifest.entry_script_mode == crate::config::EntryScriptMode::Original) {
                Ok(html) => r matches Ok(c) && rendered_answers(c, self.manifest.dictionary_id@, self.version_tag@, record.key@, html),
                Err(m) => r matches Err(e) && e.is(STATUS_INTERNAL_SERVER_ERROR, ErrorCode::InternalError, m),
            },
    {
        let id = self.manifest.dictionary_id.as_str();
        let allow = self.manifest.allows_dictionary_scripts();
        let html = match rewrite_entry_html(id, record.text.as_str(), allow) {
            Ok(h) => h,
            Err(e) => {
                return Err(e);
            },
        };
        Ok(RenderedEntryContent {
            dictionary_id: self.manifest.dictionary_id.clone(),
            resolved_key: record.key.clone(),
            html,
            etag: entry_etag(id, self.version_tag.as_str(), record.key.as_str(), ENTRY_RENDER_VERSION),
            cache_control: ENTRY_CACHE_CONTROL.to_owned(),
        })
    }

    /// Where the resource `query_key` lies: which resource file, and the span.
    pub fn find_resource(&self, query_key: &str) -> (r: Result<(usize, ResourceSpan), ServiceError>)
        ensures
            r matches Ok((m, _)) ==> m < self.mdds@.len(),
            resource_searched(self.mdds@.len() as int, self.manifest.dictionary_id@, query_key@, r),
            self.mdds@.len() == 0 ==> (r matches Err(e) && e.is(STATUS_NOT_FOUND, ErrorCode::ResourceNotFound, resource_not_found_message(self.manifest.dictionary_id@, query_key@))),
    {
        find_resource_span(&self.mdds, self.manifest.dictionary_id.as_str(), query_key)
    }
}

} // verus!
