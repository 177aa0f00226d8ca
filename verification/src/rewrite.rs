//! Rules that make dictionary HTML and CSS safe to serve: URL rewriting
//! onto the resource API, audio link marking, and document wrapping.

use vstd::prelude::*;
use crate::text::{
    ascii_lower_seq, ascii_lowercase, chars_of, contains, contains_seq, ends_with, is_ws,
    join_chars, joined, push_all, push_str, rfind, occurs_at, split_chars, split_on,
    split_words, starts_with, string_of, trim_chars, trim_spec, trim_str, words, CharClass,
};
use crate::trusted::{
    apply_attribute_edits, attribute_values_of, html_attribute_values, html_with_attribute_edits,
    html_without_elements, join_url, joined_url, opt_strings_view, parse_url, parsed_url,
    percent_encode, percent_encoded, remove_html_elements, UrlParts,
};
use crate::markup::{
    css_url_pieces, css_url_split, pieces_view, strip_event_handler_attributes, style_block_pieces,
    style_block_split, style_pieces_view, without_event_handlers,
};
use crate::domain::{ServiceError, ErrorCode, STATUS_INTERNAL_SERVER_ERROR};

verus! {

/// What to do with one attribute of an element.
#[derive(Debug, Clone, PartialEq, Eq)]
pub enum AttrRewrite {
    /// Give the attribute this value.
    Replace(String),
    /// Move the value to `data-audio-href` and drop the attribute.
    MoveToAudio(String),
    /// Drop the attribute.
    Remove,
}

pub open spec fn audio_extensions() -> Seq<Seq<char>> {
    seq![".mp3"@, ".wav"@, ".ogg"@, ".oga"@, ".m4a"@, ".aac"@, ".flac"@]
}

/// Whether `v`, ASCII-lowercased, ends in a known audio extension.
pub open spec fn has_audio_ext(v: Seq<char>) -> bool {
    exists|k: int| 0 <= k < audio_extensions().len() && (#[trigger] audio_extensions()[k]).is_suffix_of(ascii_lower_seq(v))
}

pub fn has_audio_extension(value: &[char]) -> (b: bool)
    ensures
        b == has_audio_ext(value@),
{
    let lower = ascii_lowercase(value);
    let exts = [".mp3", ".wav", ".ogg", ".oga", ".m4a", ".aac", ".flac"];
    let mut k: usize = 0;
    while k < 7
        invariant
            k <= 7,
            lower@ == ascii_lower_seq(value@),
            exts@.map_values(|e: &str| e@) == audio_extensions(),
            forall|j: int| 0 <= j < k ==> !(#[trigger] audio_extensions()[j]).is_suffix_of(lower@),
        decreases 7 - k,
    {
        let e = chars_of(exts[k]);
        assert(e@ == audio_extensions()[k as int]);
        if ends_with(&lower, &e) {
            return true;
        }
        k += 1;
    }
    false
}

/// The resource API address of `key` in dictionary `dictionary_id`.
pub open spec fn resource_content_url_spec(dictionary_id: Seq<char>, key: Seq<char>) -> Seq<char> {
    "/api/v1/dictionaries/"@ + dictionary_id + "/resources/content?key="@ + percent_encoded(key)
}

pub fn resource_content_url(dictionary_id: &str, resource_key: &str) -> (r: String)
    ensures
        r@ == resource_content_url_spec(dictionary_id@, resource_key@),
{
    let mut out: Vec<char> = Vec::new();
    push_str(&mut out, "/api/v1/dictionaries/");
    push_str(&mut out, dictionary_id);
    push_str(&mut out, "/resources/content?key=");
    let enc = percent_encode(resource_key);
    push_str(&mut out, enc.as_str());
    string_of(&out)
}

/// The entry API address of `key` in dictionary `dictionary_id`.
pub open spec fn entry_content_url_spec(dictionary_id: Seq<char>, key: Seq<char>) -> Seq<char> {
    "/api/v1/dictionaries/"@ + dictionary_id + "/entries/content?key="@ + percent_encoded(key)
}

pub fn entry_content_url(dictionary_id: &str, key: &str) -> (r: String)
    ensures
        r@ == entry_content_url_spec(dictionary_id@, key@),
{
    let mut out: Vec<char> = Vec::new();
    push_str(&mut out, "/api/v1/dictionaries/");
    push_str(&mut out, dictionary_id);
    push_str(&mut out, "/entries/content?key=");
    let enc = percent_encode(key);
    push_str(&mut out, enc.as_str());
    string_of(&out)
}

/// The index of the first `#` in `s`, or its length where it has none.
pub open spec fn first_hash(s: Seq<char>) -> int {
    if exists|i: int| 0 <= i < s.len() && s[i] == '#' {
        choose|i: int| 0 <= i < s.len() && s[i] == '#' && forall|j: int| 0 <= j < i ==> s[j] != '#'
    } else {
        s.len() as int
    }
}

proof fn lemma_first_hash(s: Seq<char>, h: int)
    requires
        0 <= h <= s.len(),
        h < s.len() ==> s[h] == '#',
        forall|j: int| 0 <= j < h ==> s[j] != '#',
    ensures
        first_hash(s) == h,
{
    if h < s.len() {
        let c = choose|i: int| 0 <= i < s.len() && s[i] == '#' && forall|j: int| 0 <= j < i ==> s[j] != '#';
        assert(0 <= h < s.len() && s[h] == '#' && forall|j: int| 0 <= j < h ==> s[j] != '#');
        assert(0 <= c < s.len() && s[c] == '#' && forall|j: int| 0 <= j < c ==> s[j] != '#');
        if c < h {
            assert(s[c] != '#');
        }
        if h < c {
            assert(s[h] != '#');
        }
    } else {
        assert(!exists|i: int| 0 <= i < s.len() && s[i] == '#');
    }
}

/// Where an `entry://target#fragment` link points: the entry API address of
/// `target` in the same dictionary, with the fragment kept.
pub open spec fn entry_link_url(dictionary_id: Seq<char>, v: Seq<char>) -> Seq<char> {
    let rest = v.skip(8);
    let h = first_hash(rest);
    entry_content_url_spec(dictionary_id, rest.take(h)) + rest.skip(h)
}

fn copy_range(v: &[char], a: usize, b: usize) -> (r: Vec<char>)
    requires
        a <= b <= v@.len(),
    ensures
        r@ == v@.subrange(a as int, b as int),
{
    let mut out: Vec<char> = Vec::new();
    let mut k: usize = a;
    while k < b
        invariant
            a <= k <= b <= v@.len(),
            out@ == v@.subrange(a as int, k as int),
        decreases b - k,
    {
        assert(v@.subrange(a as int, k + 1) == v@.subrange(a as int, k as int).push(v@[k as int]));
        out.push(v[k]);
        k += 1;
    }
    out
}

fn entry_link(dictionary_id: &str, v: &[char]) -> (r: String)
    requires
        "entry://"@.is_prefix_of(v@),
    ensures
        r@ == entry_link_url(dictionary_id@, v@),
{
    proof {
        reveal_strlit("entry://");
    }
    let mut h: usize = 8;
    while h < v.len()
        invariant_except_break
            8 <= h <= v@.len(),
            forall|j: int| 8 <= j < h ==> v@[j] != '#',
        invariant
            8 <= h <= v@.len(),
            forall|j: int| 8 <= j < h ==> v@[j] != '#',
        ensures
            8 <= h <= v@.len(),
            forall|j: int| 8 <= j < h ==> v@[j] != '#',
            h < v@.len() ==> v@[h as int] == '#',
        decreases v@.len() - h,
    {
        if v[h] == '#' {
            break;
        }
        h += 1;
    }
    let ghost rest = v@.skip(8);
    proof {
        lemma_first_hash(rest, h - 8);
        assert(rest.take(h - 8) == v@.subrange(8, h as int));
        assert(rest.skip(h - 8) == v@.subrange(h as int, v@.len() as int));
    }
    let target = copy_range(v, 8, h);
    let tail = copy_range(v, h, v.len());
    let ts = string_of(&target);
    let url = entry_content_url(dictionary_id, ts.as_str());
    let mut out = chars_of(url.as_str());
    push_all(&mut out, &tail);
    string_of(&out)
}

pub open spec fn scheme_of(v: Seq<char>) -> Option<Seq<char>> {
    match parsed_url(v) {
        Some(u) => Some(u.0),
        None => None,
    }
}

/// A scheme that is never allowed (`javascript:` is allowed where dictionary scripts are).
pub open spec fn is_dangerous(v: Seq<char>, allow_scripts: bool) -> bool {
    match scheme_of(v) {
        Some(s) => (s == "javascript"@ && !allow_scripts) || s == "vbscript"@ || s == "file"@,
        None => false,
    }
}

/// A scheme that is kept as written.
pub open spec fn is_safe_scheme(v: Seq<char>) -> bool {
    match scheme_of(v) {
        Some(s) => s == "http"@ || s == "https"@ || s == "data"@ || s == "blob"@ || s
            == "mailto"@ || s == "tel"@ || s == "javascript"@,
        None => false,
    }
}

/// How the value `raw` of `attribute` is rewritten; `None` drops it.
/// Fragments and safe absolute URLs stay, dangerous schemes go, `entry://`
/// links go to the entry API of the same dictionary, and everything else is
/// read as a resource key of the dictionary.
pub open spec fn rewrite_url_spec(
    dictionary_id: Seq<char>,
    attribute: Seq<char>,
    raw: Seq<char>,
    allow_scripts: bool,
) -> Option<Seq<char>> {
    let v = trim_spec(raw, CharClass::Whitespace);
    if v.len() == 0 {
        None
    } else if v[0] == '#' {
        Some(v)
    } else if is_dangerous(v, allow_scripts) {
        None
    } else if is_safe_scheme(v) {
        Some(v)
    } else if "entry://"@.is_prefix_of(v) {
        Some(entry_link_url(dictionary_id, v))
    } else if attribute == "href"@ && "mailto:"@.is_prefix_of(v) {
        Some(v)
    } else {
        Some(resource_content_url_spec(dictionary_id, v))
    }
}

/// A value (trimmed of whitespace) that parses as a URL with scheme `http`,
/// `https`, `data`, `blob`, `mailto` or `tel` is kept exactly as written,
/// whatever attribute holds it and whether scripts are allowed.
pub proof fn law_safe_urls_are_kept(dictionary_id: Seq<char>, attribute: Seq<char>, raw: Seq<char>, allow_scripts: bool)
    requires
        trim_spec(raw, CharClass::Whitespace).len() > 0,
        parsed_url(trim_spec(raw, CharClass::Whitespace)) matches Some(u) && {
            ||| u.0 == "http"@
            ||| u.0 == "https"@
            ||| u.0 == "data"@
            ||| u.0 == "blob"@
            ||| u.0 == "mailto"@
            ||| u.0 == "tel"@
        },
    ensures
        rewrite_url_spec(dictionary_id, attribute, raw, allow_scripts) == Some(trim_spec(raw, CharClass::Whitespace)),
{
    reveal_strlit("http");
    reveal_strlit("https");
    reveal_strlit("data");
    reveal_strlit("blob");
    reveal_strlit("mailto");
    reveal_strlit("tel");
    reveal_strlit("javascript");
    reveal_strlit("vbscript");
    reveal_strlit("file");
    let v = trim_spec(raw, CharClass::Whitespace);
    let sch = match parsed_url(v) {
        Some(u) => u.0,
        None => Seq::<char>::empty(),
    };
    assert("file"@[0] == 'f' && "http"@[0] == 'h' && "data"@[0] == 'd' && "blob"@[0] == 'b');
    assert(sch != "javascript"@ && sch != "vbscript"@ && sch != "file"@) by {
        if sch == "file"@ {
            assert(sch[0] == 'f');
        }
        if sch == "javascript"@ || sch == "vbscript"@ {
            assert(sch.len() >= 8);
        }
    }
    assert(scheme_of(v) == Some(sch));
    assert(!is_dangerous(v, allow_scripts));
    assert(is_safe_scheme(v));
}

fn scheme_is(u: &Option<UrlParts>, name: &str) -> (b: bool)
    ensures
        b == match u {
            Some(p) => p.scheme@ == name@,
            None => false,
        },
{
    match u {
        Some(p) => p.scheme == name.to_owned(),
        None => false,
    }
}

pub fn rewrite_url_value(dictionary_id: &str, attribute: &str, raw: &str, allow_scripts: bool) -> (r:
    Option<String>)
    ensures
        crate::trusted::opt_string_view(r) == rewrite_url_spec(
            dictionary_id@,
            attribute@,
            raw@,
            allow_scripts,
        ),
{
    let v = trim_str(raw, CharClass::Whitespace);
    if v.len() == 0 {
        return None;
    }
    let value = string_of(&v);
    if v[0] == '#' {
        return Some(value);
    }
    let parsed = parse_url(value.as_str());
    proof {
        assert(scheme_of(v@) == match parsed {
            Some(p) => Some(p.scheme@),
            None => None::<Seq<char>>,
        });
    }
    let dangerous = (scheme_is(&parsed, "javascript") && !allow_scripts) || scheme_is(&parsed, "vbscript")
        || scheme_is(&parsed, "file");
    if dangerous {
        return None;
    }
    let safe = scheme_is(&parsed, "http") || scheme_is(&parsed, "https") || scheme_is(&parsed, "data")
        || scheme_is(&parsed, "blob") || scheme_is(&parsed, "mailto") || scheme_is(&parsed, "tel")
        || scheme_is(&parsed, "javascript");
    if safe {
        return Some(value);
    }
    let entry = chars_of("entry://");
    if starts_with(&v, &entry) {
        return Some(entry_link(dictionary_id, &v));
    }
    let mailto = chars_of("mailto:");
    if attribute.to_owned() == "href".to_owned() && starts_with(&v, &mailto) {
        return Some(value);
    }
    Some(resource_content_url(dictionary_id, value.as_str()))
}

/// `parsed_url`, or failing that the URL read relative to `http://localhost/`.
pub open spec fn url_like(v: Seq<char>) -> Option<(Seq<char>, Option<Seq<char>>, Seq<char>, Seq<(Seq<char>, Seq<char>)>)> {
    match parsed_url(v) {
        Some(u) => Some(u),
        None => joined_url("http://localhost/"@, v),
    }
}

pub open spec fn audio_key_pair(p: (Seq<char>, Seq<char>)) -> bool {
    p.0 == "key"@ && ("sound://"@.is_prefix_of(p.1) || has_audio_ext(p.1))
}

/// Whether a link value points at audio: a `sound://` reference, an audio
/// extension, or a URL whose path or `key` query parameter is one.
pub open spec fn looks_like_audio(value: Seq<char>) -> bool {
    let t = trim_spec(value, CharClass::Whitespace);
    if "sound://"@.is_prefix_of(t) || has_audio_ext(t) {
        true
    } else {
        match url_like(t) {
            Some(u) => has_audio_ext(u.2) || exists|k: int| 0 <= k < u.3.len() && audio_key_pair(#[trigger] u.3[k]),
            None => false,
        }
    }
}

pub fn resource_looks_like_audio(value: &str) -> (b: bool)
    ensures
        b == looks_like_audio(value@),
{
    let t = trim_str(value, CharClass::Whitespace);
    let sound = chars_of("sound://");
    if starts_with(&t, &sound) || has_audio_extension(&t) {
        return true;
    }
    let ts = string_of(&t);
    let parsed = match parse_url(ts.as_str()) {
        Some(u) => Some(u),
        None => join_url("http://localhost/", ts.as_str()),
    };
    match parsed {
        None => false,
        Some(u) => {
            let path = chars_of(u.path.as_str());
            if has_audio_extension(&path) {
                return true;
            }
            let ghost qs = crate::trusted::pairs_view(u.query_pairs@);
            assert(url_like(t@) == Some(crate::trusted::url_parts_view(u)));
            let mut k: usize = 0;
            while k < u.query_pairs.len()
                invariant
                    k <= u.query_pairs@.len(),
                    qs == crate::trusted::pairs_view(u.query_pairs@),
                    sound@ == "sound://"@,
                    t@ == trim_spec(value@, CharClass::Whitespace),
                    url_like(t@) == Some(crate::trusted::url_parts_view(u)),
                    forall|j: int| 0 <= j < k ==> !audio_key_pair(#[trigger] qs[j]),
                decreases u.query_pairs@.len() - k,
            {
                let key = &u.query_pairs[k].0;
                let val = chars_of(u.query_pairs[k].1.as_str());
                assert(qs[k as int] == (u.query_pairs@[k as int].0@, u.query_pairs@[k as int].1@));
                if key.clone() == "key".to_owned() && (starts_with(&val, &sound) || has_audio_extension(&val)) {
                    assert(audio_key_pair(qs[k as int]));
                    assert(crate::trusted::url_parts_view(u).3 == qs);
                    assert(audio_key_pair(crate::trusted::url_parts_view(u).3[k as int]));
                    return true;
                }
                k += 1;
            }
            false
        },
    }
}

pub open spec fn is_audio_href_spec(raw: Seq<char>, rewritten: Seq<char>) -> bool {
    looks_like_audio(raw) || looks_like_audio(rewritten)
}

pub fn is_audio_href(raw: &str, rewritten: &str) -> (b: bool)
    ensures
        b == is_audio_href_spec(raw@, rewritten@),
{
    resource_looks_like_audio(raw) || resource_looks_like_audio(rewritten)
}

/// The output of one CSS piece: text is kept, a `url(...)` is rewritten.
pub open spec fn css_piece_out(dictionary_id: Seq<char>, p: (bool, Seq<char>)) -> Seq<char> {
    if p.0 {
        match rewrite_url_spec(dictionary_id, "style"@, p.1, false) {
            Some(r) => "url(\""@ + r + "\")"@,
            None => "url(\"\")"@,
        }
    } else {
        p.1
    }
}

pub open spec fn css_pieces_out(dictionary_id: Seq<char>, pieces: Seq<(bool, Seq<char>)>) -> Seq<char>
    decreases pieces.len(),
{
    if pieces.len() == 0 {
        seq![]
    } else {
        css_pieces_out(dictionary_id, pieces.drop_last()) + css_piece_out(dictionary_id, pieces.last())
    }
}

/// `css` with every `url(...)` rewritten onto the resource API.
pub open spec fn css_rewritten(dictionary_id: Seq<char>, css: Seq<char>) -> Seq<char> {
    css_pieces_out(dictionary_id, css_url_split(css))
}

pub fn rewrite_css_urls(dictionary_id: &str, css: &str) -> (r: String)
    ensures
        r@ == css_rewritten(dictionary_id@, css@),
{
    let pieces = css_url_pieces(css);
    let ghost pv = pieces_view(pieces@);
    let mut out: Vec<char> = Vec::new();
    let mut i: usize = 0;
    while i < pieces.len()
        invariant
            i <= pieces@.len(),
            pv == pieces_view(pieces@),
            out@ == css_pieces_out(dictionary_id@, pv.take(i as int)),
        decreases pieces@.len() - i,
    {
        proof {
            assert(pv.take(i + 1).drop_last() == pv.take(i as int));
            assert(pv.take(i + 1).last() == pv[i as int]);
        }
        if pieces[i].0 {
            match rewrite_url_value(dictionary_id, "style", pieces[i].1.as_str(), false) {
                Some(r) => {
                    push_str(&mut out, "url(\"");
                    push_str(&mut out, r.as_str());
                    push_str(&mut out, "\")");
                },
                None => {
                    push_str(&mut out, "url(\"\")");
                },
            }
        } else {
            push_str(&mut out, pieces[i].1.as_str());
        }
        i += 1;
    }
    assert(pv.take(pieces@.len() as int) == pv);
    string_of(&out)
}

/// One `srcset` candidate: its URL rewritten and its descriptor kept; a
/// blank candidate or one whose URL is dropped yields nothing.
pub open spec fn srcset_item_out(dictionary_id: Seq<char>, item: Seq<char>) -> Option<Seq<char>> {
    let t = trim_spec(item, CharClass::Whitespace);
    let ws = words(t);
    if t.len() == 0 || ws.len() == 0 {
        None
    } else {
        let descriptor = joined(ws.drop_first(), " "@);
        match rewrite_url_spec(dictionary_id, "srcset"@, ws[0], false) {
            Some(r) => Some(if descriptor.len() == 0 { r } else { r + " "@ + descriptor }),
            None => None,
        }
    }
}

pub open spec fn srcset_items_out(dictionary_id: Seq<char>, items: Seq<Seq<char>>) -> Seq<Seq<char>>
    decreases items.len(),
{
    if items.len() == 0 {
        seq![]
    } else {
        let rest = srcset_items_out(dictionary_id, items.drop_last());
        match srcset_item_out(dictionary_id, items.last()) {
            Some(o) => rest.push(o),
            None => rest,
        }
    }
}

/// A `srcset` value with each candidate URL rewritten, joined by `", "`.
pub open spec fn srcset_rewritten(dictionary_id: Seq<char>, srcset: Seq<char>) -> Seq<char> {
    joined(srcset_items_out(dictionary_id, split_on(srcset, ',')), ", "@)
}

pub fn rewrite_srcset(dictionary_id: &str, srcset: &str) -> (r: String)
    ensures
        r@ == srcset_rewritten(dictionary_id@, srcset@),
{
    let chars = chars_of(srcset);
    let items = split_chars(&chars, ',');
    let ghost iv = split_on(srcset@, ',');
    let mut outs: Vec<Vec<char>> = Vec::new();
    let mut i: usize = 0;
    while i < items.len()
        invariant
            i <= items@.len(),
            items@.len() == iv.len(),
            forall|k: int| 0 <= k < items@.len() ==> #[trigger] items@[k]@ == iv[k],
            outs@.map_values(|p: Vec<char>| p@) == srcset_items_out(dictionary_id@, iv.take(i as int)),
        decreases items@.len() - i,
    {
        proof {
            assert(iv.take(i + 1).drop_last() == iv.take(i as int));
            assert(iv.take(i + 1).last() == iv[i as int]);
        }
        let t = trim_chars(&items[i], CharClass::Whitespace);
        let ws = split_words(&t);
        if t.len() > 0 && ws.len() > 0 {
            let mut rest: Vec<Vec<char>> = Vec::new();
            let mut k: usize = 1;
            while k < ws.len()
                invariant
                    1 <= k <= ws@.len(),
                    rest@.map_values(|p: Vec<char>| p@) == ws@.map_values(|p: Vec<char>| p@).subrange(1, k as int),
                decreases ws@.len() - k,
            {
                rest.push(ws[k].clone());
                proof {
                    assert(ws@.map_values(|p: Vec<char>| p@).subrange(1, k + 1) == ws@.map_values(|p: Vec<char>| p@).subrange(1, k as int).push(ws@[k as int]@));
                }
                k += 1;
            }
            let space = chars_of(" ");
            let descriptor = join_chars(&rest, &space);
            let url = string_of(&ws[0]);
            let ghost tv = trim_spec(iv[i as int], CharClass::Whitespace);
            let ghost wv = words(tv);
            proof {
                assert(t@ == tv);
                assert(ws@.map_values(|p: Vec<char>| p@) =~= wv);
                assert(rest@.map_values(|p: Vec<char>| p@) =~= wv.drop_first());
                assert(descriptor@ == joined(wv.drop_first(), " "@));
                assert(url@ == wv[0]);
            }
            match rewrite_url_value(dictionary_id, "srcset", url.as_str(), false) {
                Some(r) => {
                    let mut o = chars_of(r.as_str());
                    if descriptor.len() > 0 {
                        push_str(&mut o, " ");
                        push_all(&mut o, &descriptor);
                    }
                    proof {
                        assert(srcset_item_out(dictionary_id@, iv[i as int]) == Some(o@));
                    }
                    outs.push(o);
                    proof {
                        assert(outs@.map_values(|p: Vec<char>| p@) =~= srcset_items_out(dictionary_id@, iv.take(i as int)).push(o@));
                    }
                },
                None => {
                    proof {
                        assert(srcset_item_out(dictionary_id@, iv[i as int]) is None);
                    }
                },
            }
        } else {
            proof {
                assert(t@ == trim_spec(iv[i as int], CharClass::Whitespace));
                assert(srcset_item_out(dictionary_id@, iv[i as int]) is None);
            }
        }
        i += 1;
    }
    assert(iv.take(items@.len() as int) == iv);
    let sep = chars_of(", ");
    let joined_out = join_chars(&outs, &sep);
    string_of(&joined_out)
}

/// The rewrite of one attribute value: `style` and `srcset` have their URLs
/// rewritten; other URL attributes are rewritten or dropped, and an `href`
/// that points at audio moves to `data-audio-href`.
pub open spec fn attribute_rewrite_spec(
    dictionary_id: Seq<char>,
    name: Seq<char>,
    value: Seq<char>,
    allow_scripts: bool,
) -> (bool, bool, Seq<char>) {
    if name == "style"@ {
        (true, false, css_rewritten(dictionary_id, value))
    } else if name == "srcset"@ {
        (true, false, srcset_rewritten(dictionary_id, value))
    } else {
        match rewrite_url_spec(dictionary_id, name, value, allow_scripts) {
            Some(r) => if name == "href"@ && is_audio_href_spec(value, r) {
                (true, true, r)
            } else {
                (true, false, r)
            },
            None => (false, false, Seq::<char>::empty()),
        }
    }
}

pub open spec fn attr_rewrite_view(a: AttrRewrite) -> (bool, bool, Seq<char>) {
    match a {
        AttrRewrite::Replace(v) => (true, false, v@),
        AttrRewrite::MoveToAudio(v) => (true, true, v@),
        AttrRewrite::Remove => (false, false, Seq::<char>::empty()),
    }
}

pub fn attribute_rewrite(dictionary_id: &str, name: &str, value: &str, allow_scripts: bool) -> (r:
    AttrRewrite)
    ensures
        attr_rewrite_view(r) == attribute_rewrite_spec(dictionary_id@, name@, value@, allow_scripts),
{
    let n = name.to_owned();
    if n == "style".to_owned() {
        return AttrRewrite::Replace(rewrite_css_urls(dictionary_id, value));
    }
    if n == "srcset".to_owned() {
        return AttrRewrite::Replace(rewrite_srcset(dictionary_id, value));
    }
    match rewrite_url_value(dictionary_id, name, value, allow_scripts) {
        Some(r) => {
            if n == "href".to_owned() && is_audio_href(value, r.as_str()) {
                AttrRewrite::MoveToAudio(r)
            } else {
                AttrRewrite::Replace(r)
            }
        },
        None => AttrRewrite::Remove,
    }
}

/// What a pass over the elements carrying an attribute does to one of them.
#[derive(Debug, Clone, PartialEq, Eq)]
pub enum AttrEdit {
    /// Leave the element as it is.
    Keep,
    /// Give the attribute named first the value second.
    Assign(String, String),
    /// Drop the attribute of this name.
    Delete(String),
}

/// An edit as plain values: kind (0 keep, 1 assign, 2 delete), the
/// attribute it touches, and the value it writes.
pub open spec fn attr_edit_view(e: AttrEdit) -> (u8, Seq<char>, Seq<char>) {
    match e {
        AttrEdit::Keep => (0u8, Seq::<char>::empty(), Seq::<char>::empty()),
        AttrEdit::Assign(a, v) => (1u8, a@, v@),
        AttrEdit::Delete(a) => (2u8, a@, Seq::<char>::empty()),
    }
}

pub open spec fn keep_edit() -> (u8, Seq<char>, Seq<char>) {
    (0u8, Seq::<char>::empty(), Seq::<char>::empty())
}

/// The first pass over an element whose attribute `name` reads `value`:
/// an audio `href` has its rewrite written to `data-audio-href`, any other
/// kept value is replaced by its rewrite.
pub open spec fn assign_edit_spec(dictionary_id: Seq<char>, name: Seq<char>, value: Option<Seq<char>>, allow_scripts: bool) -> (u8, Seq<char>, Seq<char>) {
    match value {
        None => keep_edit(),
        Some(v) => {
            let d = attribute_rewrite_spec(dictionary_id, name, v, allow_scripts);
            if !d.0 {
                keep_edit()
            } else if d.1 {
                (1u8, "data-audio-href"@, d.2)
            } else {
                (1u8, name, d.2)
            }
        },
    }
}

/// The second pass over that element: the attribute is dropped when its URL
/// is refused (such as a `javascript:` link where scripts are not allowed)
/// or when it moved to `data-audio-href`.
pub open spec fn delete_edit_spec(dictionary_id: Seq<char>, name: Seq<char>, value: Option<Seq<char>>, allow_scripts: bool) -> (u8, Seq<char>, Seq<char>) {
    match value {
        None => keep_edit(),
        Some(v) => {
            let d = attribute_rewrite_spec(dictionary_id, name, v, allow_scripts);
            if !d.0 || d.1 {
                (2u8, name, Seq::<char>::empty())
            } else {
                keep_edit()
            }
        },
    }
}

pub open spec fn assign_edits_spec(dictionary_id: Seq<char>, name: Seq<char>, values: Seq<Option<Seq<char>>>, allow_scripts: bool) -> Seq<(u8, Seq<char>, Seq<char>)> {
    values.map_values(|v: Option<Seq<char>>| assign_edit_spec(dictionary_id, name, v, allow_scripts))
}

pub open spec fn delete_edits_spec(dictionary_id: Seq<char>, name: Seq<char>, values: Seq<Option<Seq<char>>>, allow_scripts: bool) -> Seq<(u8, Seq<char>, Seq<char>)> {
    values.map_values(|v: Option<Seq<char>>| delete_edit_spec(dictionary_id, name, v, allow_scripts))
}

pub open spec fn edits_view(v: Seq<AttrEdit>) -> Seq<(u8, Seq<char>, Seq<char>)> {
    v.map_values(|e: AttrEdit| attr_edit_view(e))
}

/// The edits of the two passes over the elements carrying `name`, one of
/// each for every element value in `values`.
pub fn attribute_edits(dictionary_id: &str, name: &str, values: &Vec<Option<String>>, allow_scripts: bool) -> (r: (Vec<AttrEdit>, Vec<AttrEdit>))
    ensures
        edits_view(r.0@) == assign_edits_spec(dictionary_id@, name@, opt_strings_view(values@), allow_scripts),
        edits_view(r.1@) == delete_edits_spec(dictionary_id@, name@, opt_strings_view(values@), allow_scripts),
{
    let ghost vs = opt_strings_view(values@);
    let mut assigns: Vec<AttrEdit> = Vec::new();
    let mut deletes: Vec<AttrEdit> = Vec::new();
    let mut i: usize = 0;
    while i < values.len()
        invariant
            i <= values@.len(),
            vs == opt_strings_view(values@),
            edits_view(assigns@) == assign_edits_spec(dictionary_id@, name@, vs.take(i as int), allow_scripts),
            edits_view(deletes@) == delete_edits_spec(dictionary_id@, name@, vs.take(i as int), allow_scripts),
        decreases values@.len() - i,
    {
        let (assign, delete) = match &values[i] {
            None => (AttrEdit::Keep, AttrEdit::Keep),
            Some(v) => match attribute_rewrite(dictionary_id, name, v.as_str(), allow_scripts) {
                AttrRewrite::Replace(r) => (AttrEdit::Assign(name.to_owned(), r), AttrEdit::Keep),
                AttrRewrite::MoveToAudio(r) => (AttrEdit::Assign("data-audio-href".to_owned(), r), AttrEdit::Delete(name.to_owned())),
                AttrRewrite::Remove => (AttrEdit::Keep, AttrEdit::Delete(name.to_owned())),
            },
        };
        proof {
            reveal_strlit("data-audio-href");
            assert(attr_edit_view(assign) == assign_edit_spec(dictionary_id@, name@, vs[i as int], allow_scripts));
            assert(attr_edit_view(delete) == delete_edit_spec(dictionary_id@, name@, vs[i as int], allow_scripts));
        }
        let ghost pa = assigns@;
        let ghost pd = deletes@;
        assigns.push(assign);
        deletes.push(delete);
        proof {
            let ta = vs.take(i + 1);
            assert(ta.take(i as int) =~= vs.take(i as int));
            assert(edits_view(pa).len() == i);
            assert(edits_view(pd).len() == i);
            assert forall|k: int| 0 <= k < i + 1 implies #[trigger] edits_view(assigns@)[k] == assign_edits_spec(dictionary_id@, name@, ta, allow_scripts)[k] by {
                if k < i {
                    assert(assigns@[k] == pa[k]);
                    assert(edits_view(pa)[k] == assign_edits_spec(dictionary_id@, name@, vs.take(i as int), allow_scripts)[k]);
                }
            }
            assert forall|k: int| 0 <= k < i + 1 implies #[trigger] edits_view(deletes@)[k] == delete_edits_spec(dictionary_id@, name@, ta, allow_scripts)[k] by {
                if k < i {
                    assert(deletes@[k] == pd[k]);
                    assert(edits_view(pd)[k] == delete_edits_spec(dictionary_id@, name@, vs.take(i as int), allow_scripts)[k]);
                }
            }
            assert(edits_view(assigns@) =~= assign_edits_spec(dictionary_id@, name@, ta, allow_scripts));
            assert(edits_view(deletes@) =~= delete_edits_spec(dictionary_id@, name@, ta, allow_scripts));
        }
        i += 1;
    }
    assert(vs.take(values@.len() as int) == vs);
    (assigns, deletes)
}

/// The selector of the elements carrying attribute `name`.
pub open spec fn attribute_selector_spec(name: Seq<char>) -> Seq<char> {
    "*["@ + name + "]"@
}

pub fn attribute_selector(name: &str) -> (r: String)
    ensures
        r@ == attribute_selector_spec(name@),
{
    let mut out: Vec<char> = Vec::new();
    push_str(&mut out, "*[");
    push_str(&mut out, name);
    push_str(&mut out, "]");
    string_of(&out)
}

/// `html` after the passes over the elements carrying attribute `name`: the
/// values are read, then the first pass writes the rewritten values, then
/// the second drops the attributes that were refused or moved.
pub open spec fn html_with_rewritten_attribute(html: Seq<char>, dictionary_id: Seq<char>, name: Seq<char>, allow_scripts: bool) -> Result<Seq<char>, Seq<char>> {
    let selector = attribute_selector_spec(name);
    match attribute_values_of(html, selector, name) {
        Err(e) => Err(e),
        Ok(vs) => match html_with_attribute_edits(html, selector, assign_edits_spec(dictionary_id, name, vs, allow_scripts)) {
            Err(e) => Err(e),
            Ok(assigned) => html_with_attribute_edits(assigned, selector, delete_edits_spec(dictionary_id, name, vs, allow_scripts)),
        },
    }
}

/// The passes for one attribute: reads the values of `name`, decides the
/// edits, and applies them.
pub fn rewrite_html_attribute(html: &str, dictionary_id: &str, name: &str, allow_scripts: bool) -> (r: Result<String, String>)
    ensures
        crate::trusted::result_view(r) == html_with_rewritten_attribute(html@, dictionary_id@, name@, allow_scripts),
{
    let selector = attribute_selector(name);
    let values = match html_attribute_values(html, selector.as_str(), name) {
        Ok(v) => v,
        Err(e) => {
            return Err(e);
        },
    };
    let (assigns, deletes) = attribute_edits(dictionary_id, name, &values, allow_scripts);
    let assigned = match apply_attribute_edits(html, selector.as_str(), &assigns) {
        Ok(h) => h,
        Err(e) => {
            return Err(e);
        },
    };
    apply_attribute_edits(assigned.as_str(), selector.as_str(), &deletes)
}

/// The script injected into entries with audio links: it plays a clicked
/// `data-audio-href` link in place instead of navigating to it.
pub const ENTRY_RUNTIME_SCRIPT: &'static str = r#"<script>
(() => {
  const init = () => {
    const audio = new Audio();
    audio.preload = "none";
    document.addEventListener("click", (event) => {
      const target = event.target;
      const element =
        target instanceof Element
          ? target
          : target instanceof Node
            ? target.parentElement
            : null;
      if (!element) {
        return;
      }
      const link = element.closest("a[data-audio-href]");
      if (!(link instanceof HTMLAnchorElement)) {
        return;
      }
      const href = link.getAttribute("data-audio-href");
      if (!href) {
        return;
      }
      event.preventDefault();
      event.stopPropagation();
      if (audio.src === href) {
        audio.currentTime = 0;
      } else {
        audio.src = href;
        audio.load();
      }
      void audio.play().catch(() => {});
    });
  };

  if (document.readyState === "loading") {
    document.addEventListener("DOMContentLoaded", init, { once: true });
  } else {
    init();
  }
})();
</script>"#;

/// The index of the last occurrence of `p` in `s` (meaningful when there is one).
pub open spec fn last_occurrence(s: Seq<char>, p: Seq<char>) -> int {
    choose|i: int| occurs_at(s, p, i) && forall|k: int| i < k ==> !occurs_at(s, p, k)
}

proof fn lemma_last_occurrence(s: Seq<char>, p: Seq<char>, i: int)
    requires
        occurs_at(s, p, i),
        forall|k: int| i < k ==> !occurs_at(s, p, k),
    ensures
        last_occurrence(s, p) == i,
{
    let c = last_occurrence(s, p);
    assert(occurs_at(s, p, c) && forall|k: int| c < k ==> !occurs_at(s, p, k));
    if c < i {
        assert(!occurs_at(s, p, i));
    }
    if i < c {
        assert(!occurs_at(s, p, c));
    }
}

/// `html` with the runtime script placed before its last `</body>`, else
/// before its last `</html>` (matched without regard to ASCII case), else at its end.
pub open spec fn runtime_injected(html: Seq<char>) -> Seq<char> {
    let lower = ascii_lower_seq(html);
    let script = ENTRY_RUNTIME_SCRIPT@;
    if contains_seq(lower, "</body>"@) {
        let i = last_occurrence(lower, "</body>"@);
        html.take(i) + script + html.skip(i)
    } else if contains_seq(lower, "</html>"@) {
        let i = last_occurrence(lower, "</html>"@);
        html.take(i) + script + html.skip(i)
    } else {
        html + script
    }
}

fn splice(html: &[char], i: usize, middle: &str) -> (r: Vec<char>)
    requires
        i <= html@.len(),
    ensures
        r@ == html@.take(i as int) + middle@ + html@.skip(i as int),
{
    let mut out: Vec<char> = Vec::new();
    let mut k: usize = 0;
    while k < i
        invariant
            k <= i <= html@.len(),
            out@ == html@.take(k as int),
        decreases i - k,
    {
        assert(html@.take(k + 1) == html@.take(k as int).push(html@[k as int]));
        out.push(html[k]);
        k += 1;
    }
    push_str(&mut out, middle);
    let ghost before = out@;
    while k < html.len()
        invariant
            i <= k <= html@.len(),
            out@ == before + html@.subrange(i as int, k as int),
        decreases html@.len() - k,
    {
        assert(html@.subrange(i as int, k + 1) == html@.subrange(i as int, k as int).push(html@[k as int]));
        out.push(html[k]);
        k += 1;
    }
    assert(html@.subrange(i as int, html@.len() as int) == html@.skip(i as int));
    out
}

pub fn inject_entry_runtime(html: &str) -> (r: String)
    ensures
        r@ == runtime_injected(html@),
{
    let h = chars_of(html);
    let lower = ascii_lowercase(&h);
    let body = chars_of("</body>");
    match rfind(&lower, &body) {
        Some(i) => {
            proof {
                lemma_last_occurrence(lower@, body@, i as int);
            }
            let out = splice(&h, i, ENTRY_RUNTIME_SCRIPT);
            return string_of(&out);
        },
        None => {},
    }
    let end = chars_of("</html>");
    match rfind(&lower, &end) {
        Some(i) => {
            proof {
                lemma_last_occurrence(lower@, end@, i as int);
            }
            let out = splice(&h, i, ENTRY_RUNTIME_SCRIPT);
            return string_of(&out);
        },
        None => {},
    }
    let mut out = h;
    push_str(&mut out, ENTRY_RUNTIME_SCRIPT);
    string_of(&out)
}

pub open spec fn document_prefix() -> Seq<char> {
    "<!doctype html><html><head><meta charset=\"utf-8\"></head><body>"@
}

/// `html` as a full document (wrapped unless it already holds `<html`, in
/// any ASCII case), with the runtime script added when it has audio links.
pub open spec fn wrapped_document(html: Seq<char>) -> Seq<char> {
    let document = if contains_seq(ascii_lower_seq(html), "<html"@) {
        html
    } else {
        document_prefix() + html + "</body></html>"@
    };
    if contains_seq(document, "data-audio-href="@) {
        runtime_injected(document)
    } else {
        document
    }
}

pub fn wrap_html_document(html: &str) -> (r: String)
    ensures
        r@ == wrapped_document(html@),
{
    let h = chars_of(html);
    let lower = ascii_lowercase(&h);
    let open = chars_of("<html");
    let document = if contains(&lower, &open) {
        h
    } else {
        let mut d: Vec<char> = Vec::new();
        push_str(&mut d, "<!doctype html><html><head><meta charset=\"utf-8\"></head><body>");
        push_all(&mut d, &h);
        push_str(&mut d, "</body></html>");
        d
    };
    let marker = chars_of("data-audio-href=");
    let doc = string_of(&document);
    if contains(&document, &marker) {
        inject_entry_runtime(doc.as_str())
    } else {
        doc
    }
}

pub open spec fn style_piece_out(dictionary_id: Seq<char>, p: (bool, Seq<char>, Seq<char>)) -> Seq<char> {
    if p.0 {
        "<style"@ + p.1 + ">"@ + css_rewritten(dictionary_id, p.2) + "</style>"@
    } else {
        p.1
    }
}

pub open spec fn style_pieces_out(dictionary_id: Seq<char>, pieces: Seq<(bool, Seq<char>, Seq<char>)>) -> Seq<char>
    decreases pieces.len(),
{
    if pieces.len() == 0 {
        seq![]
    } else {
        style_pieces_out(dictionary_id, pieces.drop_last()) + style_piece_out(dictionary_id, pieces.last())
    }
}

/// `html` with the CSS of every `<style>` block rewritten.
pub open spec fn style_blocks_rewritten(dictionary_id: Seq<char>, html: Seq<char>) -> Seq<char> {
    style_pieces_out(dictionary_id, style_block_split(html))
}

pub fn rewrite_style_blocks(dictionary_id: &str, html: &str) -> (r: String)
    ensures
        r@ == style_blocks_rewritten(dictionary_id@, html@),
{
    let pieces = style_block_pieces(html);
    let ghost pv = style_pieces_view(pieces@);
    let mut out: Vec<char> = Vec::new();
    let mut i: usize = 0;
    while i < pieces.len()
        invariant
            i <= pieces@.len(),
            pv == style_pieces_view(pieces@),
            out@ == style_pieces_out(dictionary_id@, pv.take(i as int)),
        decreases pieces@.len() - i,
    {
        proof {
            assert(pv.take(i + 1).drop_last() == pv.take(i as int));
            assert(pv.take(i + 1).last() == pv[i as int]);
        }
        if pieces[i].0 {
            push_str(&mut out, "<style");
            push_str(&mut out, pieces[i].1.as_str());
            push_str(&mut out, ">");
            let css = rewrite_css_urls(dictionary_id, pieces[i].2.as_str());
            push_str(&mut out, css.as_str());
            push_str(&mut out, "</style>");
        } else {
            push_str(&mut out, pieces[i].1.as_str());
        }
        i += 1;
    }
    assert(pv.take(pieces@.len() as int) == pv);
    string_of(&out)
}

/// Elements removed from entries; `<script>` only when dictionary scripts are not allowed.
pub open spec fn removed_elements(allow_scripts: bool) -> Seq<Seq<char>> {
    let rest = seq!["iframe"@, "object"@, "embed"@, "base"@, "meta[http-equiv]"@, "form"@];
    if allow_scripts {
        rest
    } else {
        seq!["script"@] + rest
    }
}

/// Attributes whose URLs are rewritten.
pub open spec fn url_attributes() -> Seq<Seq<char>> {
    seq!["src"@, "href"@, "poster"@, "style"@, "srcset"@]
}

fn strs_to_strings(v: &[&str]) -> (r: Vec<String>)
    ensures
        crate::text::strings_view(r@) == v@.map_values(|s: &str| s@),
{
    let mut r: Vec<String> = Vec::new();
    let mut i: usize = 0;
    while i < v.len()
        invariant
            i <= v@.len(),
            crate::text::strings_view(r@) == v@.map_values(|s: &str| s@).take(i as int),
        decreases v@.len() - i,
    {
        r.push(v[i].to_owned());
        proof {
            assert(v@.map_values(|s: &str| s@).take(i + 1) == v@.map_values(|s: &str| s@).take(i as int).push(v@[i as int]@));
            assert(crate::text::strings_view(r@) =~= v@.map_values(|s: &str| s@).take(i + 1));
        }
        i += 1;
    }
    assert(v@.map_values(|s: &str| s@).take(v@.len() as int) == v@.map_values(|s: &str| s@));
    r
}

/// `html` with the URL attributes `names` rewritten one after the other.
pub open spec fn html_with_rewritten_attributes(html: Seq<char>, dictionary_id: Seq<char>, names: Seq<Seq<char>>, allow_scripts: bool) -> Result<Seq<char>, Seq<char>>
    decreases names.len(),
{
    if names.len() == 0 {
        Ok(html)
    } else {
        match html_with_rewritten_attributes(html, dictionary_id, names.drop_last(), allow_scripts) {
            Err(e) => Err(e),
            Ok(s) => html_with_rewritten_attribute(s, dictionary_id, names.last(), allow_scripts),
        }
    }
}

proof fn lemma_rewrite_error_stays(html: Seq<char>, dictionary_id: Seq<char>, names: Seq<Seq<char>>, allow_scripts: bool, k: int, m: int)
    requires
        0 <= k <= m <= names.len(),
        html_with_rewritten_attributes(html, dictionary_id, names.take(k), allow_scripts) is Err,
    ensures
        html_with_rewritten_attributes(html, dictionary_id, names.take(m), allow_scripts)
            == html_with_rewritten_attributes(html, dictionary_id, names.take(k), allow_scripts),
    decreases m - k,
{
    if m > k {
        lemma_rewrite_error_stays(html, dictionary_id, names, allow_scripts, k, m - 1);
        assert(names.take(m).drop_last() =~= names.take(m - 1));
    }
}

/// Rewrites the URL attributes `names` of `html`, one pass per attribute.
pub fn rewrite_html_attributes(html: &str, dictionary_id: &str, names: &Vec<String>, allow_scripts: bool) -> (r: Result<String, String>)
    ensures
        crate::trusted::result_view(r) == html_with_rewritten_attributes(html@, dictionary_id@, crate::text::strings_view(names@), allow_scripts),
{
    let ghost nv = crate::text::strings_view(names@);
    let mut current = html.to_owned();
    let mut i: usize = 0;
    proof {
        assert(nv.take(0) =~= Seq::<Seq<char>>::empty());
    }
    while i < names.len()
        invariant
            i <= names@.len(),
            nv == crate::text::strings_view(names@),
            html_with_rewritten_attributes(html@, dictionary_id@, nv.take(i as int), allow_scripts) == Ok::<Seq<char>, Seq<char>>(current@),
        decreases names@.len() - i,
    {
        proof {
            assert(nv.take(i + 1).drop_last() =~= nv.take(i as int));
            assert(nv.take(i + 1).last() == names@[i as int]@);
        }
        match rewrite_html_attribute(current.as_str(), dictionary_id, names[i].as_str(), allow_scripts) {
            Ok(next) => {
                current = next;
            },
            Err(e) => {
                proof {
                    lemma_rewrite_error_stays(html@, dictionary_id@, nv, allow_scripts, i + 1, nv.len() as int);
                    assert(nv.take(nv.len() as int) =~= nv);
                }
                return Err(e);
            },
        }
        i += 1;
    }
    proof {
        assert(nv.take(names@.len() as int) =~= nv);
    }
    Ok(current)
}

pub open spec fn rewrite_failure_message(detail: Seq<char>) -> Seq<char> {
    "failed to rewrite entry HTML: "@ + detail
}

/// The whole entry rewrite: style blocks, element removal, URL attributes,
/// event handler removal (unless dictionary scripts are allowed), then the
/// document wrapper. `Err` holds the message of the internal error.
pub open spec fn entry_html_rewritten(dictionary_id: Seq<char>, html: Seq<char>, allow_scripts: bool) -> Result<Seq<char>, Seq<char>> {
    match html_without_elements(style_blocks_rewritten(dictionary_id, html), removed_elements(allow_scripts)) {
        Err(e) => Err(rewrite_failure_message(e)),
        Ok(s2) => match html_with_rewritten_attributes(s2, dictionary_id, url_attributes(), allow_scripts) {
            Err(e) => Err(rewrite_failure_message(e)),
            Ok(s3) => if allow_scripts {
                Ok(wrapped_document(s3))
            } else {
                Ok(wrapped_document(without_event_handlers(s3)))
            },
        },
    }
}

fn internal_error(before: &str, detail: &str) -> (e: ServiceError)
    ensures
        e.is(STATUS_INTERNAL_SERVER_ERROR, ErrorCode::InternalError, before@ + detail@),
{
    let mut m: Vec<char> = Vec::new();
    push_str(&mut m, before);
    push_str(&mut m, detail);
    ServiceError::internal(string_of(&m))
}

pub fn rewrite_entry_html(dictionary_id: &str, html: &str, allow_scripts: bool) -> (r: Result<String, ServiceError>)
    ensures
        match entry_html_rewritten(dictionary_id@, html@, allow_scripts) {
            Ok(s) => r matches Ok(out) && out@ == s,
            Err(m) => r matches Err(e) && e.is(STATUS_INTERNAL_SERVER_ERROR, ErrorCode::InternalError, m),
        },
{
    let s1 = rewrite_style_blocks(dictionary_id, html);
    let removed = if allow_scripts {
        strs_to_strings(&["iframe", "object", "embed", "base", "meta[http-equiv]", "form"])
    } else {
        strs_to_strings(&["script", "iframe", "object", "embed", "base", "meta[http-equiv]", "form"])
    };
    proof {
        if allow_scripts {
            assert(crate::text::strings_view(removed@) =~= removed_elements(allow_scripts));
        } else {
            assert(crate::text::strings_view(removed@) =~= removed_elements(allow_scripts));
        }
    }
    let s2 = match remove_html_elements(s1.as_str(), &removed) {
        Ok(s) => s,
        Err(e) => {
            return Err(internal_error("failed to rewrite entry HTML: ", e.as_str()));
        },
    };
    let attrs = strs_to_strings(&["src", "href", "poster", "style", "srcset"]);
    assert(crate::text::strings_view(attrs@) =~= url_attributes());
    let s3 = match rewrite_html_attributes(s2.as_str(), dictionary_id, &attrs, allow_scripts) {
        Ok(s) => s,
        Err(e) => {
            return Err(internal_error("failed to rewrite entry HTML: ", e.as_str()));
        },
    };
    if allow_scripts {
        return Ok(wrap_html_document(s3.as_str()));
    }
    let s4 = strip_event_handler_attributes(s3.as_str());
    Ok(wrap_html_document(s4.as_str()))
}

} // verus!
