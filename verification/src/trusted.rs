//! Calls into outside crates, each behind a contract that Verus believes.

use vstd::prelude::*;
use fst::{Automaton, IntoStreamer, Streamer};
use lol_html::html_content::Element;
use lol_html::{rewrite_str, ElementContentHandlers, RewriteStrSettings, Selector};
use lol_html::errors::SelectorError;
use std::borrow::Cow;
use crate::rewrite::{attr_edit_view, AttrEdit};

verus! {

/// The parts of a URL that the rewriting rules read.
#[derive(Debug, Clone, PartialEq, Eq)]
pub struct UrlParts {
    pub scheme: String,
    pub host: Option<String>,
    pub path: String,
    pub query_pairs: Vec<(String, String)>,
}

pub open spec fn opt_string_view(o: Option<String>) -> Option<Seq<char>> {
    match o {
        Some(s) => Some(s@),
        None => None,
    }
}

pub open spec fn pairs_view(v: Seq<(String, String)>) -> Seq<(Seq<char>, Seq<char>)> {
    v.map_values(|p: (String, String)| (p.0@, p.1@))
}

pub open spec fn url_parts_view(u: UrlParts) -> (Seq<char>, Option<Seq<char>>, Seq<char>, Seq<(Seq<char>, Seq<char>)>) {
    (u.scheme@, opt_string_view(u.host), u.path@, pairs_view(u.query_pairs@))
}

pub open spec fn opt_url_view(o: Option<UrlParts>) -> Option<(Seq<char>, Option<Seq<char>>, Seq<char>, Seq<(Seq<char>, Seq<char>)>)> {
    match o {
        Some(u) => Some(url_parts_view(u)),
        None => None,
    }
}

/// What `url::Url::parse` makes of `raw` (`None` where it fails): scheme,
/// host, path and decoded query pairs.
pub uninterp spec fn parsed_url(raw: Seq<char>) -> Option<(Seq<char>, Option<Seq<char>>, Seq<char>, Seq<(Seq<char>, Seq<char>)>)>;

/// What `url::Url::join` makes of `raw` against the URL `base`.
pub uninterp spec fn joined_url(base: Seq<char>, raw: Seq<char>) -> Option<(Seq<char>, Option<Seq<char>>, Seq<char>, Seq<(Seq<char>, Seq<char>)>)>;

/// `url::Url::parse(raw)`, read back as its scheme, host, path and query pairs.
#[verifier::external_body]
pub(crate) fn parse_url(raw: &str) -> (r: Option<UrlParts>)
    ensures
        opt_url_view(r) == parsed_url(raw@),
{
    let url = url::Url::parse(raw).ok()?;
    Some(UrlParts {
        scheme: url.scheme().to_owned(),
        host: url.host_str().map(str::to_owned),
        path: url.path().to_owned(),
        query_pairs: url.query_pairs().map(|(k, v)| (k.into_owned(), v.into_owned())).collect(),
    })
}

/// `url::Url::parse(base)` then `Url::join(raw)`, read back as its parts.
#[verifier::external_body]
pub(crate) fn join_url(base: &str, raw: &str) -> (r: Option<UrlParts>)
    ensures
        opt_url_view(r) == joined_url(base@, raw@),
{
    let url = url::Url::parse(base).ok()?.join(raw).ok()?;
    Some(UrlParts {
        scheme: url.scheme().to_owned(),
        host: url.host_str().map(str::to_owned),
        path: url.path().to_owned(),
        query_pairs: url.query_pairs().map(|(k, v)| (k.into_owned(), v.into_owned())).collect(),
    })
}

/// Uppercase hexadecimal digit of `d < 16`.
pub open spec fn hex_upper(d: int) -> char {
    if d < 10 {
        (('0' as int) + d) as char
    } else {
        (('A' as int) + d - 10) as char
    }
}

pub open spec fn percent_bytes(bytes: Seq<u8>) -> Seq<char>
    decreases bytes.len(),
{
    if bytes.len() == 0 {
        seq![]
    } else {
        seq!['%', hex_upper((bytes[0] / 16) as int), hex_upper((bytes[0] % 16) as int)] + percent_bytes(
            bytes.drop_first(),
        )
    }
}

/// `s` with every character other than an ASCII letter or digit written as
/// `%XX` escapes of its UTF-8 bytes.
pub open spec fn percent_encoded(s: Seq<char>) -> Seq<char>
    decreases s.len(),
{
    if s.len() == 0 {
        seq![]
    } else {
        (if crate::text::is_ascii_alnum(s[0]) {
            seq![s[0]]
        } else {
            percent_bytes(vstd::utf8::encode_scalar(s[0] as u32))
        }) + percent_encoded(s.drop_first())
    }
}

/// `percent_encoding::utf8_percent_encode(s, NON_ALPHANUMERIC)`: escapes
/// every byte outside ASCII letters and digits as `%` and two uppercase hex digits.
#[verifier::external_body]
pub(crate) fn percent_encode(s: &str) -> (r: String)
    ensures
        r@ == percent_encoded(s@),
{
    percent_encoding::utf8_percent_encode(s, percent_encoding::NON_ALPHANUMERIC).to_string()
}

/// The lowercase hexadecimal BLAKE3 digest of the UTF-8 bytes of `s`.
pub uninterp spec fn blake3_hex(s: Seq<char>) -> Seq<char>;

/// A lowercase hexadecimal digit.
pub open spec fn is_lower_hex_digit(c: char) -> bool {
    ('0' <= c && c <= '9') || ('a' <= c && c <= 'f')
}

/// `blake3::hash(s).to_hex()`: the 32-byte digest written as 64 lowercase
/// hexadecimal digits (`Hash::to_hex` writes two digits from `0123456789abcdef`
/// per byte).
#[verifier::external_body]
pub(crate) fn blake3_hex_digest(s: &str) -> (r: String)
    ensures
        r@ == blake3_hex(s@),
        r@.len() == 64,
        forall|i: int| 0 <= i < r@.len() ==> is_lower_hex_digit(#[trigger] r@[i]),
{
    blake3::hash(s.as_bytes()).to_hex().to_string()
}

/// The MIME type that `mime_guess` gives a path by its extension.
pub uninterp spec fn guessed_mime(path: Seq<char>) -> Seq<char>;

/// `mime_guess::from_path(path).first_or_octet_stream()`, as its essence string.
#[verifier::external_body]
pub(crate) fn guess_mime(path: &str) -> (r: String)
    ensures
        r@ == guessed_mime(path@),
{
    mime_guess::from_path(path).first_or_octet_stream().essence_str().to_owned()
}

/// Unicode lowercase mapping of a string.
pub uninterp spec fn unicode_lowercase(s: Seq<char>) -> Seq<char>;

/// `str::to_lowercase`.
#[verifier::external_body]
pub(crate) fn to_lowercase(s: &str) -> (r: String)
    ensures
        r@ == unicode_lowercase(s@),
{
    s.to_lowercase()
}

/// `html` without the elements that match any of `selectors`.
pub uninterp spec fn html_without_elements(html: Seq<char>, selectors: Seq<Seq<char>>) -> Result<Seq<char>, Seq<char>>;

pub open spec fn result_view(r: Result<String, String>) -> Result<Seq<char>, Seq<char>> {
    match r {
        Ok(s) => Ok(s@),
        Err(e) => Err(e@),
    }
}

/// `lol_html::rewrite_str` with one handler per selector that removes the matched element.
#[verifier::external_body]
pub(crate) fn remove_html_elements(html: &str, selectors: &Vec<String>) -> (r: Result<String, String>)
    ensures
        result_view(r) == html_without_elements(html@, crate::text::strings_view(selectors@)),
{
    let mut settings = RewriteStrSettings::new();
    for s in selectors {
        let selector: Selector = s.parse().map_err(|e: SelectorError| e.to_string())?;
        let handlers = ElementContentHandlers::default().element(|el: &mut Element| {
            el.remove();
            Ok(())
        });
        settings = settings.append_element_content_handler((Cow::Owned(selector), handlers));
    }
    rewrite_str(html, settings).map_err(|e| e.to_string())
}

pub open spec fn opt_strings_view(v: Seq<Option<String>>) -> Seq<Option<Seq<char>>> {
    v.map_values(|o: Option<String>| opt_string_view(o))
}

pub open spec fn opt_strings_result_view(r: Result<Vec<Option<String>>, String>) -> Result<Seq<Option<Seq<char>>>, Seq<char>> {
    match r {
        Ok(v) => Ok(opt_strings_view(v@)),
        Err(e) => Err(e@),
    }
}

/// The values of attribute `name` on the elements of `html` that match
/// `selector`, in document order, as `lol_html` reads them.
pub uninterp spec fn attribute_values_of(html: Seq<char>, selector: Seq<char>, name: Seq<char>) -> Result<Seq<Option<Seq<char>>>, Seq<char>>;

/// `lol_html::rewrite_str` with one element handler on `selector` that
/// records `Element::get_attribute(name)` of each element it visits.
#[verifier::external_body]
pub(crate) fn html_attribute_values(html: &str, selector: &str, name: &str) -> (r: Result<Vec<Option<String>>, String>)
    ensures
        opt_strings_result_view(r) == attribute_values_of(html@, selector@, name@),
{
    let selector: Selector = selector.parse().map_err(|e: SelectorError| e.to_string())?;
    let mut values: Vec<Option<String>> = Vec::new();
    let handlers = ElementContentHandlers::default().element(|el: &mut Element| {
        values.push(el.get_attribute(name));
        Ok(())
    });
    let settings = RewriteStrSettings::new().append_element_content_handler((Cow::Owned(selector), handlers));
    rewrite_str(html, settings).map_err(|e| e.to_string())?;
    Ok(values)
}

/// `html` after the element matching `selector` that comes k-th in document
/// order got the k-th of `edits` (kind, attribute, value).
pub uninterp spec fn html_with_attribute_edits(html: Seq<char>, selector: Seq<char>, edits: Seq<(u8, Seq<char>, Seq<char>)>) -> Result<Seq<char>, Seq<char>>;

/// `lol_html::rewrite_str` with one element handler on `selector` that hands
/// each element it visits the next of `edits`: `Assign(a, v)` is
/// `Element::set_attribute(a, v)`, `Delete(a)` is `Element::remove_attribute(a)`.
#[verifier::external_body]
pub(crate) fn apply_attribute_edits(html: &str, selector: &str, edits: &Vec<AttrEdit>) -> (r: Result<String, String>)
    ensures
        result_view(r) == html_with_attribute_edits(html@, selector@, edits@.map_values(|e: AttrEdit| attr_edit_view(e))),
{
    let selector: Selector = selector.parse().map_err(|e: SelectorError| e.to_string())?;
    let mut pending = edits.iter();
    let handlers = ElementContentHandlers::default().element(move |el: &mut Element| {
        match pending.next() {
            Some(AttrEdit::Assign(attribute, value)) => el.set_attribute(attribute, value)?,
            Some(AttrEdit::Delete(attribute)) => el.remove_attribute(attribute),
            Some(AttrEdit::Keep) | None => {},
        }
        Ok(())
    });
    let settings = RewriteStrSettings::new().append_element_content_handler((Cow::Owned(selector), handlers));
    rewrite_str(html, settings).map_err(|e| e.to_string())
}

#[verifier::external_type_specification]
#[verifier::external_body]
pub struct ExMdxFile(mdict_rs::MdxFile);

#[verifier::external_type_specification]
#[verifier::external_body]
pub struct ExMddFile(mdict_rs::MddFile);

/// A resolved MDD resource: its stored key and the byte span of its record.
#[derive(Debug, Clone, PartialEq, Eq)]
pub struct ResourceSpan {
    pub key: String,
    pub record_start: u64,
    pub record_end: u64,
}

impl ResourceSpan {
    /// The length of the record, as `MddResourceSpan::len` computes it.
    pub fn len(&self) -> (n: u64)
        ensures
            n == if self.record_end >= self.record_start {
                (self.record_end - self.record_start) as u64
            } else {
                0
            },
    {
        if self.record_end >= self.record_start {
            self.record_end - self.record_start
        } else {
            0
        }
    }
}

/// `MdxFile::lookup`: the record stored under `key` (its key and text), read
/// from the dictionary file, together with the key it was asked for; what
/// the file answers depends on its contents.
#[verifier::external_body]
pub(crate) fn mdx_lookup(mdx: &mdict_rs::MdxFile, key: &str) -> (r: (String, Result<Option<(String, String)>, String>))
    ensures
        r.0@ == key@,
{
    let answer = match mdx.lookup(key) {
        Ok(Some(record)) => Ok(Some((record.key, record.text))),
        Ok(None) => Ok(None),
        Err(error) => Err(error.to_string()),
    };
    (key.to_owned(), answer)
}

/// `MdxFile::key_at`: the key stored at `ordinal`, read from the dictionary
/// file, together with the ordinal it was asked for.
#[verifier::external_body]
pub(crate) fn mdx_key_at(mdx: &mdict_rs::MdxFile, ordinal: u64) -> (r: (u64, Result<Option<String>, String>))
    ensures
        r.0 == ordinal,
{
    (ordinal, mdx.key_at(mdict_rs::KeyOrdinal::new(ordinal)).map_err(|error| error.to_string()))
}

/// `MdxFile::keys_at`: the keys stored at `ordinals`, in input order (the
/// source builds one slot per requested ordinal), together with the
/// ordinals it was asked for.
#[verifier::external_body]
pub(crate) fn mdx_keys_at(mdx: &mdict_rs::MdxFile, ordinals: &Vec<u64>) -> (r: (Vec<u64>, Result<Vec<Option<String>>, String>))
    ensures
        r.0@ == ordinals@,
        r.1 matches Ok(v) ==> v@.len() == ordinals@.len(),
{
    let asked: Vec<mdict_rs::KeyOrdinal> = ordinals.iter().map(|o| mdict_rs::KeyOrdinal::new(*o)).collect();
    (ordinals.clone(), mdx.keys_at(&asked).map_err(|error| error.to_string()))
}

/// `MddFile::lookup_span` on the resource file `mdds[file]`: where the
/// resource stored under `key` lies in it, together with the file and the
/// key it was asked for; what the file answers depends on its contents.
#[verifier::external_body]
pub(crate) fn mdd_lookup_span(mdds: &Vec<mdict_rs::MddFile>, file: usize, key: &str) -> (r: (usize, String, Result<Option<ResourceSpan>, String>))
    requires
        file < mdds@.len(),
    ensures
        r.0 == file,
        r.1@ == key@,
{
    let answer = match mdds[file].lookup_span(key) {
        Ok(Some(span)) => Ok(Some(ResourceSpan { key: span.key, record_start: span.record_start, record_end: span.record_end })),
        Ok(None) => Ok(None),
        Err(error) => Err(error.to_string()),
    };
    (file, key.to_owned(), answer)
}

/// `MdxFile::keys_with_ordinals`, collected: every key of the dictionary with
/// its ordinal, in file order, or the first error the walk meets; what comes
/// back depends on the file's contents.
#[verifier::external_body]
pub(crate) fn mdx_keys_with_ordinals(mdx: &mdict_rs::MdxFile) -> (r: Result<Vec<(String, u64)>, String>)
{
    let mut out = Vec::new();
    for entry in mdx.keys_with_ordinals() {
        let entry = entry.map_err(|error| error.to_string())?;
        out.push((entry.key, entry.ordinal.get()));
    }
    Ok(out)
}

#[verifier::external_type_specification]
#[verifier::external_body]
#[verifier::reject_recursive_types(D)]
pub struct ExFstMap<D>(fst::Map<D>);

/// The key/value pairs an FST map holds, in its (byte-lexicographic) key order.
pub uninterp spec fn fst_map_entries(m: fst::Map<Vec<u8>>) -> Seq<(Seq<u8>, u64)>;

pub open spec fn utf8_entries(entries: Seq<(String, u64)>) -> Seq<(Seq<u8>, u64)> {
    entries.map_values(|e: (String, u64)| (vstd::utf8::encode_utf8(e.0@), e.1))
}

/// Each key's UTF-8 bytes come strictly after those of the key before it.
pub open spec fn utf8_keys_ascending(entries: Seq<(String, u64)>) -> bool {
    forall|i: int| 0 < i < entries.len() ==> crate::text::bytes_less(
        vstd::utf8::encode_utf8(entries[i - 1].0@),
        vstd::utf8::encode_utf8(#[trigger] entries[i].0@),
    )
}

/// The map's bytes are laid out as `fst`'s builder writes them, so reading
/// it cannot panic (`Map::new` leaves that to the caller: on other bytes
/// "a panic could occur while reading the FST at any point").
pub uninterp spec fn fst_readable(m: fst::Map<Vec<u8>>) -> bool;

/// The serialized bytes of an FST map (`Map::as_fst().as_bytes()`).
pub uninterp spec fn fst_map_bytes(m: fst::Map<Vec<u8>>) -> Seq<u8>;

/// `fst::Map::from_iter` over the UTF-8 bytes of the keys. It builds in
/// memory with `MapBuilder`, whose `insert` refuses a key that is not
/// strictly greater than the one before and which nothing else can make
/// fail here; the map holds exactly the given pairs, in the given order,
/// and is laid out as the builder writes it.
#[verifier::external_body]
pub(crate) fn fst_map_from_entries(entries: &Vec<(String, u64)>) -> (r: Result<fst::Map<Vec<u8>>, String>)
    ensures
        r is Ok <==> utf8_keys_ascending(entries@),
        r matches Ok(m) ==> fst_map_entries(m) == utf8_entries(entries@) && fst_readable(m),
{
    fst::Map::from_iter(entries.iter().map(|(k, v)| (k.as_bytes(), *v))).map_err(|error| error.to_string())
}

/// The key/value pairs that the serialized FST `bytes` encode.
pub uninterp spec fn fst_decoded_entries(bytes: Seq<u8>) -> Seq<(Seq<u8>, u64)>;

/// `Map::as_fst().as_bytes()`, copied: the bytes of the map, which encode
/// the pairs it holds.
#[verifier::external_body]
pub(crate) fn fst_bytes_of(map: &fst::Map<Vec<u8>>) -> (r: Vec<u8>)
    ensures
        r@ == fst_map_bytes(*map),
        fst_decoded_entries(r@) == fst_map_entries(*map),
{
    map.as_fst().as_bytes().to_vec()
}

/// `fst::Map::new`: reads a map from its serialized bytes, refusing bytes
/// that fail its cheap format checks (which the bytes of a built map pass);
/// the map holds the pairs the bytes encode, and bytes that a readable map
/// has give a readable map.
#[verifier::external_body]
pub(crate) fn fst_map_from_bytes(bytes: Vec<u8>) -> (r: Result<fst::Map<Vec<u8>>, String>)
    ensures
        r matches Ok(m) ==> fst_map_entries(m) == fst_decoded_entries(bytes@) && fst_map_bytes(m) == bytes@,
        r is Err ==> forall|w: fst::Map<Vec<u8>>| #[trigger] fst_map_bytes(w) == bytes@ ==> !fst_readable(w),
        r matches Ok(m) ==> (fst_readable(m) <==> exists|w: fst::Map<Vec<u8>>| fst_readable(w) && #[trigger] fst_map_bytes(w) == bytes@),
{
    fst::Map::new(bytes).map_err(|error| error.to_string())
}

/// The values of the entries whose key begins with `prefix`, in entry order.
pub open spec fn values_with_prefix(entries: Seq<(Seq<u8>, u64)>, prefix: Seq<u8>) -> Seq<u64>
    decreases entries.len(),
{
    if entries.len() == 0 {
        seq![]
    } else {
        let rest = values_with_prefix(entries.drop_last(), prefix);
        let e = entries.last();
        if prefix.len() <= e.0.len() && e.0.subrange(0, prefix.len() as int) == prefix {
            rest.push(e.1)
        } else {
            rest
        }
    }
}

/// A stream over `fst::automaton::Str::new(prefix).starts_with()`: the values
/// of the map's keys that begin with the UTF-8 bytes of `prefix`, in key order.
#[verifier::external_body]
pub(crate) fn fst_prefix_values(map: &fst::Map<Vec<u8>>, prefix: &str) -> (r: Vec<u64>)
    requires
        fst_readable(*map),
    ensures
        r@ == values_with_prefix(fst_map_entries(*map), vstd::utf8::encode_utf8(prefix@)),
{
    let mut stream = map.search(fst::automaton::Str::new(prefix).starts_with()).into_stream();
    let mut out = Vec::new();
    while let Some((_, value)) = stream.next() {
        out.push(value);
    }
    out
}

/// The characters `String::from_utf8_lossy` reads from `bytes`.
pub uninterp spec fn utf8_lossy_chars(bytes: Seq<u8>) -> Seq<char>;

/// `String::from_utf8_lossy`: the bytes read as UTF-8, each invalid sequence
/// replaced by U+FFFD; valid UTF-8 is read as it stands.
#[verifier::external_body]
pub(crate) fn utf8_lossy(bytes: &Vec<u8>) -> (r: String)
    ensures
        r@ == utf8_lossy_chars(bytes@),
        vstd::utf8::valid_utf8(bytes@) ==> r@ == vstd::utf8::decode_utf8(bytes@),
{
    String::from_utf8_lossy(bytes).into_owned()
}

/// `String::into_bytes`: the UTF-8 encoding of the string.
#[verifier::external_body]
pub(crate) fn utf8_bytes(s: String) -> (r: Vec<u8>)
    ensures
        r@ == vstd::utf8::encode_utf8(s@),
{
    s.into_bytes()
}

} // verus!
