//! The sidecar suggestion index: normalized keys mapped to ranges of key
//! ordinals, stored as an FST map beside a little-endian postings array.

use vstd::prelude::*;
use crate::config::absolutized;
use crate::text::{
    chars_of, push_str, string_of, trim_spec, trim_str, trim_chars, CharClass,
};
use crate::trusted::{
    fst_bytes_of, fst_decoded_entries, fst_map_bytes, fst_map_entries, fst_map_from_bytes, fst_map_from_entries, fst_prefix_values, fst_readable, utf8_keys_ascending, mdx_key_at, mdx_keys_at,
    mdx_keys_with_ordinals, to_lowercase, unicode_lowercase, utf8_entries, values_with_prefix,
};

verus! {

pub const INDEX_FORMAT_VERSION: u32 = 2;
pub const POSTING_ORDINAL_BYTES: usize = 4;
pub const KEYS_AT_BATCH_THRESHOLD: usize = 16;

pub fn index_format_version() -> (v: u32)
    ensures
        v == INDEX_FORMAT_VERSION,
{
    INDEX_FORMAT_VERSION
}

/// A key as the index compares it: surrounding whitespace removed when the
/// dictionary strips keys, surrounding NULs removed, and lowercased unless
/// the dictionary is case sensitive.
pub open spec fn normalized_key(key: Seq<char>, case_sensitive: bool, strip_key: bool) -> Seq<char> {
    let trimmed = if strip_key { trim_spec(key, CharClass::Whitespace) } else { key };
    let without_nul = trim_spec(trimmed, CharClass::Nul);
    if case_sensitive { without_nul } else { unicode_lowercase(without_nul) }
}

pub fn normalize_key(key: &str, case_sensitive: bool, strip_key: bool) -> (r: String)
    ensures
        r@ == normalized_key(key@, case_sensitive, strip_key),
{
    let trimmed = if strip_key { trim_str(key, CharClass::Whitespace) } else { chars_of(key) };
    let without_nul = trim_chars(&trimmed, CharClass::Nul);
    let s = string_of(&without_nul);
    if case_sensitive {
        s
    } else {
        to_lowercase(s.as_str())
    }
}

/// Ignoring case is lowercasing the case-sensitive form of a key.
pub proof fn law_normalize_case_modes(key: Seq<char>, strip_key: bool)
    ensures
        normalized_key(key, false, strip_key) == unicode_lowercase(normalized_key(key, true, strip_key)),
{
}

/// A case-sensitive normalized key never starts or ends with a NUL; and where
/// keys are stripped and the key holds no NUL, it is already trimmed of
/// whitespace.
pub proof fn law_normalized_key_is_trimmed(key: Seq<char>, strip_key: bool)
    ensures
        normalized_key(key, true, strip_key).len() > 0 ==> normalized_key(key, true, strip_key)[0] != '\0'
            && normalized_key(key, true, strip_key).last() != '\0',
        strip_key && !key.contains('\0') ==> trim_spec(normalized_key(key, true, strip_key), CharClass::Whitespace)
            == normalized_key(key, true, strip_key),
{
    let trimmed = if strip_key { trim_spec(key, CharClass::Whitespace) } else { key };
    crate::text::lemma_trim_shape(trimmed, CharClass::Nul);
    if strip_key && !key.contains('\0') {
        crate::text::lemma_trim_shape(key, CharClass::Whitespace);
        if trimmed.len() > 0 {
            assert(key.contains(trimmed[0]));
            assert(key.contains(trimmed[trimmed.len() - 1]));
            assert(trimmed.last() == trimmed[trimmed.len() - 1]);
        }
        crate::text::lemma_trim_identity(trimmed, CharClass::Nul);
        crate::text::lemma_trim_identity(trimmed, CharClass::Whitespace);
    }
}

/// A posting range packed into one value: start in the high 32 bits, count in the low 32.
pub open spec fn packed(start: u32, count: u32) -> u64 {
    (start as int * 0x1_0000_0000 + count as int) as u64
}

pub fn pack_posting_range(start: u32, count: u32) -> (v: u64)
    ensures
        v == packed(start, count),
        v as int == start as int * 0x1_0000_0000 + count as int,
{
    let v = ((start as u64) << 32u64) | (count as u64);
    assert(((start as u64) << 32u64) | (count as u64) == (start as u64) * 0x1_0000_0000u64 + (count as u64)) by (bit_vector);
    v
}

pub fn unpack_posting_range(value: u64) -> (r: (usize, usize))
    ensures
        r.0 as int == value as int / 0x1_0000_0000,
        r.1 as int == value as int % 0x1_0000_0000,
{
    let hi = (value >> 32u64) as u32;
    let lo = value as u32;
    assert((value >> 32u64) as u32 == value / 0x1_0000_0000u64) by (bit_vector);
    assert(value as u32 == value % 0x1_0000_0000u64) by (bit_vector);
    (hi as usize, lo as usize)
}

/// The 32-bit little-endian value of four bytes.
pub open spec fn le_u32(b0: u8, b1: u8, b2: u8, b3: u8) -> u32 {
    (b0 as int + b1 as int * 0x100 + b2 as int * 0x1_0000 + b3 as int * 0x100_0000) as u32
}

/// The ordinal stored at `index` of a postings array: four little-endian
/// bytes at `4 * index`, when the array holds them.
pub open spec fn ordinal_at(postings: Seq<u8>, index: int) -> Option<u32> {
    if 0 <= index && 4 * index + 4 <= postings.len() {
        Some(le_u32(postings[4 * index], postings[4 * index + 1], postings[4 * index + 2], postings[4 * index + 3]))
    } else {
        None
    }
}

pub fn posting_ordinal_at(postings: &[u8], index: usize) -> (r: Option<u32>)
    ensures
        r == ordinal_at(postings@, index as int),
{
    let n = postings.len();
    assert(postings@.len() == n);
    let start = match index.checked_mul(POSTING_ORDINAL_BYTES) {
        Some(s) => s,
        None => {
            return None;
        },
    };
    let end = match start.checked_add(POSTING_ORDINAL_BYTES) {
        Some(e) => e,
        None => {
            return None;
        },
    };
    if end > postings.len() {
        return None;
    }
    let b0 = postings[start];
    let b1 = postings[start + 1];
    let b2 = postings[start + 2];
    let b3 = postings[start + 3];
    let v = (b0 as u32) | ((b1 as u32) << 8u32) | ((b2 as u32) << 16u32) | ((b3 as u32) << 24u32);
    assert((b0 as u32) | ((b1 as u32) << 8u32) | ((b2 as u32) << 16u32) | ((b3 as u32) << 24u32)
        == b0 as u32 + (b1 as u32) * 0x100u32 + (b2 as u32) * 0x1_0000u32 + (b3 as u32) * 0x100_0000u32) by (bit_vector);
    Some(v)
}

/// Appends `ordinal` to a postings array as four little-endian bytes.
fn push_ordinal_le(postings: &mut Vec<u8>, ordinal: u32)
    requires
        old(postings)@.len() % 4 == 0,
    ensures
        final(postings)@.len() == old(postings)@.len() + 4,
        forall|i: int| 0 <= i < old(postings)@.len() ==> final(postings)@[i] == old(postings)@[i],
        ordinal_at(final(postings)@, old(postings)@.len() as int / 4) == Some(ordinal),
{
    let b0 = (ordinal & 0xff) as u8;
    let b1 = ((ordinal >> 8u32) & 0xff) as u8;
    let b2 = ((ordinal >> 16u32) & 0xff) as u8;
    let b3 = ((ordinal >> 24u32) & 0xff) as u8;
    assert(((ordinal & 0xff) as u8) as int + (((ordinal >> 8u32) & 0xff) as u8) as int * 0x100
        + (((ordinal >> 16u32) & 0xff) as u8) as int * 0x1_0000 + (((ordinal >> 24u32) & 0xff) as u8) as int * 0x100_0000 == ordinal as int) by (bit_vector);
    postings.push(b0);
    postings.push(b1);
    postings.push(b2);
    postings.push(b3);
}

/// How many ordinals to gather before resolving them to keys.
pub fn suggest_batch_size(limit: usize) -> (n: usize)
    ensures
        n as int == if 4 * (if limit > 16 { limit as int } else { 16 }) > usize::MAX { usize::MAX as int } else { 4 * (if limit > 16 { limit as int } else { 16 }) },
{
    let base = if limit > 16 { limit } else { 16 };
    match base.checked_mul(4) {
        Some(n) => n,
        None => usize::MAX,
    }
}

/// The three files of a dictionary's index.
#[derive(Debug, Clone, PartialEq, Eq)]
pub struct IndexPaths {
    pub map: String,
    pub postings: String,
    pub meta: String,
}

fn file_in(dir: &str, dictionary_id: &str, suffix: &str) -> (r: String)
    ensures
        r@ == absolutized(dir@, dictionary_id@ + suffix@),
{
    let mut name: Vec<char> = Vec::new();
    push_str(&mut name, dictionary_id);
    push_str(&mut name, suffix);
    let n = string_of(&name);
    crate::config::absolutize(dir, n.as_str())
}

impl IndexPaths {
    pub fn new(dir: &str, dictionary_id: &str) -> (p: Self)
        ensures
            p.map@ == absolutized(dir@, dictionary_id@ + ".suggest.fst"@),
            p.postings@ == absolutized(dir@, dictionary_id@ + ".suggest.ordinals.bin"@),
            p.meta@ == absolutized(dir@, dictionary_id@ + ".suggest.meta.json"@),
    {
        IndexPaths {
            map: file_in(dir, dictionary_id, ".suggest.fst"),
            postings: file_in(dir, dictionary_id, ".suggest.ordinals.bin"),
            meta: file_in(dir, dictionary_id, ".suggest.meta.json"),
        }
    }
}

/// What an index was built from; a stored index is reused only when its
/// metadata equals the expected one.
#[derive(Debug, Clone, PartialEq, Eq)]
pub struct DictionaryIndexMetadata {
    pub format_version: u32,
    pub dictionary_id: String,
    pub mdx_size: u64,
    pub mdx_modified_millis: u128,
    pub entry_count: u64,
}

impl DictionaryIndexMetadata {
    pub open spec fn same_as(&self, other: &Self) -> bool {
        &&& self.format_version == other.format_version
        &&& self.dictionary_id@ == other.dictionary_id@
        &&& self.mdx_size == other.mdx_size
        &&& self.mdx_modified_millis == other.mdx_modified_millis
        &&& self.entry_count == other.entry_count
    }

    /// The metadata an index of this dictionary file should carry.
    pub fn expected(dictionary_id: &str, mdx_size: u64, mdx_modified_millis: u128, entry_count: u64) -> (m: Self)
        ensures
            m.format_version == INDEX_FORMAT_VERSION,
            m.dictionary_id@ == dictionary_id@,
            m.mdx_size == mdx_size,
            m.mdx_modified_millis == mdx_modified_millis,
            m.entry_count == entry_count,
    {
        DictionaryIndexMetadata {
            format_version: index_format_version(),
            dictionary_id: dictionary_id.to_owned(),
            mdx_size,
            mdx_modified_millis,
            entry_count,
        }
    }

    pub fn matches(&self, other: &Self) -> (b: bool)
        ensures
            b == self.same_as(other),
    {
        self.format_version == other.format_version && self.dictionary_id == other.dictionary_id
            && self.mdx_size == other.mdx_size && self.mdx_modified_millis == other.mdx_modified_millis
            && self.entry_count == other.entry_count
    }
}

/// Why an index could not be loaded, built or searched.
#[derive(Debug, Clone, PartialEq, Eq)]
pub enum IndexError {
    Io(String),
    Metadata(String),
    Fst(String),
    Mdict(String),
    InvalidData(String),
}

pub open spec fn index_error_message(e: IndexError) -> Seq<char> {
    match e {
        IndexError::Io(d) => "failed to access index files: "@ + d@,
        IndexError::Metadata(d) => "failed to parse index metadata: "@ + d@,
        IndexError::Fst(d) => "fst error: "@ + d@,
        IndexError::Mdict(d) => "failed to iterate mdx keys: "@ + d@,
        IndexError::InvalidData(d) => "index data is invalid: "@ + d@,
    }
}

impl IndexError {
    /// The error's text, as it is shown to operators.
    pub fn message(&self) -> (s: String)
        ensures
            s@ == index_error_message(*self),
    {
        let mut m: Vec<char> = Vec::new();
        match self {
            IndexError::Io(d) => {
                push_str(&mut m, "failed to access index files: ");
                push_str(&mut m, d.as_str());
            },
            IndexError::Metadata(d) => {
                push_str(&mut m, "failed to parse index metadata: ");
                push_str(&mut m, d.as_str());
            },
            IndexError::Fst(d) => {
                push_str(&mut m, "fst error: ");
                push_str(&mut m, d.as_str());
            },
            IndexError::Mdict(d) => {
                push_str(&mut m, "failed to iterate mdx keys: ");
                push_str(&mut m, d.as_str());
            },
            IndexError::InvalidData(d) => {
                push_str(&mut m, "index data is invalid: ");
                push_str(&mut m, d.as_str());
            },
        }
        string_of(&m)
    }
}

/// Whether a stored index whose files exist and whose metadata reads back
/// as `stored` may be reused instead of rebuilt.
pub fn can_reuse_index(rebuild_on_startup: bool, files_exist: bool, stored: &Option<DictionaryIndexMetadata>, expected: &DictionaryIndexMetadata) -> (b: bool)
    ensures
        b == (!rebuild_on_startup && files_exist && match stored { Some(m) => m.same_as(expected), None => false }),
{
    if rebuild_on_startup || !files_exist {
        return false;
    }
    match stored {
        Some(m) => m.matches(expected),
        None => false,
    }
}


/// A normalized key with the ordinal of the dictionary key it came from.
pub type KeyedOrdinal = (Vec<char>, u32);

pub open spec fn pair_view(p: KeyedOrdinal) -> (Seq<char>, u32) {
    (p.0@, p.1)
}

pub open spec fn pair_views(s: Seq<KeyedOrdinal>) -> Seq<(Seq<char>, u32)> {
    s.map_values(|p: KeyedOrdinal| pair_view(p))
}

/// Order of the index: by normalized key, then by ordinal.
pub open spec fn pair_le(a: (Seq<char>, u32), b: (Seq<char>, u32)) -> bool {
    crate::text::seq_less(a.0, b.0) || (a.0 == b.0 && a.1 <= b.1)
}

pub open spec fn sorted_pairs(s: Seq<(Seq<char>, u32)>) -> bool {
    forall|i: int, j: int| 0 <= i < j < s.len() ==> pair_le(s[i], s[j])
}

pub open spec fn descending_pairs(s: Seq<(Seq<char>, u32)>) -> bool {
    forall|i: int, j: int| 0 <= i < j < s.len() ==> pair_le(s[j], s[i])
}

proof fn lemma_pair_le_trans(a: (Seq<char>, u32), b: (Seq<char>, u32), c: (Seq<char>, u32))
    requires
        pair_le(a, b),
        pair_le(b, c),
    ensures
        pair_le(a, c),
{
    if crate::text::seq_less(a.0, b.0) && crate::text::seq_less(b.0, c.0) {
        crate::text::lemma_seq_less_transitive(a.0, b.0, c.0);
    }
}

proof fn lemma_pair_le_total(a: (Seq<char>, u32), b: (Seq<char>, u32))
    ensures
        pair_le(a, b) || pair_le(b, a),
{
    crate::text::lemma_seq_less_total(a.0, b.0);
}

fn pair_le_exec(a: &KeyedOrdinal, b: &KeyedOrdinal) -> (r: bool)
    ensures
        r == pair_le(pair_view(*a), pair_view(*b)),
{
    let c = crate::text::compare_chars(&a.0, &b.0);
    c == -1 || (c == 0 && a.1 <= b.1)
}


proof fn lemma_pair_le_antisymmetric(a: (Seq<char>, u32), b: (Seq<char>, u32))
    requires
        pair_le(a, b),
        pair_le(b, a),
    ensures
        a == b,
{
    if crate::text::seq_less(a.0, b.0) {
        crate::text::lemma_seq_less_asymmetric(a.0, b.0);
    }
    if crate::text::seq_less(b.0, a.0) {
        crate::text::lemma_seq_less_asymmetric(b.0, a.0);
    }
}

/// Two sorted lists holding the same pairs are the same list.
proof fn lemma_sorted_unique(s: Seq<(Seq<char>, u32)>, t: Seq<(Seq<char>, u32)>)
    requires
        sorted_pairs(s),
        sorted_pairs(t),
        s.to_multiset() == t.to_multiset(),
    ensures
        s == t,
    decreases s.len(),
{
    broadcast use vstd::seq_lib::group_to_multiset_ensures;
    assert(s.to_multiset().len() == s.len());
    assert(t.to_multiset().len() == t.len());
    if s.len() == 0 {
        assert(s =~= t);
    } else {
        assert(s.contains(s[0])) by {
            assert(s[0] == s[0]);
        }
        assert(s.to_multiset().count(s[0]) > 0);
        assert(t.to_multiset().count(s[0]) > 0);
        assert(t.contains(s[0]));
        let k = choose|k: int| 0 <= k < t.len() && t[k] == s[0];
        assert(t.contains(t[0])) by {
            assert(t[0] == t[0]);
        }
        assert(t.to_multiset().count(t[0]) > 0);
        assert(s.to_multiset().count(t[0]) > 0);
        assert(s.contains(t[0]));
        let m = choose|m: int| 0 <= m < s.len() && s[m] == t[0];
        if k > 0 {
            assert(pair_le(t[0], t[k]));
        }
        if m > 0 {
            assert(pair_le(s[0], s[m]));
        }
        lemma_pair_le_antisymmetric(s[0], t[0]);
        assert(s.remove(0) =~= s.drop_first());
        assert(t.remove(0) =~= t.drop_first());
        assert(s.remove(0).to_multiset() =~= s.to_multiset().remove(s[0]));
        assert(t.remove(0).to_multiset() =~= t.to_multiset().remove(t[0]));
        lemma_sorted_unique(s.drop_first(), t.drop_first());
        assert(s =~= seq![s[0]] + s.drop_first());
        assert(t =~= seq![t[0]] + t.drop_first());
    }
}

proof fn lemma_reverse_multiset(s: Seq<(Seq<char>, u32)>)
    ensures
        s.reverse().to_multiset() == s.to_multiset(),
    decreases s.len(),
{
    broadcast use vstd::seq_lib::group_to_multiset_ensures;
    if s.len() > 0 {
        lemma_reverse_multiset(s.drop_last());
        assert(s.reverse() =~= seq![s.last()] + s.drop_last().reverse());
        vstd::seq_lib::lemma_multiset_commutative(seq![s.last()], s.drop_last().reverse());
        assert(s.drop_last().push(s.last()) =~= s);
        assert(seq![s.last()] =~= Seq::<(Seq<char>, u32)>::empty().push(s.last()));
    } else {
        assert(s.reverse() =~= s);
    }
}

proof fn lemma_cons_multiset(x: (Seq<char>, u32), s: Seq<(Seq<char>, u32)>)
    ensures
        (seq![x] + s).to_multiset() =~= s.to_multiset().insert(x),
{
    broadcast use vstd::seq_lib::group_to_multiset_ensures;
    vstd::seq_lib::lemma_multiset_commutative(seq![x], s);
    assert(seq![x] =~= Seq::<(Seq<char>, u32)>::empty().push(x));
}


/// The keys of a dictionary, with their ordinals, as read characters.
pub open spec fn entries_view(v: Seq<(String, u64)>) -> Seq<(Seq<char>, u64)> {
    v.map_values(|e: (String, u64)| (e.0@, e.1))
}

/// The pairs the index is built from: each key normalized, keys that
/// normalize to nothing left out, ordinals narrowed to 32 bits.
pub open spec fn kept_pairs(entries: Seq<(Seq<char>, u64)>, case_sensitive: bool, strip_key: bool) -> Seq<(Seq<char>, u32)>
    decreases entries.len(),
{
    if entries.len() == 0 {
        seq![]
    } else {
        let rest = kept_pairs(entries.drop_last(), case_sensitive, strip_key);
        let k = normalized_key(entries.last().0, case_sensitive, strip_key);
        if k.len() == 0 {
            rest
        } else {
            rest.push((k, entries.last().1 as u32))
        }
    }
}

/// The entry at `i` is indexed but its ordinal does not fit in 32 bits.
pub open spec fn wide_ordinal_at(entries: Seq<(Seq<char>, u64)>, case_sensitive: bool, strip_key: bool, i: int) -> bool {
    normalized_key(entries[i].0, case_sensitive, strip_key).len() > 0 && entries[i].1 > u32::MAX
}

pub open spec fn wide_ordinal_message(ordinal: u64) -> Seq<char> {
    "key ordinal "@ + crate::text::decimal(ordinal as nat) + " exceeds u32 range"@
}

pub open spec fn is_invalid_data(e: IndexError, message: Seq<char>) -> bool {
    e matches IndexError::InvalidData(m) && m@ == message
}

/// Normalizes each key of the dictionary and pairs it with its ordinal,
/// failing on the first indexed key whose ordinal exceeds 32 bits.
pub fn normalized_pairs(entries: &Vec<(String, u64)>, case_sensitive: bool, strip_key: bool) -> (r: Result<Vec<KeyedOrdinal>, IndexError>)
    ensures
        match r {
            Ok(v) => {
                &&& pair_views(v@) == kept_pairs(entries_view(entries@), case_sensitive, strip_key)
                &&& forall|i: int| 0 <= i < entries@.len() ==> !wide_ordinal_at(entries_view(entries@), case_sensitive, strip_key, i)
            },
            Err(e) => exists|i: int| {
                &&& 0 <= i < entries@.len()
                &&& wide_ordinal_at(entries_view(entries@), case_sensitive, strip_key, i)
                &&& forall|j: int| 0 <= j < i ==> !wide_ordinal_at(entries_view(entries@), case_sensitive, strip_key, j)
                &&& is_invalid_data(e, wide_ordinal_message(entries@[i].1))
            },
        },
{
    let ghost ev = entries_view(entries@);
    let mut out: Vec<KeyedOrdinal> = Vec::new();
    let mut i: usize = 0;
    while i < entries.len()
        invariant
            i <= entries@.len(),
            ev == entries_view(entries@),
            pair_views(out@) == kept_pairs(ev.take(i as int), case_sensitive, strip_key),
            forall|j: int| 0 <= j < i ==> !wide_ordinal_at(ev, case_sensitive, strip_key, j),
        decreases entries@.len() - i,
    {
        let key = normalize_key(entries[i].0.as_str(), case_sensitive, strip_key);
        let chars = chars_of(key.as_str());
        let ordinal = entries[i].1;
        proof {
            assert(ev[i as int] == (entries@[i as int].0@, entries@[i as int].1));
            assert(ev.take(i + 1).drop_last() =~= ev.take(i as int));
            assert(ev.take(i + 1).last() == ev[i as int]);
        }
        if chars.len() > 0 {
            if ordinal > 4294967295u64 {
                let mut msg: Vec<char> = Vec::new();
                push_str(&mut msg, "key ordinal ");
                let digits = crate::text::decimal_chars(ordinal as u128);
                crate::text::push_all(&mut msg, &digits);
                push_str(&mut msg, " exceeds u32 range");
                proof {
                    assert(wide_ordinal_at(ev, case_sensitive, strip_key, i as int));
                }
                return Err(IndexError::InvalidData(string_of(&msg)));
            }
            let ghost before = pair_views(out@);
            out.push((chars, ordinal as u32));
            proof {
                assert(pair_views(out@) =~= before.push(pair_view((chars, ordinal as u32))));
            }
        }
        i += 1;
    }
    proof {
        assert(ev.take(entries@.len() as int) =~= ev);
    }
    Ok(out)
}


/// Where the run of a packed posting range starts, and how long it is.
pub open spec fn range_start(v: u64) -> int {
    v as int / 0x1_0000_0000
}

pub open spec fn range_count(v: u64) -> int {
    v as int % 0x1_0000_0000
}

/// Whether `i` begins a run of equal keys in `s`.
pub open spec fn run_start_at(s: Seq<(Seq<char>, u32)>, i: int) -> bool {
    0 < i < s.len() && s[i - 1].0 != s[i].0
}

/// Every run of equal keys starts at a posting index and holds a count that
/// fit in 32 bits.
pub open spec fn postings_fit(s: Seq<(Seq<char>, u32)>) -> bool {
    &&& forall|i: int| run_start_at(s, i) ==> i <= u32::MAX
    &&& forall|i: int| 0 <= i && i + u32::MAX < s.len() ==> s[i].0 != #[trigger] s[i + u32::MAX].0
}

pub open spec fn map_entries_view(v: Seq<(String, u64)>) -> Seq<(Seq<char>, u64)> {
    v.map_values(|e: (String, u64)| (e.0@, e.1))
}

pub open spec fn entry_keys(e: Seq<(Seq<char>, u64)>) -> Seq<Seq<char>> {
    e.map_values(|x: (Seq<char>, u64)| x.0)
}

/// `entries` and `postings` are the index of the sorted pairs `s`: the
/// postings hold the ordinals of `s` in order, and each entry names one run
/// of equal keys, in order, by its key and its packed (start, count).
pub open spec fn groups_of(s: Seq<(Seq<char>, u32)>, entries: Seq<(Seq<char>, u64)>, postings: Seq<u8>) -> bool {
    &&& postings.len() == 4 * s.len()
    &&& forall|i: int| 0 <= i < s.len() ==> ordinal_at(postings, i) == Some(s[i].1)
    &&& crate::text::strictly_ascending(entry_keys(entries))
    &&& (entries.len() == 0 <==> s.len() == 0)
    &&& entries.len() > 0 ==> range_start(entries[0].1) == 0
    &&& entries.len() > 0 ==> range_start(entries.last().1) + range_count(entries.last().1) == s.len()
    &&& forall|j: int| 0 <= j < entries.len() - 1 ==> range_start(#[trigger] entries[j + 1].1) == range_start(entries[j].1) + range_count(entries[j].1)
    &&& forall|j: int| 0 <= j < entries.len() ==> range_count(#[trigger] entries[j].1) >= 1
    &&& forall|j: int, i: int| 0 <= j < entries.len() && range_start(entries[j].1) <= i < range_start(entries[j].1) + range_count(entries[j].1)
        ==> #[trigger] s[i].0 == (#[trigger] entries[j]).0
}

/// More than `u32::MAX` pairs share the key of the pair at `i`, from `i` on.
pub open spec fn long_run_at(s: Seq<(Seq<char>, u32)>, i: int) -> bool {
    0 <= i && i + u32::MAX < s.len() && s[i].0 == s[i + u32::MAX].0
}

pub open spec fn long_run_message(key: Seq<char>) -> Seq<char> {
    "suggest postings for normalized key `"@ + key + "` exceed u32 range"@
}

/// Between two pairs with the same key, every pair of a sorted list has that key.
proof fn lemma_sorted_between(s: Seq<(Seq<char>, u32)>, a: int, b: int, c: int)
    requires
        sorted_pairs(s),
        0 <= a <= b <= c < s.len(),
        s[a].0 == s[c].0,
    ensures
        s[b].0 == s[a].0,
{
    if a < b && b < c {
        assert(pair_le(s[a], s[b]));
        assert(pair_le(s[b], s[c]));
        if s[b].0 != s[a].0 {
            crate::text::lemma_seq_less_asymmetric(s[a].0, s[b].0);
        }
    }
}

/// Groups sorted pairs into the FST entries (key, packed posting range) and
/// the postings array of their ordinals.
pub fn group_postings(sorted: &Vec<KeyedOrdinal>) -> (r: Result<(Vec<(String, u64)>, Vec<u8>), IndexError>)
    requires
        sorted_pairs(pair_views(sorted@)),
    ensures
        r is Ok <==> postings_fit(pair_views(sorted@)),
        match r {
            Ok((entries, postings)) => groups_of(pair_views(sorted@), map_entries_view(entries@), postings@),
            Err(e) => {
                ||| exists|i: int| {
                    &&& 0 <= i <= u32::MAX
                    &&& long_run_at(pair_views(sorted@), i)
                    &&& forall|j: int| 0 <= j < i ==> !long_run_at(pair_views(sorted@), j)
                    &&& is_invalid_data(e, long_run_message(pair_views(sorted@)[i].0))
                }
                ||| {
                    &&& forall|i: int| 0 <= i <= u32::MAX ==> !long_run_at(pair_views(sorted@), i)
                    &&& is_invalid_data(e, "suggest postings exceed u32 range"@)
                }
            },
        },
{
    let ghost s = pair_views(sorted@);
    let n = sorted.len();
    let mut entries: Vec<(String, u64)> = Vec::new();
    let mut postings: Vec<u8> = Vec::new();
    let mut index: usize = 0;
    while index < n
        invariant
            n == sorted@.len(),
            s == pair_views(sorted@),
            sorted_pairs(s),
            index <= n,
            postings@.len() == 4 * index,
            forall|i: int| 0 <= i < index ==> ordinal_at(postings@, i) == Some(s[i].1),
            crate::text::strictly_ascending(entry_keys(map_entries_view(entries@))),
            entries@.len() == 0 <==> index == 0,
            entries@.len() > 0 ==> range_start(entries@[0].1) == 0,
            entries@.len() > 0 ==> range_start(entries@.last().1) + range_count(entries@.last().1) == index,
            forall|j: int| 0 <= j < entries@.len() - 1 ==> range_start(#[trigger] entries@[j + 1].1) == range_start(entries@[j].1) + range_count(entries@[j].1),
            forall|j: int| 0 <= j < entries@.len() ==> range_count(#[trigger] entries@[j].1) >= 1,
            forall|j: int, i: int| 0 <= j < entries@.len() && range_start(entries@[j].1) <= i < range_start(entries@[j].1) + range_count(entries@[j].1)
                ==> #[trigger] s[i].0 == (#[trigger] map_entries_view(entries@)[j]).0,
            index < n && entries@.len() > 0 ==> forall|j: int| 0 <= j < entries@.len() ==> crate::text::seq_less(#[trigger] entries@[j].0@, s[index as int].0),
            index < n && index > 0 ==> s[index - 1].0 != s[index as int].0,
            forall|i: int| 0 < i < index && run_start_at(s, i) ==> i <= u32::MAX,
            forall|i: int, k: int| 0 <= i < k < index && s[i].0 == s[k].0 ==> k - i < u32::MAX,
        decreases n - index,
    {
        let key: Vec<char> = sorted[index].0.clone();
        proof {
            assert(key@ == s[index as int].0);
        }
        if index > 4294967295usize {
            proof {
                assert(run_start_at(s, index as int));
                assert forall|i: int| 0 <= i <= u32::MAX implies !long_run_at(s, i) by {
                    if long_run_at(s, i) {
                        let k = i + u32::MAX;
                        if k < index {
                            assert(s[i].0 == s[k].0);
                        } else {
                            lemma_sorted_between(s, i, index - 1, k);
                            lemma_sorted_between(s, i, index as int, k);
                        }
                    }
                }
            }
            return Err(IndexError::InvalidData("suggest postings exceed u32 range".to_string()));
        }
        let start = index;
        let mut count: u32 = 0;
        let ghost entries_before = map_entries_view(entries@);
        assert(forall|j: int| 0 <= j < entries_before.len() ==> crate::text::seq_less(#[trigger] entries_before[j].0, key@));
        while index < n && crate::text::compare_chars(&sorted[index].0, &key) == 0
            invariant
                n == sorted@.len(),
                s == pair_views(sorted@),
                sorted_pairs(s),
                start <= index <= n,
                start <= u32::MAX,
                key@ == s[start as int].0,
                count as int == index - start,
                postings@.len() == 4 * index,
                forall|i: int| 0 <= i < index ==> ordinal_at(postings@, i) == Some(s[i].1),
                forall|i: int| start <= i < index ==> s[i].0 == key@,
                start > 0 ==> s[start - 1].0 != key@,
                forall|i: int| 0 < i < start && run_start_at(s, i) ==> i <= u32::MAX,
                forall|i: int, k: int| 0 <= i < k < index && s[i].0 == s[k].0 ==> k - i < u32::MAX,
            decreases n - index,
        {
            proof {
                assert(sorted@[index as int].0@ == s[index as int].0);
            }
            if count == 4294967295u32 {
                proof {
                    assert(s[start as int].0 == s[start + u32::MAX].0);
                    assert(long_run_at(s, start as int));
                    assert forall|j: int| 0 <= j < start implies !long_run_at(s, j) by {
                        if long_run_at(s, j) {
                            assert(j + u32::MAX < index);
                            assert(s[j].0 == s[j + u32::MAX].0);
                        }
                    }
                    assert(s[start as int].0 == key@);
                }
                let mut msg: Vec<char> = Vec::new();
                push_str(&mut msg, "suggest postings for normalized key `");
                crate::text::push_all(&mut msg, &key);
                push_str(&mut msg, "` exceed u32 range");
                return Err(IndexError::InvalidData(string_of(&msg)));
            }
            let ghost before = postings@;
            push_ordinal_le(&mut postings, sorted[index].1);
            proof {
                assert(4 * index as int / 4 == index);
                assert forall|i: int| 0 <= i < index + 1 implies ordinal_at(postings@, i) == Some(s[i].1) by {
                    if i < index {
                        assert(ordinal_at(before, i) == Some(s[i].1));
                        assert(postings@[4 * i] == before[4 * i]);
                        assert(postings@[4 * i + 1] == before[4 * i + 1]);
                        assert(postings@[4 * i + 2] == before[4 * i + 2]);
                        assert(postings@[4 * i + 3] == before[4 * i + 3]);
                    }
                }
                assert forall|i: int, k: int| 0 <= i < k < index + 1 && s[i].0 == s[k].0 implies k - i < u32::MAX by {
                    if k == index && i < start {
                        let x = s[start - 1].0;
                        assert(pair_le(s[i], s[start - 1]) || i == start - 1);
                        assert(pair_le(s[start - 1], s[k]));
                        if i < start - 1 {
                            assert(crate::text::seq_less(key@, x));
                        }
                        assert(crate::text::seq_less(x, key@));
                        if i < start - 1 {
                            crate::text::lemma_seq_less_asymmetric(x, key@);
                        }
                    }
                }
            }
            count += 1;
            index += 1;
        }
        let ghost old_entries = map_entries_view(entries@);
        let packed_range = pack_posting_range(start as u32, count);
        let key_string = string_of(&key);
        entries.push((key_string, packed_range));
        proof {
            let ne = map_entries_view(entries@);
            assert(ne =~= old_entries.push((key@, packed_range)));
            assert(range_start(packed_range) == start) by (nonlinear_arith)
                requires packed_range as int == start as int * 0x1_0000_0000 + count as int, count < 0x1_0000_0000;
            assert(range_count(packed_range) == count) by (nonlinear_arith)
                requires packed_range as int == start as int * 0x1_0000_0000 + count as int, count < 0x1_0000_0000;
            assert(count >= 1) by {
                assert(s[start as int].0 == key@);
            }
            let ek = entry_keys(ne);
            assert(old_entries == entries_before);
            assert forall|a: int, b: int| 0 <= a < b < ek.len() implies crate::text::seq_less(ek[a], ek[b]) by {
                assert(ek[a] == old_entries[a].0);
                if b == ek.len() - 1 {
                    assert(ek[b] == key@);
                } else {
                    assert(ek[b] == old_entries[b].0);
                    assert(entry_keys(old_entries)[a] == ek[a]);
                    assert(entry_keys(old_entries)[b] == ek[b]);
                }
            }
            if index < n {
                assert(s[index - 1].0 == key@);
                assert(pair_le(s[index - 1], s[index as int]));
                assert(crate::text::seq_less(key@, s[index as int].0));
                assert forall|j: int| 0 <= j < entries@.len() implies crate::text::seq_less(#[trigger] entries@[j].0@, s[index as int].0) by {
                    if j < entries@.len() - 1 {
                        crate::text::lemma_seq_less_transitive(entries@[j].0@, key@, s[index as int].0);
                    }
                }
            }
            assert forall|j: int, i: int| 0 <= j < entries@.len() && range_start(entries@[j].1) <= i < range_start(entries@[j].1) + range_count(entries@[j].1)
                implies #[trigger] s[i].0 == (#[trigger] map_entries_view(entries@)[j]).0 by {
                if j < entries@.len() - 1 {
                    assert(map_entries_view(entries@)[j] == old_entries[j]);
                }
            }
            assert forall|i: int| 0 < i < index && run_start_at(s, i) implies i <= u32::MAX by {
                if i > start {
                    assert(s[i - 1].0 == key@);
                }
            }
        }
    }
    proof {
        assert forall|i: int| 0 <= i && i + u32::MAX < s.len() implies s[i].0 != #[trigger] s[i + u32::MAX].0 by {
        }
    }
    Ok((entries, postings))
}

/// Merges two sorted lists into one sorted list holding both.
fn merge_sorted(a: Vec<KeyedOrdinal>, b: Vec<KeyedOrdinal>) -> (r: Vec<KeyedOrdinal>)
    requires
        sorted_pairs(pair_views(a@)),
        sorted_pairs(pair_views(b@)),
    ensures
        sorted_pairs(pair_views(r@)),
        pair_views(r@).to_multiset() == pair_views(a@).to_multiset().add(pair_views(b@).to_multiset()),
{
    broadcast use vstd::seq_lib::group_to_multiset_ensures;
    let ghost pa = pair_views(a@);
    let ghost pb = pair_views(b@);
    let mut a = a;
    let mut b = b;
    let mut d: Vec<KeyedOrdinal> = Vec::new();
    while a.len() > 0 || b.len() > 0
        invariant
            a@.len() <= pa.len(),
            b@.len() <= pb.len(),
            pair_views(a@) == pa.take(a@.len() as int),
            pair_views(b@) == pb.take(b@.len() as int),
            sorted_pairs(pa),
            sorted_pairs(pb),
            descending_pairs(pair_views(d@)),
            d@.len() > 0 && a@.len() > 0 ==> pair_le(pa[a@.len() - 1], pair_views(d@).last()),
            d@.len() > 0 && b@.len() > 0 ==> pair_le(pb[b@.len() - 1], pair_views(d@).last()),
            pair_views(d@).to_multiset() == pa.skip(a@.len() as int).to_multiset().add(pb.skip(b@.len() as int).to_multiset()),
        decreases a@.len() + b@.len(),
    {
        let take_a = if b.len() == 0 {
            true
        } else if a.len() == 0 {
            false
        } else {
            pair_le_exec(&b[b.len() - 1], &a[a.len() - 1])
        };
        let ghost na = a@.len() as int;
        let ghost nb = b@.len() as int;
        let ghost dv = pair_views(d@);
        let x = if take_a { a.pop().unwrap() } else { b.pop().unwrap() };
        proof {
            let xv = pair_view(x);
            if take_a {
                assert(xv == pa.take(na)[na - 1]);
                assert(xv == pa[na - 1]);
                assert(pair_views(a@) =~= pa.take(na - 1));
                assert(pa.skip(na - 1) =~= seq![xv] + pa.skip(na));
                lemma_cons_multiset(xv, pa.skip(na));
                if nb > 0 {
                    assert(pair_views(b@)[nb - 1] == pb[nb - 1]);
                    lemma_pair_le_total(pb[nb - 1], xv);
                }
            } else {
                assert(xv == pb.take(nb)[nb - 1]);
                assert(xv == pb[nb - 1]);
                assert(pair_views(b@) =~= pb.take(nb - 1));
                assert(pb.skip(nb - 1) =~= seq![xv] + pb.skip(nb));
                lemma_cons_multiset(xv, pb.skip(nb));
                if na > 0 {
                    assert(pair_views(a@)[na - 1] == pa[na - 1]);
                    lemma_pair_le_total(pa[na - 1], xv);
                }
            }
        }
        d.push(x);
        proof {
            let xv = pair_view(x);
            let nd = pair_views(d@);
            assert(nd =~= dv.push(xv));
            dv.to_multiset_ensures();
            assert(nd.to_multiset() =~= dv.to_multiset().insert(xv));
            let ma = pa.skip(a@.len() as int).to_multiset();
            let mb = pb.skip(b@.len() as int).to_multiset();
            if take_a {
                assert(ma =~= pa.skip(na).to_multiset().insert(xv));
                assert(mb =~= pb.skip(nb).to_multiset());
            } else {
                assert(ma =~= pa.skip(na).to_multiset());
                assert(mb =~= pb.skip(nb).to_multiset().insert(xv));
            }
            assert(nd.to_multiset() =~= ma.add(mb));
            assert forall|i: int, j: int| 0 <= i < j < nd.len() implies pair_le(nd[j], nd[i]) by {
                if j == nd.len() - 1 {
                    if i < dv.len() - 1 {
                        lemma_pair_le_trans(xv, dv.last(), dv[i]);
                    }
                }
            }
            if a@.len() > 0 {
                if take_a {
                    assert(pair_le(pa[a@.len() - 1], pa[na - 1]));
                } else {
                    assert(pair_le(pa[a@.len() - 1], xv));
                }
            }
            if b@.len() > 0 {
                if !take_a {
                    assert(pair_le(pb[b@.len() - 1], pb[nb - 1]));
                } else {
                    assert(pair_le(pb[b@.len() - 1], xv));
                }
            }
        }
    }
    proof {
        assert(pa.skip(0) =~= pa);
        assert(pb.skip(0) =~= pb);
    }
    let ghost dd = pair_views(d@);
    let mut r: Vec<KeyedOrdinal> = Vec::new();
    while d.len() > 0
        invariant
            d@.len() <= dd.len(),
            pair_views(d@) == dd.take(d@.len() as int),
            pair_views(r@) == dd.skip(d@.len() as int).reverse(),
        decreases d@.len(),
    {
        let ghost n = d@.len() as int;
        let x = d.pop().unwrap();
        proof {
            assert(pair_view(x) == dd.take(n)[n - 1]);
            assert(pair_views(d@) =~= dd.take(n - 1));
        }
        let ghost rv = pair_views(r@);
        r.push(x);
        proof {
            assert(dd.skip(n - 1).reverse() =~= dd.skip(n).reverse().push(dd[n - 1]));
            assert(pair_views(r@) =~= rv.push(pair_view(x)));
        }
    }
    proof {
        assert(dd.skip(0) =~= dd);
        lemma_reverse_multiset(dd);
        let rr = pair_views(r@);
        assert forall|i: int, j: int| 0 <= i < j < rr.len() implies pair_le(rr[i], rr[j]) by {
            assert(rr[i] == dd[dd.len() - 1 - i]);
            assert(rr[j] == dd[dd.len() - 1 - j]);
        }
    }
    r
}

/// Sorts by normalized key, then ordinal (merge sort).
pub fn sort_pairs(v: Vec<KeyedOrdinal>) -> (r: Vec<KeyedOrdinal>)
    ensures
        sorted_pairs(pair_views(r@)),
        pair_views(r@).to_multiset() == pair_views(v@).to_multiset(),
    decreases v@.len(),
{
    if v.len() <= 1 {
        return v;
    }
    let ghost pv = pair_views(v@);
    let mut left = v;
    let mid = left.len() / 2;
    let right = left.split_off(mid);
    proof {
        assert(pair_views(left@) =~= pv.subrange(0, mid as int));
        assert(pair_views(right@) =~= pv.subrange(mid as int, pv.len() as int));
        assert(pv =~= pv.subrange(0, mid as int) + pv.subrange(mid as int, pv.len() as int));
        vstd::seq_lib::lemma_multiset_commutative(pv.subrange(0, mid as int), pv.subrange(mid as int, pv.len() as int));
    }
    let sl = sort_pairs(left);
    let sr = sort_pairs(right);
    merge_sorted(sl, sr)
}

/// The characters of each resolved key, `None` where an ordinal named no key.
pub open spec fn resolved_view(v: Seq<Option<String>>) -> Seq<Option<Seq<char>>> {
    v.map_values(|o: Option<String>| match o {
        Some(k) => Some(k@),
        None => None,
    })
}

/// What `out` becomes once the keys resolved for `ordinals` are taken in
/// order, each added unless already present, stopping as soon as `out`
/// holds `limit` keys; `Err` with the ordinal that resolved to no key.
pub open spec fn absorbed(out: Seq<Seq<char>>, ordinals: Seq<u64>, resolved: Seq<Option<Seq<char>>>, limit: int) -> Result<Seq<Seq<char>>, u64>
    decreases resolved.len(),
{
    if resolved.len() == 0 || ordinals.len() == 0 {
        Ok(out)
    } else {
        match resolved[0] {
            None => Err(ordinals[0]),
            Some(k) => {
                let next = if out.contains(k) { out } else { out.push(k) };
                if next.len() >= limit {
                    Ok(next)
                } else {
                    absorbed(next, ordinals.drop_first(), resolved.drop_first(), limit)
                }
            },
        }
    }
}

pub open spec fn no_key_message(ordinal: u64) -> Seq<char> {
    "ordinal "@ + crate::text::decimal(ordinal as nat) + " resolved to no key in source dictionary"@
}

/// Absorbing keys only appends new keys, and stops at the limit.
pub proof fn lemma_absorbed_grows(out: Seq<Seq<char>>, ordinals: Seq<u64>, resolved: Seq<Option<Seq<char>>>, limit: int)
    requires
        out.no_duplicates(),
        out.len() < limit,
    ensures
        absorbed(out, ordinals, resolved, limit) matches Ok(o) ==> {
            &&& o.no_duplicates()
            &&& out.len() <= o.len() <= limit
            &&& o.subrange(0, out.len() as int) == out
        },
    decreases resolved.len(),
{
    if resolved.len() > 0 && ordinals.len() > 0 {
        if let Some(k) = resolved[0] {
            let next = if out.contains(k) { out } else { out.push(k) };
            if !out.contains(k) {
                assert forall|i: int, j: int| 0 <= i < j < next.len() implies next[i] != next[j] by {
                    if j == next.len() - 1 {
                        assert(out[i] == next[i]);
                    }
                }
            }
            if next.len() < limit {
                lemma_absorbed_grows(next, ordinals.drop_first(), resolved.drop_first(), limit);
                if let Ok(o) = absorbed(next, ordinals.drop_first(), resolved.drop_first(), limit) {
                    assert(o.subrange(0, out.len() as int) =~= next.subrange(0, out.len() as int));
                }
            }
            assert(next.subrange(0, out.len() as int) =~= out);
        }
    }
}


/// Absorbing two stretches of resolved keys in turn is absorbing them at once:
/// the first stretch decides unless it ends below the limit.
pub proof fn lemma_absorbed_concat(
    out: Seq<Seq<char>>,
    o1: Seq<u64>,
    r1: Seq<Option<Seq<char>>>,
    o2: Seq<u64>,
    r2: Seq<Option<Seq<char>>>,
    limit: int,
)
    requires
        o1.len() == r1.len(),
        out.len() < limit,
    ensures
        match absorbed(out, o1, r1, limit) {
            Err(o) => absorbed(out, o1 + o2, r1 + r2, limit) == Err::<Seq<Seq<char>>, u64>(o),
            Ok(b) => if b.len() >= limit {
                absorbed(out, o1 + o2, r1 + r2, limit) == Ok::<Seq<Seq<char>>, u64>(b)
            } else {
                absorbed(out, o1 + o2, r1 + r2, limit) == absorbed(b, o2, r2, limit)
            },
        },
    decreases o1.len(),
{
    if o1.len() == 0 {
        assert(o1 + o2 =~= o2);
        assert(r1 + r2 =~= r2);
    } else {
        assert((o1 + o2)[0] == o1[0]);
        assert((r1 + r2)[0] == r1[0]);
        assert((o1 + o2).drop_first() =~= o1.drop_first() + o2);
        assert((r1 + r2).drop_first() =~= r1.drop_first() + r2);
        if let Some(k) = r1[0] {
            let next = if out.contains(k) { out } else { out.push(k) };
            if next.len() < limit {
                lemma_absorbed_concat(next, o1.drop_first(), r1.drop_first(), o2, r2, limit);
            }
        }
    }
}

/// The ordinal an absorption fails on is one of the ordinals absorbed.
pub proof fn lemma_absorbed_error_names_an_ordinal(out: Seq<Seq<char>>, ordinals: Seq<u64>, resolved: Seq<Option<Seq<char>>>, limit: int)
    ensures
        absorbed(out, ordinals, resolved, limit) matches Err(o) ==> exists|i: int| 0 <= i < ordinals.len() && ordinals[i] == o,
    decreases resolved.len(),
{
    if resolved.len() > 0 && ordinals.len() > 0 {
        if let Some(k) = resolved[0] {
            let next = if out.contains(k) { out } else { out.push(k) };
            lemma_absorbed_error_names_an_ordinal(next, ordinals.drop_first(), resolved.drop_first(), limit);
            if let Err(o) = absorbed(next, ordinals.drop_first(), resolved.drop_first(), limit) {
                if next.len() < limit {
                    let i = choose|i: int| 0 <= i < ordinals.drop_first().len() && ordinals.drop_first()[i] == o;
                    assert(ordinals[i + 1] == o);
                }
            }
        } else {
            assert(ordinals[0] == ordinals[0]);
        }
    }
}

fn contains_string(v: &Vec<String>, k: &String) -> (b: bool)
    ensures
        b == crate::text::strings_view(v@).contains(k@),
{
    let mut i: usize = 0;
    while i < v.len()
        invariant
            i <= v@.len(),
            forall|j: int| 0 <= j < i ==> v@[j]@ != k@,
        decreases v@.len() - i,
    {
        if v[i] == *k {
            proof {
                assert(crate::text::strings_view(v@)[i as int] == k@);
            }
            return true;
        }
        i += 1;
    }
    proof {
        if crate::text::strings_view(v@).contains(k@) {
            let j = choose|j: int| 0 <= j < v@.len() && crate::text::strings_view(v@)[j] == k@;
            assert(v@[j]@ == k@);
        }
    }
    false
}

fn message_with_number(before: &str, n: u64, after: &str) -> (m: String)
    ensures
        m@ == before@ + crate::text::decimal(n as nat) + after@,
{
    let mut msg: Vec<char> = Vec::new();
    push_str(&mut msg, before);
    let digits = crate::text::decimal_chars(n as u128);
    crate::text::push_all(&mut msg, &digits);
    push_str(&mut msg, after);
    string_of(&msg)
}

/// Takes the keys resolved for `ordinals` into `out` in order, skipping keys
/// already there and stopping once `out` holds `limit` keys.
pub fn absorb_resolved_keys(ordinals: &Vec<u64>, resolved: &Vec<Option<String>>, out: &mut Vec<String>, limit: usize) -> (r: Result<(), IndexError>)
    requires
        ordinals@.len() == resolved@.len(),
    ensures
        match absorbed(crate::text::strings_view(old(out)@), ordinals@, resolved_view(resolved@), limit as int) {
            Ok(o) => r is Ok && crate::text::strings_view(final(out)@) == o,
            Err(ordinal) => r matches Err(e) && is_invalid_data(e, no_key_message(ordinal)),
        },
{
    let ghost target = absorbed(crate::text::strings_view(out@), ordinals@, resolved_view(resolved@), limit as int);
    let mut i: usize = 0;
    proof {
        assert(ordinals@.skip(0) =~= ordinals@);
        assert(resolved_view(resolved@).skip(0) =~= resolved_view(resolved@));
    }
    while i < resolved.len()
        invariant
            ordinals@.len() == resolved@.len(),
            i <= resolved@.len(),
            target == absorbed(crate::text::strings_view(old(out)@), ordinals@, resolved_view(resolved@), limit as int),
            target == absorbed(crate::text::strings_view(out@), ordinals@.skip(i as int), resolved_view(resolved@).skip(i as int), limit as int),
        decreases resolved@.len() - i,
    {
        let ghost cur = crate::text::strings_view(out@);
        proof {
            assert(resolved_view(resolved@).skip(i as int)[0] == resolved_view(resolved@)[i as int]);
            assert(ordinals@.skip(i as int)[0] == ordinals@[i as int]);
            assert(resolved_view(resolved@).skip(i as int).drop_first() =~= resolved_view(resolved@).skip(i + 1));
            assert(ordinals@.skip(i as int).drop_first() =~= ordinals@.skip(i + 1));
        }
        match &resolved[i] {
            None => {
                proof {
                    assert(resolved_view(resolved@)[i as int] is None);
                }
                return Err(IndexError::InvalidData(message_with_number("ordinal ", ordinals[i], " resolved to no key in source dictionary")));
            },
            Some(k) => {
                proof {
                    assert(resolved_view(resolved@)[i as int] == Some(k@));
                }
                if !contains_string(out, k) {
                    out.push(k.clone());
                    proof {
                        assert(crate::text::strings_view(out@) =~= cur.push(k@));
                    }
                }
            },
        }
        if out.len() >= limit {
            return Ok(());
        }
        i += 1;
    }
    proof {
        assert(resolved_view(resolved@).skip(i as int).len() == 0);
    }
    Ok(())
}


/// The posting indexes a suggestion walk visits for one packed range: from
/// its start, `count` of them (the end saturating at `usize::MAX`).
pub open spec fn range_positions(start: int, count: int) -> Seq<int> {
    let end = if start + count > usize::MAX { usize::MAX as int } else { start + count };
    Seq::new(if end > start { (end - start) as nat } else { 0nat }, |k: int| start + k)
}

/// The posting indexes of a list of packed ranges, range after range.
pub open spec fn posting_positions(values: Seq<u64>) -> Seq<int>
    decreases values.len(),
{
    if values.len() == 0 {
        seq![]
    } else {
        posting_positions(values.drop_last()) + range_positions(range_start(values.last()), range_count(values.last()))
    }
}

/// The ordinals stored at `positions` of a postings array.
pub open spec fn ordinal_seq(postings: Seq<u8>, positions: Seq<int>) -> Seq<u64> {
    positions.map_values(|p: int| match ordinal_at(postings, p) {
        Some(o) => o as u64,
        None => 0u64,
    })
}

/// `out` is a suggestion answer for the postings at `positions`: for some
/// first `n` of them, all holding an ordinal, and the key (or none) that the
/// dictionary file answered when asked for each ordinal, `out` is what
/// absorbing those keys in order gives (first occurrences kept); the walk
/// stopped early only once `out` held `limit` keys.
pub open spec fn suggested(postings: Seq<u8>, positions: Seq<int>, limit: int, out: Seq<Seq<char>>) -> bool {
    exists|n: int, resolved: Seq<Option<Seq<char>>>| {
        &&& 0 <= n <= positions.len()
        &&& resolved.len() == n
        &&& (forall|k: int| 0 <= k < n ==> (#[trigger] ordinal_at(postings, positions[k])) is Some)
        &&& #[trigger] absorbed(seq![], ordinal_seq(postings, positions.take(n)), resolved, limit) == Ok::<Seq<Seq<char>>, u64>(out)
        &&& (n == positions.len() || out.len() >= limit)
    }
}

pub open spec fn posting_message(p: int) -> Seq<char> {
    "posting index "@ + crate::text::decimal(p as nat) + " is out of range for suggest postings"@
}

proof fn lemma_positions_prefix_of_take(values: Seq<u64>, m: int)
    requires
        0 <= m <= values.len(),
    ensures
        posting_positions(values.take(m)).len() <= posting_positions(values).len(),
        posting_positions(values).take(posting_positions(values.take(m)).len() as int) == posting_positions(values.take(m)),
    decreases values.len() - m,
{
    if m == values.len() {
        assert(values.take(m) =~= values);
        assert(posting_positions(values).take(posting_positions(values).len() as int) =~= posting_positions(values));
    } else {
        lemma_positions_prefix_of_take(values, m + 1);
        assert(values.take(m + 1).drop_last() =~= values.take(m));
        let a = posting_positions(values.take(m));
        let b = posting_positions(values.take(m + 1));
        assert(b.take(a.len() as int) =~= a);
        assert(posting_positions(values).take(a.len() as int) =~= b.take(a.len() as int));
    }
}

/// What a walk has visited when it is at index `j` of range `v` is where
/// every walk over these ranges begins.
proof fn lemma_walk_prefix(values: Seq<u64>, v: int, j: int)
    requires
        0 <= v < values.len(),
        0 <= j <= range_positions(range_start(values[v]), range_count(values[v])).len(),
    ensures
        ({
            let c = posting_positions(values.take(v)) + range_positions(range_start(values[v]), range_count(values[v])).take(j);
            c.len() <= posting_positions(values).len() && posting_positions(values).take(c.len() as int) == c
        }),
{
    lemma_positions_prefix_of_take(values, v + 1);
    assert(values.take(v + 1).drop_last() =~= values.take(v));
    assert(values.take(v + 1).last() == values[v]);
    let c = posting_positions(values.take(v)) + range_positions(range_start(values[v]), range_count(values[v])).take(j);
    let b = posting_positions(values.take(v + 1));
    assert(b.take(c.len() as int) =~= c);
    assert(posting_positions(values).take(c.len() as int) =~= b.take(c.len() as int));
}

/// Why an index of `entries` cannot be built, as the message `m` says: the
/// first indexed key whose ordinal exceeds 32 bits, or postings whose ranges
/// do not fit in 32 bits.
pub open spec fn build_refused(m: Seq<char>, entries: Seq<(Seq<char>, u64)>, case_sensitive: bool, strip_key: bool) -> bool {
    ||| exists|i: int| {
        &&& 0 <= i < entries.len()
        &&& wide_ordinal_at(entries, case_sensitive, strip_key, i)
        &&& forall|j: int| 0 <= j < i ==> !wide_ordinal_at(entries, case_sensitive, strip_key, j)
        &&& m == wide_ordinal_message(entries[i].1)
    }
    ||| forall|s: Seq<(Seq<char>, u32)>| sorted_pairs(s) && #[trigger] s.to_multiset() == kept_pairs(entries, case_sensitive, strip_key).to_multiset()
        ==> !postings_fit(s)
}

/// The suggestion index of one dictionary: an FST map from normalized keys
/// to packed posting ranges, and the postings array of key ordinals.
#[derive(Debug)]
pub struct DictionarySuggestIndex {
    map: fst::Map<Vec<u8>>,
    postings: Vec<u8>,
    metadata: DictionaryIndexMetadata,
}

/// The index of `kept` (pairs in any order): sorted, then grouped into
/// `entries` and `postings`.
pub open spec fn index_of_pairs(kept: Seq<(Seq<char>, u32)>, entries: Seq<(Seq<char>, u64)>, postings: Seq<u8>) -> bool {
    exists|s: Seq<(Seq<char>, u32)>| {
        &&& sorted_pairs(s)
        &&& #[trigger] s.to_multiset() == kept.to_multiset()
        &&& postings_fit(s)
        &&& groups_of(s, entries, postings)
    }
}

pub open spec fn utf8_key_entries(entries: Seq<(Seq<char>, u64)>) -> Seq<(Seq<u8>, u64)> {
    entries.map_values(|e: (Seq<char>, u64)| (vstd::utf8::encode_utf8(e.0), e.1))
}

/// Keys that ascend as characters ascend as UTF-8 bytes too.
proof fn lemma_ascending_keys_ascend_as_bytes(entries: Seq<(String, u64)>)
    requires
        crate::text::strictly_ascending(entry_keys(map_entries_view(entries))),
    ensures
        utf8_keys_ascending(entries),
{
    let keys = entry_keys(map_entries_view(entries));
    assert forall|i: int| 0 < i < entries.len() implies crate::text::bytes_less(
        vstd::utf8::encode_utf8(entries[i - 1].0@),
        vstd::utf8::encode_utf8(#[trigger] entries[i].0@),
    ) by {
        assert(keys[i - 1] == entries[i - 1].0@);
        assert(keys[i] == entries[i].0@);
        crate::text::lemma_utf8_keeps_order(keys[i - 1], keys[i]);
    }
}

fn copy_bytes(v: &Vec<u8>) -> (r: Vec<u8>)
    ensures
        r@ == v@,
{
    let mut out: Vec<u8> = Vec::new();
    let mut i: usize = 0;
    while i < v.len()
        invariant
            i <= v@.len(),
            out@ == v@.take(i as int),
        decreases v@.len() - i,
    {
        assert(v@.take(i + 1) == v@.take(i as int).push(v@[i as int]));
        out.push(v[i]);
        i += 1;
    }
    assert(v@.take(v@.len() as int) == v@);
    out
}

impl DictionarySuggestIndex {
    /// The map was laid out by `fst`'s builder, so it can be read, and the
    /// postings are whole 4-byte ordinals.
    #[verifier::type_invariant]
    spec fn well_formed(self) -> bool {
        &&& fst_readable(self.map)
        &&& self.postings@.len() % 4 == 0
    }

    pub closed spec fn postings_view(&self) -> Seq<u8> {
        self.postings@
    }

    pub closed spec fn metadata_view(&self) -> DictionaryIndexMetadata {
        self.metadata
    }

    /// The (UTF-8 key, packed range) pairs of the FST map.
    pub closed spec fn map_view(&self) -> Seq<(Seq<u8>, u64)> {
        fst_map_entries(self.map)
    }

    /// The index was built, with `metadata`, from the dictionary keys
    /// `entries` (each with its ordinal): no indexed ordinal exceeds 32 bits,
    /// and the postings and the FST entries are the index of the kept pairs.
    pub open spec fn built_from(&self, entries: Seq<(Seq<char>, u64)>, metadata: DictionaryIndexMetadata, case_sensitive: bool, strip_key: bool) -> bool {
        &&& self.metadata_view() == metadata
        &&& forall|i: int| 0 <= i < entries.len() ==> !wide_ordinal_at(entries, case_sensitive, strip_key, i)
        &&& exists|e: Seq<(Seq<char>, u64)>| {
            &&& index_of_pairs(kept_pairs(entries, case_sensitive, strip_key), e, self.postings_view())
            &&& #[trigger] utf8_key_entries(e) == self.map_view()
        }
    }

    /// Builds the index of a dictionary's keys (with their ordinals): keys
    /// normalized, empty ones dropped, sorted, grouped into posting ranges.
    pub fn build_from_entries(entries: &Vec<(String, u64)>, metadata: DictionaryIndexMetadata, case_sensitive: bool, strip_key: bool) -> (r: Result<Self, IndexError>)
        ensures
            match r {
                Ok(ix) => ix.built_from(entries_view(entries@), metadata, case_sensitive, strip_key),
                Err(IndexError::InvalidData(m)) => build_refused(m@, entries_view(entries@), case_sensitive, strip_key),
                Err(_) => false,
            },
    {
        let pairs = match normalized_pairs(entries, case_sensitive, strip_key) {
            Ok(p) => p,
            Err(e) => {
                return Err(e);
            },
        };
        let ghost kept = pair_views(pairs@);
        let sorted = sort_pairs(pairs);
        let (map_entries, postings) = match group_postings(&sorted) {
            Ok(g) => g,
            Err(e) => {
                proof {
                    assert forall|t: Seq<(Seq<char>, u32)>| sorted_pairs(t) && #[trigger] t.to_multiset() == kept.to_multiset()
                        implies !postings_fit(t) by {
                        lemma_sorted_unique(t, pair_views(sorted@));
                    }
                }
                return Err(e);
            },
        };
        proof {
            lemma_ascending_keys_ascend_as_bytes(map_entries@);
        }
        let map = match fst_map_from_entries(&map_entries) {
            Ok(m) => m,
            Err(message) => {
                return Err(IndexError::Fst(message));
            },
        };
        proof {
            let e = map_entries_view(map_entries@);
            assert(utf8_key_entries(e) =~= utf8_entries(map_entries@));
            assert(index_of_pairs(kept, e, postings@));
        }
        Ok(DictionarySuggestIndex { map, postings, metadata })
    }

    /// Builds the index of a dictionary from its keys, read from the MDX file.
    pub fn build_from_mdx(mdx: &mdict_rs::MdxFile, metadata: DictionaryIndexMetadata, case_sensitive: bool, strip_key: bool) -> (r: Result<Self, IndexError>)
        ensures
            r matches Ok(ix) ==> exists|entries: Seq<(Seq<char>, u64)>| #[trigger] ix.built_from(entries, metadata, case_sensitive, strip_key),
            r matches Err(e) ==> e is Mdict || e is InvalidData,
            r matches Err(IndexError::InvalidData(m)) ==> exists|entries: Seq<(Seq<char>, u64)>| #[trigger] build_refused(m@, entries, case_sensitive, strip_key),
    {
        match mdx_keys_with_ordinals(mdx) {
            Ok(entries) => Self::build_from_entries(&entries, metadata, case_sensitive, strip_key),
            Err(message) => Err(IndexError::Mdict(message)),
        }
    }

    /// An index read back from its stored files: the FST map's bytes, the
    /// postings array and the metadata it was built with.
    /// The map bytes must be those of a map that `fst`'s builder laid out
    /// (as `map_bytes` gives them), since reading other bytes may panic.
    pub fn from_parts(map_bytes: Vec<u8>, postings: Vec<u8>, metadata: DictionaryIndexMetadata) -> (r: Result<Self, IndexError>)
        requires
            exists|w: fst::Map<Vec<u8>>| fst_readable(w) && #[trigger] fst_map_bytes(w) == map_bytes@,
        ensures
            postings@.len() % 4 == 0 <==> r is Ok,
            postings@.len() % 4 != 0 ==> (r matches Err(e) && is_invalid_data(e, "suggest postings byte length "@ + crate::text::decimal(postings@.len()) + " is not aligned to 4"@)),
            r matches Ok(ix) ==> ix.postings_view() == postings@ && ix.metadata_view() == metadata
                && ix.map_view() == fst_decoded_entries(map_bytes@),
    {
        if postings.len() % POSTING_ORDINAL_BYTES != 0 {
            return Err(IndexError::InvalidData(message_with_number(
                "suggest postings byte length ",
                postings.len() as u64,
                " is not aligned to 4",
            )));
        }
        match fst_map_from_bytes(map_bytes) {
            Ok(map) => Ok(DictionarySuggestIndex { map, postings, metadata }),
            Err(message) => Err(IndexError::Fst(message)),
        }
    }

    /// The index read back from the parts it is stored as (its map bytes,
    /// its postings and its metadata): the same map, postings and metadata.
    pub fn read_back(&self) -> (r: Result<Self, IndexError>)
        ensures
            r matches Ok(ix) && ix.map_view() == self.map_view() && ix.postings_view() == self.postings_view()
                && ix.metadata_view().same_as(&self.metadata_view()),
    {
        proof {
            use_type_invariant(self);
        }
        let bytes = self.map_bytes();
        let postings = copy_bytes(&self.postings);
        let m = &self.metadata;
        let metadata = DictionaryIndexMetadata {
            format_version: m.format_version,
            dictionary_id: m.dictionary_id.clone(),
            mdx_size: m.mdx_size,
            mdx_modified_millis: m.mdx_modified_millis,
            entry_count: m.entry_count,
        };
        DictionarySuggestIndex::from_parts(bytes, postings, metadata)
    }

    pub fn metadata(&self) -> (m: &DictionaryIndexMetadata)
        ensures
            *m == self.metadata_view(),
    {
        &self.metadata
    }

    /// The serialized bytes of the FST map, for writing it out; they decode
    /// to the map's entries.
    pub fn map_bytes(&self) -> (b: Vec<u8>)
        ensures
            fst_decoded_entries(b@) == self.map_view(),
            exists|w: fst::Map<Vec<u8>>| fst_readable(w) && #[trigger] fst_map_bytes(w) == b@,
    {
        proof {
            use_type_invariant(self);
        }
        fst_bytes_of(&self.map)
    }

    /// The FST map.
    pub fn fst_map(&self) -> (m: &fst::Map<Vec<u8>>)
        ensures
            fst_map_entries(*m) == self.map_view(),
    {
        &self.map
    }

    /// The postings array, for writing it out.
    pub fn postings(&self) -> (p: &Vec<u8>)
        ensures
            p@ == self.postings_view(),
    {
        &self.postings
    }

    /// The posting ranges (start, count) of the FST entries whose key begins
    /// with `prefix`, in key order.
    pub fn posting_ranges(&self, prefix: &str) -> (r: Vec<(usize, usize)>)
        ensures
            r@.len() == values_with_prefix(self.map_view(), vstd::utf8::encode_utf8(prefix@)).len(),
            forall|i: int| 0 <= i < r@.len() ==> {
                let v = values_with_prefix(self.map_view(), vstd::utf8::encode_utf8(prefix@))[i];
                &&& (#[trigger] r@[i]).0 as int == range_start(v)
                &&& r@[i].1 as int == range_count(v)
            },
    {
        proof {
            use_type_invariant(self);
        }
        let values = fst_prefix_values(&self.map, prefix);
        let mut r: Vec<(usize, usize)> = Vec::new();
        let mut i: usize = 0;
        while i < values.len()
            invariant
                i <= values@.len(),
                r@.len() == i,
                forall|k: int| 0 <= k < i ==> {
                    &&& (#[trigger] r@[k]).0 as int == range_start(values@[k])
                    &&& r@[k].1 as int == range_count(values@[k])
                },
            decreases values@.len() - i,
        {
            r.push(unpack_posting_range(values[i]));
            i += 1;
        }
        r
    }

    /// The posting indexes of the FST entries whose key begins with the
    /// normalized `query`, in key order.
    pub open spec fn matching_positions(&self, query: Seq<char>, case_sensitive: bool, strip_key: bool) -> Seq<int> {
        posting_positions(values_with_prefix(self.map_view(), vstd::utf8::encode_utf8(normalized_key(query, case_sensitive, strip_key))))
    }

    /// `out` answers a suggestion request: nothing for a zero limit or a
    /// query that normalizes to nothing, otherwise the keys resolved for the
    /// matching postings, absorbed in order up to `limit`.
    pub open spec fn suggestion_outcome(&self, query: Seq<char>, case_sensitive: bool, strip_key: bool, limit: int, out: Seq<Seq<char>>) -> bool {
        if limit <= 0 || normalized_key(query, case_sensitive, strip_key).len() == 0 {
            out.len() == 0
        } else {
            suggested(self.postings_view(), self.matching_positions(query, case_sensitive, strip_key), limit, out)
        }
    }

    /// Up to `limit` distinct dictionary keys whose normalized form begins
    /// with the normalized query, in the index's key order.
    pub fn suggest(&self, mdx: &mdict_rs::MdxFile, query: &str, case_sensitive: bool, strip_key: bool, limit: usize) -> (r: Result<Vec<String>, IndexError>)
        ensures
            r matches Ok(v) ==> self.suggestion_outcome(query@, case_sensitive, strip_key, limit as int, crate::text::strings_view(v@)),
            limit == 0 || normalized_key(query@, case_sensitive, strip_key).len() == 0
                || self.matching_positions(query@, case_sensitive, strip_key).len() == 0
                ==> (r matches Ok(v) && v@.len() == 0),
            r matches Ok(v) ==> v@.len() <= limit && crate::text::strings_view(v@).no_duplicates(),
            r matches Err(e) ==> e is InvalidData || e is Mdict,
            r matches Err(e) && e is Mdict ==> {
                let ps = self.matching_positions(query@, case_sensitive, strip_key);
                exists|k: int| 0 <= k < ps.len() && (#[trigger] ordinal_at(self.postings_view(), ps[k])) is Some
            },
            r matches Err(IndexError::InvalidData(m)) ==> {
                let ps = self.matching_positions(query@, case_sensitive, strip_key);
                ||| exists|k: int| 0 <= k < ps.len() && ordinal_at(self.postings_view(), ps[k]) is None && m@ == posting_message(ps[k])
                ||| exists|k: int| 0 <= k < ps.len() && m@ == no_key_message(ordinal_seq(self.postings_view(), ps)[k])
            },
    {
        if limit == 0 {
            return Ok(Vec::new());
        }
        let normalized = normalize_key(query, case_sensitive, strip_key);
        let normalized_chars = chars_of(normalized.as_str());
        if normalized_chars.len() == 0 {
            return Ok(Vec::new());
        }
        let ranges = self.posting_ranges(normalized.as_str());
        let ghost vals = values_with_prefix(self.map_view(), vstd::utf8::encode_utf8(normalized@));
        let ghost ps = self.matching_positions(query@, case_sensitive, strip_key);
        let ghost pv = self.postings@;
        assert(ps == posting_positions(vals));
        let mut out: Vec<String> = Vec::new();
        let mut pending: Vec<u64> = Vec::new();
        let batch_size = suggest_batch_size(limit);
        let ghost mut cons: Seq<int> = Seq::empty();
        let ghost mut a: int = 0;
        let ghost mut res: Seq<Option<Seq<char>>> = Seq::empty();
        proof {
            assert(vals.take(0) =~= Seq::<u64>::empty());
            assert(ordinal_seq(pv, cons).take(0) =~= Seq::<u64>::empty());
            assert(ordinal_seq(pv, cons).skip(0) =~= pending@);
            assert(crate::text::strings_view(out@) =~= Seq::<Seq<char>>::empty());
        }
        let mut v: usize = 0;
        while v < ranges.len()
            invariant
                0 < limit,
                pv == self.postings@,
                pv == self.postings_view(),
                ps == posting_positions(vals),
                ps == self.matching_positions(query@, case_sensitive, strip_key),
                normalized_key(query@, case_sensitive, strip_key).len() > 0,
                ranges@.len() == vals.len(),
                forall|k: int| 0 <= k < ranges@.len() ==> (#[trigger] ranges@[k]).0 as int == range_start(vals[k]) && ranges@[k].1 as int == range_count(vals[k]),
                v <= ranges@.len(),
                cons == posting_positions(vals.take(v as int)),
                forall|k: int| 0 <= k < cons.len() ==> (#[trigger] ordinal_at(pv, cons[k])) is Some,
                0 <= a <= cons.len(),
                res.len() == a,
                pending@ == ordinal_seq(pv, cons).skip(a),
                absorbed(seq![], ordinal_seq(pv, cons).take(a), res, limit as int) == Ok::<Seq<Seq<char>>, u64>(crate::text::strings_view(out@)),
                out@.len() < limit,
                crate::text::strings_view(out@).no_duplicates(),
            decreases ranges@.len() - v,
        {
            let (start, count) = ranges[v];
            let end = start.saturating_add(count);
            let ghost rp = range_positions(range_start(vals[v as int]), range_count(vals[v as int]));
            let ghost base = cons;
            assert(rp.len() == end - start);
            let mut posting_index = start;
            proof {
                assert(cons =~= base + rp.take(0));
            }
            while posting_index < end
                invariant
                    0 < limit,
                    pv == self.postings@,
                    pv == self.postings_view(),
                    ps == posting_positions(vals),
                    ps == self.matching_positions(query@, case_sensitive, strip_key),
                    normalized_key(query@, case_sensitive, strip_key).len() > 0,
                    v < vals.len(),
                    rp == range_positions(range_start(vals[v as int]), range_count(vals[v as int])),
                    base == posting_positions(vals.take(v as int)),
                    start as int == range_start(vals[v as int]),
                    rp.len() == end - start,
                    start <= posting_index <= end,
                    cons == base + rp.take(posting_index - start),
                    forall|k: int| 0 <= k < cons.len() ==> (#[trigger] ordinal_at(pv, cons[k])) is Some,
                    0 <= a <= cons.len(),
                    res.len() == a,
                    pending@ == ordinal_seq(pv, cons).skip(a),
                    absorbed(seq![], ordinal_seq(pv, cons).take(a), res, limit as int) == Ok::<Seq<Seq<char>>, u64>(crate::text::strings_view(out@)),
                    out@.len() < limit,
                    crate::text::strings_view(out@).no_duplicates(),
                decreases end - posting_index,
            {
                let ghost j = posting_index - start;
                proof {
                    assert(rp[j] == posting_index);
                    lemma_walk_prefix(vals, v as int, j + 1);
                    assert(rp.take(j + 1) =~= rp.take(j).push(posting_index as int));
                    assert(base + rp.take(j + 1) =~= cons.push(posting_index as int));
                }
                match posting_ordinal_at(&self.postings, posting_index) {
                    Some(ordinal) => {
                        pending.push(ordinal as u64);
                        proof {
                            let old_cons = cons;
                            cons = cons.push(posting_index as int);
                            assert(ordinal_seq(pv, cons) =~= ordinal_seq(pv, old_cons).push(ordinal as u64));
                            assert(ordinal_seq(pv, cons).take(a) =~= ordinal_seq(pv, old_cons).take(a));
                            assert(pending@ =~= ordinal_seq(pv, cons).skip(a));
                            assert forall|k: int| 0 <= k < cons.len() implies (#[trigger] ordinal_at(pv, cons[k])) is Some by {
                                if k < old_cons.len() {
                                    assert(cons[k] == old_cons[k]);
                                }
                            }
                        }
                    },
                    None => {
                        proof {
                            let c2 = cons.push(posting_index as int);
                            assert(base + rp.take(j + 1) == c2);
                            assert(ps.take(c2.len() as int) == c2);
                            let k = cons.len() as int;
                            assert(ps.take(c2.len() as int)[k] == ps[k]);
                            assert(ps[k] == posting_index);
                            assert(ordinal_at(pv, ps[k]) is None);
                            assert(ps.len() > 0);
                        }
                        return Err(IndexError::InvalidData(message_with_number(
                            "posting index ",
                            posting_index as u64,
                            " is out of range for suggest postings",
                        )));
                    },
                }
                if pending.len() >= batch_size {
                    let ghost o = ordinal_seq(pv, cons);
                    let ghost cur = crate::text::strings_view(out@);
                    proof {
                        assert(ps.take(cons.len() as int) == cons);
                    }
                    match hydrate_pending_keys(mdx, &mut pending, &mut out, limit) {
                        Ok(()) => {},
                        Err(e) => {
                            proof {
                                if e is InvalidData {
                                    let m = e->InvalidData_0;
                                    let i = choose|i: int| 0 <= i < o.skip(a).len() && m@ == no_key_message(o.skip(a)[i]);
                                    assert(o.skip(a)[i] == o[a + i]);
                                    assert(cons[a + i] == ps[a + i]);
                                    assert(ordinal_seq(pv, ps)[a + i] == o[a + i]);
                                }
                                if e is Mdict {
                                    assert(o.skip(a).len() > 0);
                                    assert(cons[a] == ps[a]);
                                    assert(ordinal_at(pv, ps[a]) is Some);
                                }
                            }
                            return Err(e);
                        },
                    }
                    proof {
                        let res2 = choose|res2: Seq<Option<Seq<char>>>| res2.len() == o.skip(a).len()
                            && #[trigger] absorbed(cur, o.skip(a), res2, limit as int) == Ok::<Seq<Seq<char>>, u64>(crate::text::strings_view(out@));
                        lemma_absorbed_concat(seq![], o.take(a), res, o.skip(a), res2, limit as int);
                        assert(o.take(a) + o.skip(a) =~= o);
                        assert(o.take(cons.len() as int) =~= o);
                        res = res + res2;
                        a = cons.len() as int;
                        assert(o.skip(a) =~= Seq::<u64>::empty());
                        assert(pending@ =~= o.skip(a));
                    }
                    if out.len() >= limit {
                        proof {
                            assert(ps.take(cons.len() as int) == cons);
                            assert(ordinal_seq(pv, ps.take(a)) == o);
                            assert forall|k: int| 0 <= k < a implies (#[trigger] ordinal_at(pv, ps[k])) is Some by {
                                assert(ps[k] == cons[k]);
                            }
                            assert(absorbed(seq![], ordinal_seq(pv, ps.take(a)), res, limit as int) == Ok::<Seq<Seq<char>>, u64>(crate::text::strings_view(out@)));
                        }
                        return Ok(out);
                    }
                }
                posting_index += 1;
            }
            proof {
                assert(rp.take(end - start) =~= rp);
                assert(vals.take(v + 1).drop_last() =~= vals.take(v as int));
                assert(vals.take(v + 1).last() == vals[v as int]);
            }
            v += 1;
        }
        proof {
            assert(vals.take(vals.len() as int) =~= vals);
            assert(cons == ps);
        }
        let ghost o = ordinal_seq(pv, cons);
        if pending.len() > 0 {
            let ghost cur = crate::text::strings_view(out@);
            match hydrate_pending_keys(mdx, &mut pending, &mut out, limit) {
                Ok(()) => {},
                Err(e) => {
                    proof {
                        if e is InvalidData {
                            let m = e->InvalidData_0;
                            let i = choose|i: int| 0 <= i < o.skip(a).len() && m@ == no_key_message(o.skip(a)[i]);
                            assert(o.skip(a)[i] == o[a + i]);
                        }
                        if e is Mdict {
                            assert(o.skip(a).len() > 0);
                            assert(ordinal_at(pv, ps[a]) is Some);
                        }
                    }
                    return Err(e);
                },
            }
            proof {
                let res2 = choose|res2: Seq<Option<Seq<char>>>| res2.len() == o.skip(a).len()
                    && #[trigger] absorbed(cur, o.skip(a), res2, limit as int) == Ok::<Seq<Seq<char>>, u64>(crate::text::strings_view(out@));
                lemma_absorbed_concat(seq![], o.take(a), res, o.skip(a), res2, limit as int);
                assert(o.take(a) + o.skip(a) =~= o);
                res = res + res2;
                a = cons.len() as int;
            }
        } else {
            proof {
                assert(o.skip(a).len() == 0);
            }
        }
        proof {
            assert(o.take(cons.len() as int) =~= o);
            assert(ps.take(ps.len() as int) =~= ps);
            assert(absorbed(seq![], ordinal_seq(pv, ps.take(ps.len() as int)), res, limit as int) == Ok::<Seq<Seq<char>>, u64>(crate::text::strings_view(out@)));
            lemma_absorbed_grows(seq![], ordinal_seq(pv, ps.take(ps.len() as int)), res, limit as int);
            if ps.len() == 0 {
                assert(ordinal_seq(pv, ps.take(0)) =~= Seq::<u64>::empty());
            }
        }
        Ok(out)
    }
}

/// The ordinals asked by a run of key reads.
pub open spec fn read_ordinals(reads: Seq<(u64, Option<Seq<char>>)>) -> Seq<u64> {
    reads.map_values(|p: (u64, Option<Seq<char>>)| p.0)
}

/// The keys (or none) the dictionary file answered in a run of key reads.
pub open spec fn read_keys(reads: Seq<(u64, Option<Seq<char>>)>) -> Seq<Option<Seq<char>>> {
    reads.map_values(|p: (u64, Option<Seq<char>>)| p.1)
}

/// `reads` asked for the first of the `pending` ordinals, in order.
pub open spec fn key_reads(pending: Seq<u64>, reads: Seq<(u64, Option<Seq<char>>)>) -> bool {
    &&& reads.len() <= pending.len()
    &&& forall|k: int| 0 <= k < reads.len() ==> (#[trigger] reads[k]).0 == pending[k]
}

/// Resolves the pending ordinals to their dictionary keys (in one batch when
/// there are many, one by one otherwise) and takes them into `out`.
fn hydrate_pending_keys(mdx: &mdict_rs::MdxFile, pending: &mut Vec<u64>, out: &mut Vec<String>, limit: usize) -> (r: Result<(), IndexError>)
    requires
        old(out)@.len() < limit,
        crate::text::strings_view(old(out)@).no_duplicates(),
    ensures
        r is Ok ==> final(out)@.len() <= limit,
        r is Ok ==> crate::text::strings_view(final(out)@).no_duplicates(),
        r is Ok ==> final(pending)@.len() == 0,
        r is Ok ==> exists|res: Seq<Option<Seq<char>>>| res.len() == old(pending)@.len()
            && #[trigger] absorbed(crate::text::strings_view(old(out)@), old(pending)@, res, limit as int)
                == Ok::<Seq<Seq<char>>, u64>(crate::text::strings_view(final(out)@)),
        r is Ok ==> exists|reads: Seq<(u64, Option<Seq<char>>)>| {
            &&& #[trigger] key_reads(old(pending)@, reads)
            &&& absorbed(crate::text::strings_view(old(out)@), read_ordinals(reads), read_keys(reads), limit as int)
                == Ok::<Seq<Seq<char>>, u64>(crate::text::strings_view(final(out)@))
            &&& (reads.len() == old(pending)@.len() || final(out)@.len() >= limit)
        },
        r matches Err(e) ==> e is InvalidData || e is Mdict,
        r matches Err(e) && e is Mdict ==> old(pending)@.len() > 0,
        r matches Err(IndexError::InvalidData(m)) ==> exists|i: int| 0 <= i < old(pending)@.len() && m@ == no_key_message(old(pending)@[i]),
{
    let ghost before = crate::text::strings_view(out@);
    let ghost ords = pending@;
    if pending.len() >= KEYS_AT_BATCH_THRESHOLD {
        let (asked, answer) = mdx_keys_at(mdx, pending);
        let resolved = match answer {
            Ok(v) => v,
            Err(message) => {
                return Err(IndexError::Mdict(message));
            },
        };
        let ghost reads = Seq::new(ords.len(), |k: int| (asked@[k], resolved_view(resolved@)[k]));
        proof {
            lemma_absorbed_grows(before, pending@, resolved_view(resolved@), limit as int);
            lemma_absorbed_error_names_an_ordinal(before, pending@, resolved_view(resolved@), limit as int);
            assert(read_ordinals(reads) =~= ords);
            assert(read_keys(reads) =~= resolved_view(resolved@));
            assert(key_reads(ords, reads));
        }
        let absorbed_result = absorb_resolved_keys(pending, &resolved, out, limit);
        if absorbed_result.is_err() {
            return absorbed_result;
        }
        proof {
            assert(resolved_view(resolved@).len() == ords.len());
            assert(absorbed(before, read_ordinals(reads), read_keys(reads), limit as int)
                == Ok::<Seq<Seq<char>>, u64>(crate::text::strings_view(out@)));
        }
    } else {
        let mut i: usize = 0;
        let ghost mut res: Seq<Option<Seq<char>>> = Seq::empty();
        let ghost mut reads: Seq<(u64, Option<Seq<char>>)> = Seq::empty();
        proof {
            assert(ords.take(0) =~= Seq::<u64>::empty());
            assert(read_ordinals(reads) =~= Seq::<u64>::empty());
            assert(read_keys(reads) =~= Seq::<Option<Seq<char>>>::empty());
        }
        loop
            invariant_except_break
                res.len() == i,
                absorbed(before, ords.take(i as int), res, limit as int) == Ok::<Seq<Seq<char>>, u64>(crate::text::strings_view(out@)),
                reads.len() == i,
                read_ordinals(reads) == ords.take(i as int),
                read_keys(reads) == res,
            invariant
                pending@ == ords,
                i <= ords.len(),
                before.len() < limit,
                out@.len() <= limit,
                crate::text::strings_view(out@).no_duplicates(),
                key_reads(ords, reads),
            ensures
                res.len() == ords.len(),
                absorbed(before, ords, res, limit as int) == Ok::<Seq<Seq<char>>, u64>(crate::text::strings_view(out@)),
                absorbed(before, read_ordinals(reads), read_keys(reads), limit as int) == Ok::<Seq<Seq<char>>, u64>(crate::text::strings_view(out@)),
                reads.len() == ords.len() || out@.len() >= limit,
            decreases pending@.len() - i,
        {
            if i >= pending.len() {
                proof {
                    assert(ords.take(i as int) =~= ords);
                }
                break;
            }
            if out.len() >= limit {
                proof {
                    let rest = Seq::new((ords.len() - i) as nat, |k: int| None::<Seq<char>>);
                    lemma_absorbed_concat(before, ords.take(i as int), res, ords.skip(i as int), rest, limit as int);
                    assert(ords.take(i as int) + ords.skip(i as int) =~= ords);
                    res = res + rest;
                }
                break;
            }
            let (asked, answer) = mdx_key_at(mdx, pending[i]);
            let key = match answer {
                Ok(k) => k,
                Err(message) => {
                    return Err(IndexError::Mdict(message));
                },
            };
            let ghost read = (asked, match &key { Some(k) => Some(k@), None => None::<Seq<char>> });
            let one_ordinal: Vec<u64> = vec![pending[i]];
            let one_key: Vec<Option<String>> = vec![key];
            let ghost cur = crate::text::strings_view(out@);
            proof {
                lemma_absorbed_grows(cur, one_ordinal@, resolved_view(one_key@), limit as int);
                lemma_absorbed_error_names_an_ordinal(cur, one_ordinal@, resolved_view(one_key@), limit as int);
                lemma_absorbed_concat(before, ords.take(i as int), res, one_ordinal@, resolved_view(one_key@), limit as int);
                assert(one_ordinal@ =~= seq![ords[i as int]]);
                assert(ords.take(i + 1) =~= ords.take(i as int) + one_ordinal@);
            }
            let absorbed_result = absorb_resolved_keys(&one_ordinal, &one_key, out, limit);
            if absorbed_result.is_err() {
                return absorbed_result;
            }
            proof {
                assert(resolved_view(one_key@) =~= seq![read.1]);
                let old_reads = reads;
                reads = reads.push(read);
                assert(read_ordinals(reads) =~= read_ordinals(old_reads).push(asked));
                assert(read_keys(reads) =~= read_keys(old_reads).push(read.1));
                res = res + resolved_view(one_key@);
                assert(read_keys(reads) =~= res);
                assert(read_ordinals(reads) =~= ords.take(i + 1));
                assert forall|k: int| 0 <= k < reads.len() implies (#[trigger] reads[k]).0 == ords[k] by {
                    if k < old_reads.len() {
                        assert(reads[k] == old_reads[k]);
                    }
                }
            }
            i += 1;
        }
    }
    pending.clear();
    Ok(())
}

/// A posting range packed by `pack_posting_range` unpacks to the same start
/// and count.
pub proof fn law_posting_range_round_trip(start: u32, count: u32)
    ensures
        range_start(packed(start, count)) == start,
        range_count(packed(start, count)) == count,
{
    let v: int = start as int * 0x1_0000_0000 + count as int;
    assert(0 <= v < 0x1_0000_0000_0000_0000) by (nonlinear_arith)
        requires v == start as int * 0x1_0000_0000 + count as int, start < 0x1_0000_0000, count < 0x1_0000_0000;
    assert(packed(start, count) as int == v);
    assert(v / 0x1_0000_0000 == start) by (nonlinear_arith)
        requires v == start as int * 0x1_0000_0000 + count as int, count < 0x1_0000_0000, 0 <= count;
    assert(v % 0x1_0000_0000 == count) by (nonlinear_arith)
        requires v == start as int * 0x1_0000_0000 + count as int, count < 0x1_0000_0000, 0 <= count;
}

proof fn lemma_groups_cover(s: Seq<(Seq<char>, u32)>, entries: Seq<(Seq<char>, u64)>, postings: Seq<u8>, j: int, i: int)
    requires
        groups_of(s, entries, postings),
        0 <= j < entries.len(),
        0 <= i < range_start(entries[j].1) + range_count(entries[j].1),
    ensures
        exists|g: int| 0 <= g <= j && range_start((#[trigger] entries[g]).1) <= i < range_start(entries[g].1) + range_count(entries[g].1),
    decreases j,
{
    if i >= range_start(entries[j].1) {
    } else {
        assert(j > 0);
        assert(range_start(entries[(j - 1) + 1].1) == range_start(entries[j - 1].1) + range_count(entries[j - 1].1));
        lemma_groups_cover(s, entries, postings, j - 1, i);
    }
}

/// Every pair the index was built from can be found again: the FST entry of
/// its normalized key names a posting range that holds its ordinal.
pub proof fn law_index_finds_every_pair(
    kept: Seq<(Seq<char>, u32)>,
    entries: Seq<(Seq<char>, u64)>,
    postings: Seq<u8>,
    key: Seq<char>,
    ordinal: u32,
)
    requires
        index_of_pairs(kept, entries, postings),
        kept.contains((key, ordinal)),
    ensures
        exists|j: int, i: int| {
            &&& 0 <= j < entries.len()
            &&& (#[trigger] entries[j]).0 == key
            &&& range_start(entries[j].1) <= i < range_start(entries[j].1) + range_count(entries[j].1)
            &&& #[trigger] ordinal_at(postings, i) == Some(ordinal)
        },
{
    broadcast use vstd::seq_lib::group_to_multiset_ensures;
    let s = choose|s: Seq<(Seq<char>, u32)>| {
        &&& sorted_pairs(s)
        &&& #[trigger] s.to_multiset() == kept.to_multiset()
        &&& postings_fit(s)
        &&& groups_of(s, entries, postings)
    };
    assert(kept.to_multiset().count((key, ordinal)) > 0);
    assert(s.contains((key, ordinal)));
    let i = choose|i: int| 0 <= i < s.len() && s[i] == (key, ordinal);
    let last = entries.len() - 1;
    lemma_groups_cover(s, entries, postings, last, i);
    let j = choose|g: int| 0 <= g <= last && range_start((#[trigger] entries[g]).1) <= i < range_start(entries[g].1) + range_count(entries[g].1);
    assert(s[i].0 == entries[j].0);
    assert(ordinal_at(postings, i) == Some(s[i].1));
}

} // verus!
