//! Request rules of the dictionary service: query validation, the catalog of
//! dictionaries, and how per-dictionary answers are combined.

use vstd::prelude::*;
use vstd::string::StringSliceAdditionalSpecFns;
use crate::config::{DictionaryBundleManifest, ThemeMode as ThemeSetting};
use crate::domain::{
    dictionary_not_found_message, dictionary_unavailable_message, entry_not_found_in_scope_message,
    DictionaryDetail, DictionaryHeaderInfo, DictionaryListResponse, DictionaryStatus,
    DictionarySummary, ErrorCode, LookupResult, ReadinessResponse, SearchLookupResponse,
    ServiceError, ThemeMode, STATUS_BAD_REQUEST, STATUS_NOT_FOUND, STATUS_SERVICE_UNAVAILABLE,
};
use crate::text::{
    chars_of, compare_chars, decimal, decimal_chars, push_all, push_str, seq_less, string_of,
    strings_view, strictly_ascending, trim_spec, trim_str, CharClass,
};
pub use crate::rewrite::{entry_content_url, entry_content_url_spec};
use crate::trusted::{opt_string_view, percent_encode, percent_encoded};

verus! {

pub const DEFAULT_SUGGEST_LIMIT: usize = 20;
pub const MAX_SUGGEST_LIMIT: usize = 50;

pub open spec fn empty_query_message(name: Seq<char>) -> Seq<char> {
    "query parameter `"@ + name + "` must not be empty"@
}

pub open spec fn long_query_message(name: Seq<char>, max_len: nat) -> Seq<char> {
    "query parameter `"@ + name + "` exceeds the maximum length of "@ + decimal(max_len)
}

/// A query parameter must not be blank and its UTF-8 length must not exceed `max_len`.
pub fn validate_query(name: &str, value: &str, max_len: usize) -> (r: Result<(), ServiceError>)
    ensures
        trim_spec(value@, CharClass::Whitespace).len() == 0 ==> (r matches Err(e) && e.is(
            STATUS_BAD_REQUEST,
            ErrorCode::BadRequest,
            empty_query_message(name@),
        )),
        trim_spec(value@, CharClass::Whitespace).len() > 0 && value.len() > max_len
            ==> (r matches Err(e) && e.is(
            STATUS_BAD_REQUEST,
            ErrorCode::BadRequest,
            long_query_message(name@, max_len as nat),
        )),
        trim_spec(value@, CharClass::Whitespace).len() > 0 && value.len() <= max_len
            ==> r is Ok,
{
    let t = trim_str(value, CharClass::Whitespace);
    if t.len() == 0 {
        let mut m: Vec<char> = Vec::new();
        push_str(&mut m, "query parameter `");
        push_str(&mut m, name);
        push_str(&mut m, "` must not be empty");
        return Err(ServiceError::bad_request(string_of(&m)));
    }
    if value.len() > max_len {
        let mut m: Vec<char> = Vec::new();
        push_str(&mut m, "query parameter `");
        push_str(&mut m, name);
        push_str(&mut m, "` exceeds the maximum length of ");
        let d = decimal_chars(max_len as u128);
        push_all(&mut m, &d);
        return Err(ServiceError::bad_request(string_of(&m)));
    }
    Ok(())
}

/// The number of suggestions asked for: 20 by default, at most 50.
pub fn suggest_limit(limit: Option<usize>) -> (n: usize)
    ensures
        n == match limit {
            Some(l) => if l < MAX_SUGGEST_LIMIT { l } else { MAX_SUGGEST_LIMIT },
            None => DEFAULT_SUGGEST_LIMIT,
        },
        n <= MAX_SUGGEST_LIMIT,
{
    let l = match limit {
        Some(l) => l,
        None => DEFAULT_SUGGEST_LIMIT,
    };
    if l < MAX_SUGGEST_LIMIT {
        l
    } else {
        MAX_SUGGEST_LIMIT
    }
}


pub open spec fn resource_template_url_spec(dictionary_id: Seq<char>) -> Seq<char> {
    "/api/v1/dictionaries/"@ + dictionary_id + "/resources/content?key={resource_key}"@
}

pub fn resource_template_url(dictionary_id: &str) -> (r: String)
    ensures
        r@ == resource_template_url_spec(dictionary_id@),
{
    let mut out: Vec<char> = Vec::new();
    push_str(&mut out, "/api/v1/dictionaries/");
    push_str(&mut out, dictionary_id);
    push_str(&mut out, "/resources/content?key={resource_key}");
    string_of(&out)
}

pub fn map_theme_mode(theme_mode: ThemeSetting) -> (r: ThemeMode)
    ensures
        r == match theme_mode {
            ThemeSetting::Auto => ThemeMode::Auto,
            ThemeSetting::Dictionary => ThemeMode::Dictionary,
            ThemeSetting::ForceAutoDark => ThemeMode::ForceAutoDark,
        },
{
    match theme_mode {
        ThemeSetting::Auto => ThemeMode::Auto,
        ThemeSetting::Dictionary => ThemeMode::Dictionary,
        ThemeSetting::ForceAutoDark => ThemeMode::ForceAutoDark,
    }
}

/// What an engine lookup found, before it is addressed to a dictionary.
#[derive(Debug, Clone, PartialEq, Eq)]
pub struct LookupArtifact {
    pub resolved_key: String,
    pub redirected_from: Option<String>,
    pub match_type: crate::domain::LookupMatchType,
    pub etag: String,
    pub has_resources: bool,
}

/// The public lookup answer for `artifact` found in `dictionary_id` for `query_key`.
pub fn lookup_result(dictionary_id: &str, query_key: String, artifact: LookupArtifact) -> (r: LookupResult)
    ensures
        r.dictionary_id@ == dictionary_id@,
        r.query_key == query_key,
        r.resolved_key == artifact.resolved_key,
        r.redirected_from == artifact.redirected_from,
        r.match_type == artifact.match_type,
        r.has_resources == artifact.has_resources,
        r.content_url@ == entry_content_url_spec(dictionary_id@, artifact.resolved_key@),
        r.resource_url_template@ == resource_template_url_spec(dictionary_id@),
        r.etag == artifact.etag,
{
    let content_url = entry_content_url(dictionary_id, artifact.resolved_key.as_str());
    LookupResult {
        dictionary_id: dictionary_id.to_owned(),
        query_key,
        resolved_key: artifact.resolved_key,
        redirected_from: artifact.redirected_from,
        match_type: artifact.match_type,
        has_resources: artifact.has_resources,
        content_url,
        resource_url_template: resource_template_url(dictionary_id),
        etag: artifact.etag,
    }
}

pub fn clone_opt_string(o: &Option<String>) -> (r: Option<String>)
    ensures
        opt_string_view(r) == opt_string_view(*o),
{
    match o {
        Some(s) => Some(s.clone()),
        None => None,
    }
}

pub fn clone_strings(v: &Vec<String>) -> (r: Vec<String>)
    ensures
        strings_view(r@) == strings_view(v@),
{
    let mut r: Vec<String> = Vec::new();
    let mut i: usize = 0;
    while i < v.len()
        invariant
            i <= v@.len(),
            strings_view(r@) == strings_view(v@).take(i as int),
        decreases v@.len() - i,
    {
        r.push(v[i].clone());
        assert(strings_view(v@).take(i + 1) =~= strings_view(v@).take(i as int).push(v@[i as int]@));
        assert(strings_view(r@) =~= strings_view(v@).take(i + 1));
        i += 1;
    }
    assert(strings_view(v@).take(v@.len() as int) == strings_view(v@));
    r
}

pub open spec fn pairs_view(v: Seq<(String, String)>) -> Seq<(Seq<char>, Seq<char>)> {
    crate::trusted::pairs_view(v)
}

fn clone_pairs(v: &Vec<(String, String)>) -> (r: Vec<(String, String)>)
    ensures
        pairs_view(r@) == pairs_view(v@),
{
    let mut r: Vec<(String, String)> = Vec::new();
    let mut i: usize = 0;
    while i < v.len()
        invariant
            i <= v@.len(),
            pairs_view(r@) == pairs_view(v@).take(i as int),
        decreases v@.len() - i,
    {
        r.push((v[i].0.clone(), v[i].1.clone()));
        assert(pairs_view(v@).take(i + 1) =~= pairs_view(v@).take(i as int).push((v@[i as int].0@, v@[i as int].1@)));
        assert(pairs_view(r@) =~= pairs_view(v@).take(i + 1));
        i += 1;
    }
    assert(pairs_view(v@).take(v@.len() as int) == pairs_view(v@));
    r
}

pub open spec fn header_same(a: DictionaryHeaderInfo, b: DictionaryHeaderInfo) -> bool {
    &&& opt_string_view(a.title) == opt_string_view(b.title)
    &&& opt_string_view(a.description) == opt_string_view(b.description)
    &&& a.generated_by_engine_version@ == b.generated_by_engine_version@
    &&& a.required_engine_version@ == b.required_engine_version@
    &&& opt_string_view(a.encoding_label) == opt_string_view(b.encoding_label)
}

pub fn clone_header(h: &DictionaryHeaderInfo) -> (r: DictionaryHeaderInfo)
    ensures
        header_same(r, *h),
{
    DictionaryHeaderInfo {
        title: clone_opt_string(&h.title),
        description: clone_opt_string(&h.description),
        generated_by_engine_version: h.generated_by_engine_version.clone(),
        required_engine_version: h.required_engine_version.clone(),
        encoding_label: clone_opt_string(&h.encoding_label),
    }
}

/// A dictionary that opened: its manifest, entry count, header, and the
/// handle the engine reads it through.
pub struct ReadyDictionary<D> {
    pub manifest: DictionaryBundleManifest,
    pub entry_count: u64,
    pub header: DictionaryHeaderInfo,
    pub handle: D,
}

/// A dictionary that could not be opened, and why.
pub struct UnavailableDictionary {
    pub manifest: DictionaryBundleManifest,
    pub reason: String,
}

pub enum DictionaryState<D> {
    Ready(ReadyDictionary<D>),
    Unavailable(UnavailableDictionary),
}

impl<D> DictionaryState<D> {
    pub open spec fn manifest_of(self) -> DictionaryBundleManifest {
        match self {
            DictionaryState::Ready(r) => r.manifest,
            DictionaryState::Unavailable(u) => u.manifest,
        }
    }
}

/// Whether `s` summarizes the dictionary in `state`.
pub open spec fn summarizes<D>(state: DictionaryState<D>, s: DictionarySummary) -> bool {
    let m = state.manifest_of();
    &&& s.dictionary_id@ == m.dictionary_id@
    &&& s.display_name@ == m.display_name@
    &&& opt_string_view(s.description) == opt_string_view(m.description)
    &&& opt_string_view(s.source_lang) == opt_string_view(m.source_lang)
    &&& opt_string_view(s.target_lang) == opt_string_view(m.target_lang)
    &&& s.has_resources == (m.mdd_paths@.len() > 0)
    &&& s.theme_mode == match m.theme_mode {
        ThemeSetting::Auto => ThemeMode::Auto,
        ThemeSetting::Dictionary => ThemeMode::Dictionary,
        ThemeSetting::ForceAutoDark => ThemeMode::ForceAutoDark,
    }
    &&& strings_view(s.tags@) == strings_view(m.tags@)
    &&& match state {
        DictionaryState::Ready(r) => s.entry_count == r.entry_count && s.status == DictionaryStatus::Ready,
        DictionaryState::Unavailable(_) => s.entry_count == 0 && s.status == DictionaryStatus::Unavailable,
    }
}

fn summary_of_manifest(m: &DictionaryBundleManifest, entry_count: u64, status: DictionaryStatus) -> (s: DictionarySummary)
    ensures
        s.dictionary_id@ == m.dictionary_id@,
        s.display_name@ == m.display_name@,
        opt_string_view(s.description) == opt_string_view(m.description),
        opt_string_view(s.source_lang) == opt_string_view(m.source_lang),
        opt_string_view(s.target_lang) == opt_string_view(m.target_lang),
        s.has_resources == (m.mdd_paths@.len() > 0),
        s.theme_mode == match m.theme_mode {
            ThemeSetting::Auto => ThemeMode::Auto,
            ThemeSetting::Dictionary => ThemeMode::Dictionary,
            ThemeSetting::ForceAutoDark => ThemeMode::ForceAutoDark,
        },
        strings_view(s.tags@) == strings_view(m.tags@),
        s.entry_count == entry_count,
        s.status == status,
{
    DictionarySummary {
        dictionary_id: m.dictionary_id.clone(),
        display_name: m.display_name.clone(),
        description: clone_opt_string(&m.description),
        source_lang: clone_opt_string(&m.source_lang),
        target_lang: clone_opt_string(&m.target_lang),
        entry_count,
        has_resources: m.has_resources(),
        theme_mode: map_theme_mode(m.theme_mode),
        tags: clone_strings(&m.tags),
        status,
    }
}

pub fn summary<D>(state: &DictionaryState<D>) -> (s: DictionarySummary)
    ensures
        summarizes(*state, s),
{
    match state {
        DictionaryState::Ready(r) => summary_of_manifest(&r.manifest, r.entry_count, DictionaryStatus::Ready),
        DictionaryState::Unavailable(u) => summary_of_manifest(&u.manifest, 0, DictionaryStatus::Unavailable),
    }
}

/// The dictionaries of the service, ordered by id, each id once.
pub struct DictionaryCatalog<D> {
    entries: Vec<(String, DictionaryState<D>)>,
}

/// Whether the dictionary with id `id` is missing or unavailable, and the
/// error a request for it is answered with.
pub open spec fn not_ready_error(found: Option<(Seq<char>, bool, Seq<char>)>, id: Seq<char>) -> Option<(u16, ErrorCode, Seq<char>)> {
    match found {
        None => Some((STATUS_NOT_FOUND, ErrorCode::DictionaryNotFound, dictionary_not_found_message(id))),
        Some((_, true, _)) => None,
        Some((_, false, reason)) => Some((STATUS_SERVICE_UNAVAILABLE, ErrorCode::DictionaryUnavailable, dictionary_unavailable_message(id, reason))),
    }
}

pub open spec fn error_is(e: ServiceError, v: (u16, ErrorCode, Seq<char>)) -> bool {
    e.is(v.0, v.1, v.2)
}

impl<D> DictionaryCatalog<D> {
    #[verifier::type_invariant]
    closed spec fn ordered(self) -> bool {
        strictly_ascending(self.ids())
    }

    /// The ids, in order.
    pub closed spec fn ids(self) -> Seq<Seq<char>> {
        self.entries@.map_values(|e: (String, DictionaryState<D>)| e.0@)
    }

    /// The state stored at position `i`.
    pub closed spec fn state_at(self, i: int) -> DictionaryState<D> {
        self.entries@[i].1
    }

    /// What a request for position `i` sees: its id, whether it is ready,
    /// and the reason it is unavailable.
    pub closed spec fn status_at(self, i: int) -> (Seq<char>, bool, Seq<char>) {
        match self.entries@[i].1 {
            DictionaryState::Ready(_) => (self.entries@[i].0@, true, Seq::<char>::empty()),
            DictionaryState::Unavailable(u) => (self.entries@[i].0@, false, u.reason@),
        }
    }

    /// The position of `id`, if present.
    pub closed spec fn position(self, id: Seq<char>) -> Option<int> {
        if self.ids().contains(id) {
            Some(choose|i: int| 0 <= i < self.ids().len() && self.ids()[i] == id)
        } else {
            None
        }
    }

    pub closed spec fn lookup(self, id: Seq<char>) -> Option<(Seq<char>, bool, Seq<char>)> {
        match self.position(id) {
            Some(i) => Some(self.status_at(i)),
            None => None,
        }
    }

    proof fn lemma_position(&self, i: int)
        requires
            0 <= i < self.ids().len(),
            strictly_ascending(self.ids()),
        ensures
            self.position(self.ids()[i]) == Some(i),
    {
        let c = choose|c: int| 0 <= c < self.ids().len() && self.ids()[c] == self.ids()[i];
        if c < i {
            crate::text::lemma_seq_less_irreflexive(self.ids()[i]);
        }
        if i < c {
            crate::text::lemma_seq_less_irreflexive(self.ids()[i]);
        }
    }

    pub fn new() -> (c: Self)
        ensures
            c.ids().len() == 0,
    {
        DictionaryCatalog { entries: Vec::new() }
    }

    pub fn len(&self) -> (n: usize)
        ensures
            n == self.ids().len(),
    {
        self.entries.len()
    }

    /// Position of `id` in the catalog.
    pub fn find(&self, id: &str) -> (r: Option<usize>)
        ensures
            match r {
                Some(i) => i < self.ids().len() && self.ids()[i as int] == id@ && self.position(id@) == Some(i as int),
                None => !self.ids().contains(id@) && self.position(id@) is None,
            },
    {
        proof {
            use_type_invariant(self);
        }
        let idc = chars_of(id);
        let mut i: usize = 0;
        while i < self.entries.len()
            invariant
                i <= self.entries@.len(),
                strictly_ascending(self.ids()),
                idc@ == id@,
                forall|k: int| 0 <= k < i ==> self.ids()[k] != id@,
            decreases self.entries@.len() - i,
        {
            let c = chars_of(self.entries[i].0.as_str());
            if compare_chars(&c, &idc) == 0 {
                proof {
                    assert(self.ids()[i as int] == id@);
                    self.lemma_position(i as int);
                }
                return Some(i);
            }
            i += 1;
        }
        None
    }

    /// The id and state at position `i`.
    pub fn entry(&self, i: usize) -> (r: (&String, &DictionaryState<D>))
        requires
            i < self.ids().len(),
        ensures
            r.0@ == self.ids()[i as int],
            *r.1 == self.state_at(i as int),
    {
        (&self.entries[i].0, &self.entries[i].1)
    }

    /// Adds `state` under `id`, replacing what was stored under it.
    pub fn insert(&mut self, id: String, state: DictionaryState<D>)
        ensures
            final(self).ids().to_set() == old(self).ids().to_set().insert(id@),
            final(self).position(id@) matches Some(i) && final(self).state_at(i) == state,
            forall|k: Seq<char>| k != id@ ==> #[trigger] final(self).lookup(k) == old(self).lookup(k),
    {
        proof {
            use_type_invariant(&*self);
        }
        let ghost old_self = *self;
        let mut entries: Vec<(String, DictionaryState<D>)> = Vec::new();
        std::mem::swap(&mut entries, &mut self.entries);
        let ghost ov = entries@;
        let ghost oids = ov.map_values(|e: (String, DictionaryState<D>)| e.0@);
        assert(oids == old_self.ids());
        let idc = chars_of(id.as_str());
        let mut i: usize = 0;
        let mut found = false;
        while i < entries.len()
            invariant_except_break
                !found,
            invariant
                i <= entries@.len(),
                entries@ == ov,
                oids == ov.map_values(|e: (String, DictionaryState<D>)| e.0@),
                idc@ == id@,
                forall|k: int| 0 <= k < i ==> seq_less(#[trigger] oids[k], idc@),
            ensures
                i <= entries@.len(),
                found ==> i < entries@.len() && oids[i as int] == idc@,
                !found && i < entries@.len() ==> seq_less(idc@, oids[i as int]),
            decreases entries@.len() - i,
        {
            let c = chars_of(entries[i].0.as_str());
            assert(c@ == oids[i as int]);
            let r = compare_chars(&c, &idc);
            if r == 0 {
                found = true;
                break;
            } else if r == 1 {
                break;
            }
            i += 1;
        }
        if found {
            entries.set(i, (id, state));
        } else {
            entries.insert(i, (id, state));
        }
        let ghost nids = entries@.map_values(|e: (String, DictionaryState<D>)| e.0@);
        proof {
            if found {
                assert(nids =~= oids);
            } else {
                assert(nids =~= oids.insert(i as int, idc@));
                assert forall|a: int, b: int| 0 <= a < b < nids.len() implies seq_less(nids[a], nids[b]) by {
                    if b < i {
                    } else if b == i {
                    } else if a == i {
                        if b - 1 > i {
                            crate::text::lemma_seq_less_transitive(idc@, oids[i as int], oids[b - 1]);
                        }
                    } else if a < i {
                        if b - 1 > i {
                            crate::text::lemma_seq_less_transitive(idc@, oids[i as int], oids[b - 1]);
                        }
                        crate::text::lemma_seq_less_transitive(oids[a], idc@, oids[b - 1]);
                    }
                }
            }
        }
        self.entries = entries;
        proof {
            assert(self.ids() == nids);
            self.lemma_position(i as int);
            if found {
                assert(self.ids().to_set() =~= old_self.ids().to_set().insert(id@)) by {
                    assert(oids[i as int] == id@);
                }
                assert forall|k: Seq<char>| k != id@ implies #[trigger] self.lookup(k) == old_self.lookup(k) by {
                    if self.ids().contains(k) {
                        let j = choose|j: int| 0 <= j < self.ids().len() && self.ids()[j] == k;
                        self.lemma_position(j);
                        old_self.lemma_position(j);
                    }
                }
            } else {
                assert forall|x: Seq<char>| self.ids().to_set().contains(x) == old_self.ids().to_set().insert(id@).contains(x) by {
                    if self.ids().contains(x) {
                        let j = choose|j: int| 0 <= j < self.ids().len() && self.ids()[j] == x;
                        if j < i { assert(oids[j] == x); } else if j > i { assert(oids[j - 1] == x); }
                    }
                    if oids.contains(x) {
                        let j = choose|j: int| 0 <= j < oids.len() && oids[j] == x;
                        if j < i { assert(nids[j] == x); } else { assert(nids[j + 1] == x); }
                    }
                    if x == id@ {
                        assert(nids[i as int] == x);
                    }
                }
                assert(self.ids().to_set() =~= old_self.ids().to_set().insert(id@));
                assert forall|k: Seq<char>| k != id@ implies #[trigger] self.lookup(k) == old_self.lookup(k) by {
                    if self.ids().contains(k) {
                        let j = choose|j: int| 0 <= j < self.ids().len() && self.ids()[j] == k;
                        self.lemma_position(j);
                        if j < i {
                            old_self.lemma_position(j);
                            assert(entries@[j] == ov[j]);
                        } else {
                            assert(j != i);
                            old_self.lemma_position(j - 1);
                            assert(entries@[j] == ov[j - 1]);
                        }
                    } else {
                        if old_self.ids().contains(k) {
                            let j = choose|j: int| 0 <= j < oids.len() && oids[j] == k;
                            if j < i { assert(nids[j] == k); } else { assert(nids[j + 1] == k); }
                        }
                    }
                }
            }
        }
    }
    /// Number of ready dictionaries among the first `n`.
    pub closed spec fn ready_count(self, n: int) -> nat
        decreases n,
    {
        if n <= 0 {
            0
        } else {
            self.ready_count(n - 1) + if self.status_at(n - 1).1 { 1nat } else { 0nat }
        }
    }

    /// Ids of the unavailable dictionaries among the first `n`, in order.
    pub closed spec fn unavailable_ids(self, n: int) -> Seq<Seq<char>>
        decreases n,
    {
        if n <= 0 {
            seq![]
        } else if self.status_at(n - 1).1 {
            self.unavailable_ids(n - 1)
        } else {
            self.unavailable_ids(n - 1).push(self.ids()[n - 1])
        }
    }

    /// Positions of the ready dictionaries among the first `n`, in order.
    pub closed spec fn ready_positions(self, n: int) -> Seq<int>
        decreases n,
    {
        if n <= 0 {
            seq![]
        } else if self.status_at(n - 1).1 {
            self.ready_positions(n - 1).push(n - 1)
        } else {
            self.ready_positions(n - 1)
        }
    }

    /// The catalog listing: one summary per dictionary, in id order.
    pub fn list_dictionaries(&self) -> (r: DictionaryListResponse)
        ensures
            r.items@.len() == self.ids().len(),
            forall|i: int| 0 <= i < r.items@.len() ==> summarizes(self.state_at(i), #[trigger] r.items@[i]),
    {
        let mut items: Vec<DictionarySummary> = Vec::new();
        let mut i: usize = 0;
        while i < self.entries.len()
            invariant
                i <= self.entries@.len(),
                items@.len() == i,
                forall|k: int| 0 <= k < i ==> summarizes(self.state_at(k), #[trigger] items@[k]),
            decreases self.entries@.len() - i,
        {
            items.push(summary(&self.entries[i].1));
            i += 1;
        }
        DictionaryListResponse { items }
    }

    /// Readiness: how many dictionaries are ready, which are not (in id
    /// order), and `ready` or `degraded` accordingly.
    pub fn readiness(&self) -> (r: ReadinessResponse)
        ensures
            r.ready_dictionaries == self.ready_count(self.ids().len() as int),
            strings_view(r.unavailable_dictionaries@) == self.unavailable_ids(self.ids().len() as int),
            r.status@ == if self.unavailable_ids(self.ids().len() as int).len() == 0 { "ready"@ } else { "degraded"@ },
    {
        let mut unavailable: Vec<String> = Vec::new();
        let mut ready: usize = 0;
        let mut i: usize = 0;
        while i < self.entries.len()
            invariant
                i <= self.entries@.len(),
                ready == self.ready_count(i as int),
                ready <= i,
                strings_view(unavailable@) == self.unavailable_ids(i as int),
            decreases self.entries@.len() - i,
        {
            match &self.entries[i].1 {
                DictionaryState::Ready(_) => {
                    ready += 1;
                },
                DictionaryState::Unavailable(_) => {
                    unavailable.push(self.entries[i].0.clone());
                    assert(strings_view(unavailable@) =~= self.unavailable_ids(i as int).push(self.ids()[i as int]));
                },
            }
            i += 1;
        }
        let status = if unavailable.len() == 0 { "ready".to_owned() } else { "degraded".to_owned() };
        ReadinessResponse { status, ready_dictionaries: ready, unavailable_dictionaries: unavailable }
    }

    /// The position of the ready dictionary `id`, or the error a request for it gets.
    pub fn ready_dictionary(&self, dictionary_id: &str) -> (r: Result<usize, ServiceError>)
        ensures
            match not_ready_error(self.lookup(dictionary_id@), dictionary_id@) {
                Some(e) => r matches Err(err) && error_is(err, e),
                None => r matches Ok(i) && self.position(dictionary_id@) == Some(i as int) && self.status_at(i as int).1,
            },
    {
        match self.find(dictionary_id) {
            None => Err(ServiceError::dictionary_not_found(dictionary_id)),
            Some(i) => match &self.entries[i].1 {
                DictionaryState::Ready(_) => Ok(i),
                DictionaryState::Unavailable(u) => Err(ServiceError::dictionary_unavailable(dictionary_id, u.reason.as_str())),
            },
        }
    }

    /// The detail of dictionary `id`: not found, unavailable, or its summary, header and metadata.
    pub fn dictionary_detail(&self, dictionary_id: &str) -> (r: Result<DictionaryDetail, ServiceError>)
        ensures
            match not_ready_error(self.lookup(dictionary_id@), dictionary_id@) {
                Some(e) => r matches Err(err) && error_is(err, e),
                None => r matches Ok(d) && self.position(dictionary_id@) matches Some(i) && summarizes(self.state_at(i), d.summary)
                    && match self.state_at(i) {
                        DictionaryState::Ready(rd) => header_same(d.header, rd.header) && pairs_view(d.metadata@) == pairs_view(rd.manifest.metadata@),
                        DictionaryState::Unavailable(_) => false,
                    },
            },
    {
        let i = match self.ready_dictionary(dictionary_id) {
            Ok(i) => i,
            Err(e) => {
                return Err(e);
            },
        };
        match &self.entries[i].1 {
            DictionaryState::Ready(rd) => Ok(DictionaryDetail {
                summary: summary(&self.entries[i].1),
                header: clone_header(&rd.header),
                metadata: clone_pairs(&rd.manifest.metadata),
            }),
            DictionaryState::Unavailable(u) => Err(ServiceError::dictionary_unavailable(dictionary_id, u.reason.as_str())),
        }
    }

    /// The dictionaries a search covers: every ready one (in id order) when
    /// none are named; otherwise each named one once, in the order first
    /// named, all of which must be ready.
    pub closed spec fn selection(self, names: Seq<Seq<char>>) -> Result<Seq<int>, (u16, ErrorCode, Seq<char>)>
        decreases names.len(),
    {
        if names.len() == 0 {
            Ok(seq![])
        } else {
            match self.selection(names.drop_last()) {
                Err(e) => Err(e),
                Ok(v) => match not_ready_error(self.lookup(names.last()), names.last()) {
                    Some(e) => Err(e),
                    None => Ok(v.push(self.position(names.last())->0)),
                },
            }
        }
    }

    pub fn selected_dictionaries(&self, dictionary_ids: &Vec<String>) -> (r: Result<Vec<usize>, ServiceError>)
        ensures
            dictionary_ids@.len() == 0 ==> (r matches Ok(v) && v@.map_values(|x: usize| x as int) == self.ready_positions(self.ids().len() as int)),
            dictionary_ids@.len() > 0 ==> match self.selection(crate::engine::dedup_seq(strings_view(dictionary_ids@))) {
                Ok(p) => r matches Ok(v) && v@.map_values(|x: usize| x as int) == p,
                Err(e) => r matches Err(err) && error_is(err, e),
            },
    {
        let mut out: Vec<usize> = Vec::new();
        if dictionary_ids.len() == 0 {
            let mut i: usize = 0;
            while i < self.entries.len()
                invariant
                    i <= self.entries@.len(),
                    out@.map_values(|x: usize| x as int) == self.ready_positions(i as int),
                decreases self.entries@.len() - i,
            {
                match &self.entries[i].1 {
                    DictionaryState::Ready(_) => {
                        out.push(i);
                        assert(out@.map_values(|x: usize| x as int) =~= self.ready_positions(i as int).push(i as int));
                    },
                    DictionaryState::Unavailable(_) => {},
                }
                i += 1;
            }
            return Ok(out);
        }
        let ghost names = strings_view(dictionary_ids@);
        let mut seen: Vec<String> = Vec::new();
        let mut i: usize = 0;
        assert(strings_view(seen@) =~= Seq::<Seq<char>>::empty());
        assert(out@.map_values(|x: usize| x as int) =~= Seq::<int>::empty());
        assert(names.take(0) =~= Seq::<Seq<char>>::empty());
        while i < dictionary_ids.len()
            invariant
                i <= dictionary_ids@.len(),
                names == strings_view(dictionary_ids@),
                strings_view(seen@) == crate::engine::dedup_seq(names.take(i as int)),
                self.selection(strings_view(seen@)) == Ok::<Seq<int>, (u16, ErrorCode, Seq<char>)>(out@.map_values(|x: usize| x as int)),
            decreases dictionary_ids@.len() - i,
        {
            proof {
                assert(names.take(i + 1).drop_last() == names.take(i as int));
                assert(names.take(i + 1).last() == dictionary_ids@[i as int]@);
            }
            let mut dup = false;
            let mut k: usize = 0;
            while k < seen.len()
                invariant
                    k <= seen@.len(),
                    i < dictionary_ids@.len(),
                    !dup ==> forall|j: int| 0 <= j < k ==> seen@[j]@ != dictionary_ids@[i as int]@,
                    dup ==> exists|j: int| 0 <= j < seen@.len() && seen@[j]@ == dictionary_ids@[i as int]@,
                decreases seen@.len() - k,
            {
                if seen[k] == dictionary_ids[i] {
                    dup = true;
                }
                k += 1;
            }
            proof {
                let sv = strings_view(seen@);
                if dup {
                    let j = choose|j: int| 0 <= j < seen@.len() && seen@[j]@ == dictionary_ids@[i as int]@;
                    assert(sv[j] == dictionary_ids@[i as int]@);
                    assert(sv.contains(dictionary_ids@[i as int]@));
                } else {
                    assert(!sv.contains(dictionary_ids@[i as int]@));
                }
            }
            if !dup {
                let ghost before = strings_view(seen@);
                match self.ready_dictionary(dictionary_ids[i].as_str()) {
                    Ok(p) => {
                        out.push(p);
                        seen.push(dictionary_ids[i].clone());
                        proof {
                            assert(strings_view(seen@) =~= before.push(dictionary_ids@[i as int]@));
                            assert(strings_view(seen@).drop_last() =~= before);
                            assert(out@.map_values(|x: usize| x as int) =~= self.selection(before)->Ok_0.push(p as int));
                        }
                    },
                    Err(e) => {
                        proof {
                            let full = crate::engine::dedup_seq(names);
                            let cur = before.push(dictionary_ids@[i as int]@);
                            assert(cur.drop_last() =~= before);
                            assert(self.selection(cur) is Err);
                            lemma_selection_prefix_err(*self, names, i as int + 1);
                        }
                        return Err(e);
                    },
                }
            }
            i += 1;
        }
        proof {
            assert(names.take(dictionary_ids@.len() as int) == names);
        }
        Ok(out)
    }

}


/// Once the selection of a prefix of names fails, the selection of all
/// names fails with the same error.
proof fn lemma_selection_prefix_err<D>(cat: DictionaryCatalog<D>, names: Seq<Seq<char>>, n: int)
    requires
        0 <= n <= names.len(),
        cat.selection(crate::engine::dedup_seq(names.take(n))) is Err,
    ensures
        cat.selection(crate::engine::dedup_seq(names)) == cat.selection(crate::engine::dedup_seq(names.take(n))),
    decreases names.len() - n,
{
    if n < names.len() {
        let a = crate::engine::dedup_seq(names.take(n));
        let b = crate::engine::dedup_seq(names.take(n + 1));
        assert(names.take(n + 1).drop_last() == names.take(n));
        if b != a {
            assert(b.drop_last() =~= a);
        }
        lemma_selection_prefix_err(cat, names, n + 1);
    } else {
        assert(names.take(n) == names);
    }
}


/// The items at position `k` of each group, in group order.
pub open spec fn round_items<T>(gs: Seq<Seq<T>>, k: int) -> Seq<T>
    decreases gs.len(),
{
    if gs.len() == 0 {
        seq![]
    } else {
        round_items(gs.drop_last(), k) + if 0 <= k < gs.last().len() {
            seq![gs.last()[k]]
        } else {
            seq![]
        }
    }
}

/// The first `r` rounds: every group's first item, then every group's second, and so on.
pub open spec fn rounds<T>(gs: Seq<Seq<T>>, r: int) -> Seq<T>
    decreases r,
{
    if r <= 0 {
        seq![]
    } else {
        rounds(gs, r - 1) + round_items(gs, r - 1)
    }
}

pub open spec fn max_len<T>(gs: Seq<Seq<T>>) -> int
    decreases gs.len(),
{
    if gs.len() == 0 {
        0
    } else {
        let m = max_len(gs.drop_last());
        if gs.last().len() > m { gs.last().len() as int } else { m }
    }
}

/// All items of all groups, taken round-robin.
pub open spec fn interleaved<T>(gs: Seq<Seq<T>>) -> Seq<T> {
    rounds(gs, max_len(gs))
}

/// The first `limit` items of the round-robin interleaving.
pub open spec fn merged<T>(gs: Seq<Seq<T>>, limit: int) -> Seq<T> {
    let all = interleaved(gs);
    if limit < all.len() { all.take(limit) } else { all }
}

proof fn lemma_round_items_prefix<T>(gs: Seq<Seq<T>>, j: int, k: int)
    requires
        0 <= j <= gs.len(),
    ensures
        round_items(gs.take(j), k).is_prefix_of(round_items(gs, k)),
    decreases gs.len() - j,
{
    if j < gs.len() {
        lemma_round_items_prefix(gs.drop_last(), if j < gs.len() - 1 { j } else { gs.len() - 1 }, k);
        if j == gs.len() - 1 {
            assert(gs.take(j) =~= gs.drop_last());
            assert(gs.drop_last().take(j) =~= gs.drop_last());
        } else {
            assert(gs.take(j) =~= gs.drop_last().take(j));
        }
    } else {
        assert(gs.take(j) =~= gs);
    }
}

proof fn lemma_rounds_prefix<T>(gs: Seq<Seq<T>>, a: int, b: int)
    requires
        0 <= a <= b,
    ensures
        rounds(gs, a).is_prefix_of(rounds(gs, b)),
    decreases b - a,
{
    if a < b {
        lemma_rounds_prefix(gs, a, b - 1);
    }
}

proof fn lemma_prefix_trans<T>(a: Seq<T>, b: Seq<T>, c: Seq<T>)
    requires
        a.is_prefix_of(b),
        b.is_prefix_of(c),
    ensures
        a.is_prefix_of(c),
{
    assert forall|i: int| 0 <= i < a.len() implies a[i] == c[i] by {
        assert(a[i] == b[i]);
        assert(b[i] == c[i]);
    }
    assert(c.take(a.len() as int) =~= a);
}

proof fn lemma_round_items_len_bound<T>(gs: Seq<Seq<T>>, k: int)
    requires
        k >= max_len(gs),
    ensures
        round_items(gs, k).len() == 0,
    decreases gs.len(),
{
    if gs.len() > 0 {
        lemma_round_items_len_bound(gs.drop_last(), k);
    }
}

proof fn lemma_max_len_bound<T>(gs: Seq<Seq<T>>, j: int)
    requires
        0 <= j < gs.len(),
    ensures
        gs[j].len() <= max_len(gs),
        max_len(gs) >= 0,
    decreases gs.len(),
{
    if j < gs.len() - 1 {
        lemma_max_len_bound(gs.drop_last(), j);
    } else if gs.len() > 1 {
        lemma_max_len_bound(gs.drop_last(), 0);
    }
}

pub open spec fn vec_views<T>(v: Seq<Vec<T>>) -> Seq<Seq<T>> {
    v.map_values(|g: Vec<T>| g@)
}

/// What is left of group `g` after `k` rounds, back to front.
pub open spec fn left_after<T>(g: Seq<T>, k: int) -> Seq<T> {
    if k < g.len() { g.skip(k).reverse() } else { seq![] }
}

fn reversed<T>(v: Vec<T>) -> (r: Vec<T>)
    ensures
        r@ == v@.reverse(),
{
    let ghost orig = v@;
    let mut v = v;
    let mut r: Vec<T> = Vec::new();
    while v.len() > 0
        invariant
            v@.len() <= orig.len(),
            v@ == orig.take(v@.len() as int),
            r@ == orig.skip(v@.len() as int).reverse(),
        decreases v@.len(),
    {
        let ghost n = v@.len();
        let x = v.pop().unwrap();
        proof {
            assert(orig.take(n - 1) =~= orig.take(n as int).drop_last());
            assert(x == orig[n - 1]);
            assert(orig.skip(n - 1).reverse() =~= orig.skip(n as int).reverse().push(orig[n - 1]));
        }
        r.push(x);
    }
    assert(orig.skip(0) == orig);
    r
}

/// Interleaves the groups round-robin (each group's first item, then each
/// group's second, ...) and keeps the first `limit` items.
pub fn merge_round_robin<T>(groups: Vec<Vec<T>>, limit: usize) -> (r: Vec<T>)
    ensures
        r@ == merged(vec_views(groups@), limit as int),
{
    let ghost gs = vec_views(groups@);
    let gcount = groups.len();
    let mut rest = groups;
    let mut revs: Vec<Vec<T>> = Vec::new();
    let mut maxlen: usize = 0;
    let mut i: usize = 0;
    while i < gcount
        invariant
            gs == vec_views(groups@),
            gcount == gs.len(),
            i <= gcount,
            vec_views(rest@) == gs.skip(i as int),
            rest@.len() == gcount - i,
            revs@.len() == i,
            forall|j: int| 0 <= j < i ==> (#[trigger] revs@[j])@ == left_after(gs[j], 0),
            maxlen == max_len(gs.take(i as int)),
        decreases gcount - i,
    {
        let ghost old_rest = rest@;
        let g = rest.remove(0);
        proof {
            assert(vec_views(old_rest)[0] == old_rest[0]@);
            assert(gs.skip(i as int)[0] == g@);
            assert forall|m: int| 0 <= m < rest@.len() implies #[trigger] vec_views(rest@)[m] == gs.skip(i + 1)[m] by {
                assert(rest@[m] == old_rest[m + 1]);
                assert(vec_views(old_rest)[m + 1] == gs.skip(i as int)[m + 1]);
            }
            assert(vec_views(rest@) =~= gs.skip(i + 1));
            assert(gs.take(i + 1).drop_last() =~= gs.take(i as int));
            assert(gs[i as int] == g@);
            assert(g@.skip(0) =~= g@);
        }
        if g.len() > maxlen {
            maxlen = g.len();
        }
        let rv = reversed(g);
        revs.push(rv);
        i += 1;
    }
    assert(gs.take(gcount as int) =~= gs);
    let mut out: Vec<T> = Vec::new();
    let mut k: usize = 0;
    while k < maxlen && out.len() < limit
        invariant
            gs == vec_views(groups@),
            gcount == gs.len(),
            maxlen == max_len(gs),
            k <= maxlen,
            revs@.len() == gcount,
            forall|j: int| 0 <= j < gcount ==> (#[trigger] revs@[j])@ == left_after(gs[j], k as int),
            out@ == rounds(gs, k as int),
            out@.len() <= limit,
        decreases maxlen - k,
    {
        let mut next: Vec<Vec<T>> = Vec::new();
        let ghost start = out@;
        let mut j: usize = 0;
        while j < gcount
            invariant
                gs == vec_views(groups@),
                gcount == gs.len(),
                maxlen == max_len(gs),
                k < maxlen,
                j <= gcount,
                next@.len() == j,
                revs@.len() == gcount - j,
                forall|m: int| 0 <= m < j ==> (#[trigger] next@[m])@ == left_after(gs[m], k + 1),
                forall|m: int| 0 <= m < gcount - j ==> (#[trigger] revs@[m])@ == left_after(gs[j + m], k as int),
                start == rounds(gs, k as int),
                out@ == start + round_items(gs.take(j as int), k as int),
                out@.len() < limit,
            decreases gcount - j,
        {
            let ghost old_revs = revs@;
            let mut g = revs.remove(0);
            let ghost gj = gs[j as int];
            assert(g@ == left_after(gj, k as int));
            let ghost before = out@;
            proof {
                assert(gs.take(j + 1).drop_last() =~= gs.take(j as int));
                assert(gs.take(j + 1).last() == gj);
            }
            if g.len() > 0 {
                let x = g.pop().unwrap();
                proof {
                    assert(k < gj.len());
                    assert(x == gj[k as int]);
                    assert(g@ =~= left_after(gj, k + 1));
                }
                out.push(x);
                assert(out@ =~= start + round_items(gs.take(j + 1), k as int));
            } else {
                proof {
                    if (k as int) < gj.len() {
                        assert(gj.skip(k as int).len() > 0);
                    }
                    assert(g@ =~= left_after(gj, k + 1));
                }
                assert(out@ =~= start + round_items(gs.take(j + 1), k as int));
            }
            next.push(g);
            proof {
                assert forall|m: int| 0 <= m < gcount - (j + 1) implies (#[trigger] revs@[m])@ == left_after(gs[j + 1 + m], k as int) by {
                    assert(revs@[m] == old_revs[m + 1]);
                }
            }
            j += 1;
            if out.len() >= limit {
                proof {
                    lemma_round_items_prefix(gs, j as int, k as int);
                    lemma_rounds_prefix(gs, k + 1, maxlen as int);
                    assert((start + round_items(gs.take(j as int), k as int)).is_prefix_of(rounds(gs, k + 1)));
                    lemma_prefix_trans(out@, rounds(gs, k + 1), rounds(gs, maxlen as int));
                    assert(out@.len() == limit);
                    assert(out@ =~= interleaved(gs).take(limit as int));
                    if limit as int >= interleaved(gs).len() {
                        assert(interleaved(gs).take(limit as int) =~= interleaved(gs));
                    }
                    assert(out@ == merged(gs, limit as int));
                }
                return out;
            }
        }
        assert(gs.take(gcount as int) =~= gs);
        revs = next;
        k += 1;
    }
    proof {
        lemma_rounds_prefix(gs, k as int, maxlen as int);
        if out@.len() >= limit {
            assert(out@ =~= interleaved(gs).take(limit as int));
        } else {
            assert(k == maxlen);
        }
    }
    out
}


pub open spec fn to_search_item(dictionary_id: String, item: crate::domain::SuggestionItem) -> crate::domain::SearchSuggestionItem {
    crate::domain::SearchSuggestionItem {
        dictionary_id,
        key: item.key,
        label: item.label,
        match_type: item.match_type,
    }
}

/// The first failed answer, in dictionary order.
pub open spec fn first_error<A>(results: Seq<Result<A, ServiceError>>) -> Option<ServiceError>
    decreases results.len(),
{
    if results.len() == 0 {
        None
    } else {
        match first_error(results.drop_last()) {
            Some(e) => Some(e),
            None => match results.last() {
                Err(e) => Some(e),
                Ok(_) => None,
            },
        }
    }
}

pub open spec fn suggestion_groups(ids: Seq<String>, results: Seq<Result<Vec<crate::domain::SuggestionItem>, ServiceError>>) -> Seq<Seq<crate::domain::SearchSuggestionItem>> {
    Seq::new(results.len(), |j: int| match results[j] {
        Ok(v) => v@.map_values(|it: crate::domain::SuggestionItem| to_search_item(ids[j], it)),
        Err(_) => seq![],
    })
}

proof fn lemma_first_error_stable<A>(results: Seq<Result<A, ServiceError>>, n: int)
    requires
        0 <= n <= results.len(),
        first_error(results.take(n)) is Some,
    ensures
        first_error(results) == first_error(results.take(n)),
    decreases results.len() - n,
{
    if n < results.len() {
        assert(results.take(n + 1).drop_last() =~= results.take(n));
        lemma_first_error_stable(results, n + 1);
    } else {
        assert(results.take(n) =~= results);
    }
}

/// Combines per-dictionary suggestions (in dictionary order, `ids[j]`
/// answering `results[j]`): the first failure fails the search; otherwise
/// the suggestions, tagged with their dictionary, are taken round-robin up to `limit`.
pub fn search_suggest_items(
    ids: Vec<String>,
    results: Vec<Result<Vec<crate::domain::SuggestionItem>, ServiceError>>,
    limit: usize,
) -> (r: Result<Vec<crate::domain::SearchSuggestionItem>, ServiceError>)
    requires
        ids@.len() == results@.len(),
    ensures
        match first_error(results@) {
            Some(e) => r == Err::<Vec<crate::domain::SearchSuggestionItem>, ServiceError>(e),
            None => r matches Ok(items) && items@ == merged(suggestion_groups(ids@, results@), limit as int),
        },
{
    let ghost rs = results@;
    let ghost is = ids@;
    let n = results.len();
    let mut rest = results;
    let mut idr = ids;
    let mut groups: Vec<Vec<crate::domain::SearchSuggestionItem>> = Vec::new();
    let mut j: usize = 0;
    while j < n
        invariant
            rs == results@,
            is == ids@,
            n == rs.len(),
            is.len() == n,
            j <= n,
            rest@ == rs.skip(j as int),
            idr@ == is.skip(j as int),
            first_error(rs.take(j as int)) is None,
            vec_views(groups@) == suggestion_groups(is, rs).take(j as int),
        decreases n - j,
    {
        let ghost rest_before = rest@;
        let ghost idr_before = idr@;
        let res = rest.remove(0);
        let id = idr.remove(0);
        proof {
            assert(res == rest_before[0]);
            assert(res == rs[j as int]);
            assert(id == idr_before[0]);
            assert(id == is[j as int]);
            assert(rs.skip(j as int)[0] == rs[j as int]);
            assert(is.skip(j as int)[0] == is[j as int]);
            assert(rest@ =~= rs.skip(j + 1));
            assert(idr@ =~= is.skip(j + 1));
            assert(rs.take(j + 1).drop_last() =~= rs.take(j as int));
            assert(rs.take(j + 1).last() == rs[j as int]);
        }
        match res {
            Err(e) => {
                proof {
                    lemma_first_error_stable(rs, j + 1);
                }
                return Err(e);
            },
            Ok(items) => {
                let ghost iv = items@;
                let mut g: Vec<crate::domain::SearchSuggestionItem> = Vec::new();
                let mut src = items;
                let m = src.len();
                let mut k: usize = 0;
                while k < m
                    invariant
                        m == iv.len(),
                        k <= m,
                        src@ == iv.skip(k as int),
                        g@ == iv.take(k as int).map_values(|it: crate::domain::SuggestionItem| to_search_item(id, it)),
                    decreases m - k,
                {
                    let it = src.remove(0);
                    proof {
                        assert(iv.skip(k as int)[0] == iv[k as int]);
                        assert(src@ =~= iv.skip(k + 1));
                    }
                    let did = id.clone();
                    g.push(crate::domain::SearchSuggestionItem {
                        dictionary_id: did,
                        key: it.key,
                        label: it.label,
                        match_type: it.match_type,
                    });
                    assert(g@ =~= iv.take(k + 1).map_values(|it: crate::domain::SuggestionItem| to_search_item(id, it)));
                    k += 1;
                }
                assert(iv.take(m as int) =~= iv);
                proof {
                    assert(suggestion_groups(is, rs)[j as int] == g@);
                    assert(suggestion_groups(is, rs).take(j + 1) =~= suggestion_groups(is, rs).take(j as int).push(g@));
                }
                let ghost old_groups = groups@;
                let ghost gv = g@;
                groups.push(g);
                proof {
                    assert(vec_views(groups@) =~= vec_views(old_groups).push(gv));
                    assert(vec_views(groups@) =~= suggestion_groups(is, rs).take(j + 1));
                }
            },
        }
        j += 1;
    }
    proof {
        assert(rs.take(n as int) =~= rs);
        assert(suggestion_groups(is, rs).take(n as int) =~= suggestion_groups(is, rs));
    }
    Ok(merge_round_robin(groups, limit))
}

/// The answers that count: successes, in dictionary order.
pub open spec fn lookup_hits(results: Seq<Result<LookupResult, ServiceError>>) -> Seq<LookupResult>
    decreases results.len(),
{
    if results.len() == 0 {
        seq![]
    } else {
        let h = lookup_hits(results.drop_last());
        match results.last() {
            Ok(v) => h.push(v),
            Err(_) => h,
        }
    }
}

/// How many of the answers are successes.
pub open spec fn ok_count(results: Seq<Result<LookupResult, ServiceError>>) -> nat
    decreases results.len(),
{
    if results.len() == 0 {
        0
    } else {
        ok_count(results.drop_last()) + if results.last() is Ok { 1nat } else { 0nat }
    }
}

/// Every successful answer is kept, in dictionary order: the `i`-th answer,
/// when it is a success, is item number (successes before it), and there
/// are as many items as successes.
pub proof fn law_lookup_keeps_every_hit(results: Seq<Result<LookupResult, ServiceError>>)
    ensures
        lookup_hits(results).len() == ok_count(results),
        forall|i: int| 0 <= i < results.len() && (#[trigger] results[i]) is Ok ==> {
            &&& ok_count(results.take(i)) < lookup_hits(results).len()
            &&& lookup_hits(results)[ok_count(results.take(i)) as int] == results[i]->Ok_0
        },
    decreases results.len(),
{
    if results.len() > 0 {
        let init = results.drop_last();
        law_lookup_keeps_every_hit(init);
        assert forall|i: int| 0 <= i < results.len() && (#[trigger] results[i]) is Ok implies {
            &&& ok_count(results.take(i)) < lookup_hits(results).len()
            &&& lookup_hits(results)[ok_count(results.take(i)) as int] == results[i]->Ok_0
        } by {
            if i == results.len() - 1 {
                assert(results.take(i) =~= init);
            } else {
                assert(init.take(i) =~= results.take(i));
                assert(init[i] == results[i]);
                assert(init[i] is Ok);
            }
        }
    }
}

/// The first failure other than "entry not found", in dictionary order.
pub open spec fn first_hard_error(results: Seq<Result<LookupResult, ServiceError>>) -> Option<ServiceError>
    decreases results.len(),
{
    if results.len() == 0 {
        None
    } else {
        match first_hard_error(results.drop_last()) {
            Some(e) => Some(e),
            None => match results.last() {
                Err(e) => if e.code == ErrorCode::EntryNotFound { None } else { Some(e) },
                Ok(_) => None,
            },
        }
    }
}

proof fn lemma_first_hard_error_stable(results: Seq<Result<LookupResult, ServiceError>>, n: int)
    requires
        0 <= n <= results.len(),
        first_hard_error(results.take(n)) is Some,
    ensures
        first_hard_error(results) == first_hard_error(results.take(n)),
    decreases results.len() - n,
{
    if n < results.len() {
        assert(results.take(n + 1).drop_last() =~= results.take(n));
        lemma_first_hard_error_stable(results, n + 1);
    } else {
        assert(results.take(n) =~= results);
    }
}

/// Combines per-dictionary lookups (in dictionary order): a dictionary
/// without the entry is left out, any other failure fails the search, and a
/// search that finds the entry nowhere is answered with `entry_not_found`.
pub fn search_lookup_response(key: String, results: Vec<Result<LookupResult, ServiceError>>) -> (r: Result<SearchLookupResponse, ServiceError>)
    ensures
        match first_hard_error(results@) {
            Some(e) => r == Err::<SearchLookupResponse, ServiceError>(e),
            None => if lookup_hits(results@).len() == 0 {
                r matches Err(e) && e.is(STATUS_NOT_FOUND, ErrorCode::EntryNotFound, entry_not_found_in_scope_message(key@))
            } else {
                r matches Ok(resp) && resp.query_key == key && resp.items@ == lookup_hits(results@)
            },
        },
{
    let ghost rs = results@;
    let n = results.len();
    let mut rest = results;
    let mut items: Vec<LookupResult> = Vec::new();
    let mut j: usize = 0;
    while j < n
        invariant
            rs == results@,
            n == rs.len(),
            j <= n,
            rest@ == rs.skip(j as int),
            first_hard_error(rs.take(j as int)) is None,
            items@ == lookup_hits(rs.take(j as int)),
        decreases n - j,
    {
        let res = rest.remove(0);
        proof {
            assert(rs.skip(j as int)[0] == rs[j as int]);
            assert(rest@ =~= rs.skip(j + 1));
            assert(rs.take(j + 1).drop_last() =~= rs.take(j as int));
            assert(rs.take(j + 1).last() == rs[j as int]);
        }
        match res {
            Ok(v) => {
                items.push(v);
            },
            Err(e) => {
                let not_found = match e.code {
                    ErrorCode::EntryNotFound => true,
                    _ => false,
                };
                if !not_found {
                    proof {
                        lemma_first_hard_error_stable(rs, j + 1);
                    }
                    return Err(e);
                }
            },
        }
        j += 1;
    }
    assert(rs.take(n as int) =~= rs);
    if items.len() == 0 {
        return Err(ServiceError::entry_not_found_in_scope(key.as_str()));
    }
    Ok(SearchLookupResponse { query_key: key, items })
}

/// Why the dictionary service could not be (re)built.
#[derive(Debug, Clone, PartialEq, Eq)]
pub enum ServiceBuildError {
    Config(crate::config::ConfigError),
    Join,
}

pub open spec fn service_build_error_message(e: ServiceBuildError) -> Seq<char> {
    match e {
        ServiceBuildError::Config(c) => crate::config::config_error_message(c),
        ServiceBuildError::Join => "failed to reload dictionary service"@,
    }
}

impl ServiceBuildError {
    pub fn message(&self) -> (s: String)
        ensures
            s@ == service_build_error_message(*self),
    {
        match self {
            ServiceBuildError::Config(c) => c.message(),
            ServiceBuildError::Join => "failed to reload dictionary service".to_owned(),
        }
    }
}

proof fn lemma_readiness_partition<D>(catalog: DictionaryCatalog<D>, n: int)
    requires
        0 <= n,
    ensures
        catalog.ready_count(n) + catalog.unavailable_ids(n).len() == n,
    decreases n,
{
    if n > 0 {
        lemma_readiness_partition(catalog, n - 1);
    }
}

/// Readiness accounts for every dictionary of the catalog exactly once:
/// the ready ones are counted, the others listed.
pub proof fn law_readiness_partitions<D>(catalog: DictionaryCatalog<D>)
    ensures
        catalog.ready_count(catalog.ids().len() as int) + catalog.unavailable_ids(catalog.ids().len() as int).len() == catalog.ids().len(),
{
    lemma_readiness_partition(catalog, catalog.ids().len() as int);
}

} // verus!
