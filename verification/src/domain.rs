//! Data shapes of the public API and the service error model.

use vstd::prelude::*;
use crate::text::{chars_of, compare_chars, push_str, seq_less, string_of};

verus! {

/// HTTP status codes that the service answers with.
pub const STATUS_OK: u16 = 200;
pub const STATUS_BAD_REQUEST: u16 = 400;
pub const STATUS_UNAUTHORIZED: u16 = 401;
pub const STATUS_NOT_FOUND: u16 = 404;
pub const STATUS_TOO_MANY_REQUESTS: u16 = 429;
pub const STATUS_INTERNAL_SERVER_ERROR: u16 = 500;
pub const STATUS_SERVICE_UNAVAILABLE: u16 = 503;

#[derive(Debug, Clone, Copy, PartialEq, Eq, Structural)]
pub enum DictionaryStatus {
    Ready,
    Unavailable,
}

#[derive(Debug, Clone, Copy, PartialEq, Eq, Structural)]
pub enum LookupMatchType {
    Exact,
    Normalized,
}

#[derive(Debug, Clone, Copy, PartialEq, Eq, Structural)]
pub enum SuggestionMatchType {
    Prefix,
}

/// Dictionary-level night mode policy that the viewer follows.
#[derive(Debug, Clone, Copy, PartialEq, Eq, Structural)]
pub enum ThemeMode {
    Auto,
    Dictionary,
    ForceAutoDark,
}

#[derive(Debug, Clone, Copy, PartialEq, Eq, Structural)]
pub enum ErrorCode {
    BadRequest,
    DictionaryNotFound,
    EntryNotFound,
    ResourceNotFound,
    DictionaryUnavailable,
    RateLimited,
    Unauthorized,
    InternalError,
}

/// The stable machine-readable name of an error code.
pub open spec fn error_code_name(code: ErrorCode) -> Seq<char> {
    match code {
        ErrorCode::BadRequest => "bad_request"@,
        ErrorCode::DictionaryNotFound => "dictionary_not_found"@,
        ErrorCode::EntryNotFound => "entry_not_found"@,
        ErrorCode::ResourceNotFound => "resource_not_found"@,
        ErrorCode::DictionaryUnavailable => "dictionary_unavailable"@,
        ErrorCode::RateLimited => "rate_limited"@,
        ErrorCode::Unauthorized => "unauthorized"@,
        ErrorCode::InternalError => "internal_error"@,
    }
}

impl ErrorCode {
    pub fn as_str(self) -> (s: &'static str)
        ensures
            s@ == error_code_name(self),
    {
        match self {
            ErrorCode::BadRequest => "bad_request",
            ErrorCode::DictionaryNotFound => "dictionary_not_found",
            ErrorCode::EntryNotFound => "entry_not_found",
            ErrorCode::ResourceNotFound => "resource_not_found",
            ErrorCode::DictionaryUnavailable => "dictionary_unavailable",
            ErrorCode::RateLimited => "rate_limited",
            ErrorCode::Unauthorized => "unauthorized",
            ErrorCode::InternalError => "internal_error",
        }
    }
}

/// One entry of an error's `details` object: a key and the JSON text of its value.
#[derive(Debug, Clone, PartialEq, Eq)]
pub struct ErrorDetail {
    pub key: String,
    pub value_json: String,
}

#[derive(Debug, Clone, PartialEq, Eq)]
pub struct ErrorPayload {
    pub code: String,
    pub message: String,
    pub request_id: String,
    pub details: Vec<ErrorDetail>,
}

#[derive(Debug, Clone, PartialEq, Eq)]
pub struct ErrorEnvelope {
    pub error: ErrorPayload,
}

/// An error that a request ends in: HTTP status, stable code, readable message,
/// and details whose keys are kept in ascending order without repetition.
#[derive(Debug, Clone)]
pub struct ServiceError {
    pub status: u16,
    pub code: ErrorCode,
    pub message: String,
    pub details: Vec<ErrorDetail>,
}

pub open spec fn detail_keys(d: Seq<ErrorDetail>) -> Seq<Seq<char>> {
    d.map_values(|e: ErrorDetail| e.key@)
}

/// Keys strictly ascending.
pub open spec fn keys_ascending(keys: Seq<Seq<char>>) -> bool {
    forall|i: int, j: int| 0 <= i < j < keys.len() ==> seq_less(keys[i], keys[j])
}

pub open spec fn dictionary_not_found_message(dictionary_id: Seq<char>) -> Seq<char> {
    "dictionary `"@ + dictionary_id + "` was not found"@
}

pub open spec fn entry_not_found_message(dictionary_id: Seq<char>, key: Seq<char>) -> Seq<char> {
    "entry `"@ + key + "` was not found in dictionary `"@ + dictionary_id + "`"@
}

pub open spec fn entry_not_found_in_scope_message(key: Seq<char>) -> Seq<char> {
    "entry `"@ + key + "` was not found in the selected dictionaries"@
}

pub open spec fn resource_not_found_message(dictionary_id: Seq<char>, key: Seq<char>) -> Seq<
    char,
> {
    "resource `"@ + key + "` was not found in dictionary `"@ + dictionary_id + "`"@
}

pub open spec fn dictionary_unavailable_message(dictionary_id: Seq<char>, reason: Seq<char>) -> Seq<
    char,
> {
    "dictionary `"@ + dictionary_id + "` is unavailable: "@ + reason
}

/// The human-readable rendering of an error: `message (code)`.
pub open spec fn describe_error(message: Seq<char>, code: ErrorCode) -> Seq<char> {
    message + " ("@ + error_code_name(code) + ")"@
}

impl ServiceError {
    pub open spec fn is(&self, status: u16, code: ErrorCode, message: Seq<char>) -> bool {
        &&& self.status == status
        &&& self.code == code
        &&& self.message@ == message
        &&& self.details@.len() == 0
    }

    pub fn new(status: u16, code: ErrorCode, message: String) -> (e: Self)
        ensures
            e.is(status, code, message@),
    {
        ServiceError { status, code, message, details: Vec::new() }
    }

    pub fn bad_request(message: String) -> (e: Self)
        ensures
            e.is(STATUS_BAD_REQUEST, ErrorCode::BadRequest, message@),
    {
        Self::new(STATUS_BAD_REQUEST, ErrorCode::BadRequest, message)
    }

    pub fn dictionary_not_found(dictionary_id: &str) -> (e: Self)
        ensures
            e.is(
                STATUS_NOT_FOUND,
                ErrorCode::DictionaryNotFound,
                dictionary_not_found_message(dictionary_id@),
            ),
    {
        let mut m: Vec<char> = Vec::new();
        push_str(&mut m, "dictionary `");
        push_str(&mut m, dictionary_id);
        push_str(&mut m, "` was not found");
        Self::new(STATUS_NOT_FOUND, ErrorCode::DictionaryNotFound, string_of(&m))
    }

    pub fn entry_not_found(dictionary_id: &str, key: &str) -> (e: Self)
        ensures
            e.is(
                STATUS_NOT_FOUND,
                ErrorCode::EntryNotFound,
                entry_not_found_message(dictionary_id@, key@),
            ),
    {
        let mut m: Vec<char> = Vec::new();
        push_str(&mut m, "entry `");
        push_str(&mut m, key);
        push_str(&mut m, "` was not found in dictionary `");
        push_str(&mut m, dictionary_id);
        push_str(&mut m, "`");
        Self::new(STATUS_NOT_FOUND, ErrorCode::EntryNotFound, string_of(&m))
    }

    pub fn entry_not_found_in_scope(key: &str) -> (e: Self)
        ensures
            e.is(
                STATUS_NOT_FOUND,
                ErrorCode::EntryNotFound,
                entry_not_found_in_scope_message(key@),
            ),
    {
        let mut m: Vec<char> = Vec::new();
        push_str(&mut m, "entry `");
        push_str(&mut m, key);
        push_str(&mut m, "` was not found in the selected dictionaries");
        Self::new(STATUS_NOT_FOUND, ErrorCode::EntryNotFound, string_of(&m))
    }

    pub fn resource_not_found(dictionary_id: &str, key: &str) -> (e: Self)
        ensures
            e.is(
                STATUS_NOT_FOUND,
                ErrorCode::ResourceNotFound,
                resource_not_found_message(dictionary_id@, key@),
            ),
    {
        let mut m: Vec<char> = Vec::new();
        push_str(&mut m, "resource `");
        push_str(&mut m, key);
        push_str(&mut m, "` was not found in dictionary `");
        push_str(&mut m, dictionary_id);
        push_str(&mut m, "`");
        Self::new(STATUS_NOT_FOUND, ErrorCode::ResourceNotFound, string_of(&m))
    }

    pub fn dictionary_unavailable(dictionary_id: &str, reason: &str) -> (e: Self)
        ensures
            e.is(
                STATUS_SERVICE_UNAVAILABLE,
                ErrorCode::DictionaryUnavailable,
                dictionary_unavailable_message(dictionary_id@, reason@),
            ),
    {
        let mut m: Vec<char> = Vec::new();
        push_str(&mut m, "dictionary `");
        push_str(&mut m, dictionary_id);
        push_str(&mut m, "` is unavailable: ");
        push_str(&mut m, reason);
        Self::new(STATUS_SERVICE_UNAVAILABLE, ErrorCode::DictionaryUnavailable, string_of(&m))
    }

    pub fn rate_limited(message: String) -> (e: Self)
        ensures
            e.is(STATUS_TOO_MANY_REQUESTS, ErrorCode::RateLimited, message@),
    {
        Self::new(STATUS_TOO_MANY_REQUESTS, ErrorCode::RateLimited, message)
    }

    pub fn unauthorized(message: String) -> (e: Self)
        ensures
            e.is(STATUS_UNAUTHORIZED, ErrorCode::Unauthorized, message@),
    {
        Self::new(STATUS_UNAUTHORIZED, ErrorCode::Unauthorized, message)
    }

    pub fn internal(message: String) -> (e: Self)
        ensures
            e.is(STATUS_INTERNAL_SERVER_ERROR, ErrorCode::InternalError, message@),
    {
        Self::new(STATUS_INTERNAL_SERVER_ERROR, ErrorCode::InternalError, message)
    }

    /// Adds or replaces the detail `key` (its value given as JSON text),
    /// keeping the details ordered by key.
    pub fn with_detail(self, key: String, value_json: String) -> (e: Self)
        requires
            keys_ascending(detail_keys(self.details@)),
        ensures
            e.status == self.status,
            e.code == self.code,
            e.message == self.message,
            keys_ascending(detail_keys(e.details@)),
            exists|j: int|
                0 <= j < e.details@.len() && (#[trigger] e.details@[j]).key@ == key@
                    && e.details@[j].value_json@ == value_json@,
            forall|i: int|
                0 <= i < self.details@.len() && self.details@[i].key@ != key@ ==> exists|j: int|
                    0 <= j < e.details@.len() && e.details@[j] == #[trigger] self.details@[i],
            forall|j: int|
                0 <= j < e.details@.len() && e.details@[j].key@ != key@ ==> exists|i: int|
                    0 <= i < self.details@.len() && self.details@[i] == #[trigger] e.details@[j],
    {
        let mut details = self.details;
        let kc = chars_of(key.as_str());
        let mut i: usize = 0;
        let mut found = false;
        while i < details.len()
            invariant_except_break
                i <= details@.len(),
                !found,
                forall|k: int| 0 <= k < i ==> seq_less(#[trigger] details@[k].key@, kc@),
            invariant
                details@ == self.details@,
                kc@ == key@,
            ensures
                i <= details@.len(),
                forall|k: int| 0 <= k < i ==> seq_less(#[trigger] details@[k].key@, kc@),
                found ==> i < details@.len() && details@[i as int].key@ == kc@,
                !found && i < details@.len() ==> seq_less(kc@, details@[i as int].key@),
            decreases details@.len() - i,
        {
            let ec = chars_of(details[i].key.as_str());
            let c = compare_chars(&ec, &kc);
            if c == 0 {
                found = true;
                break;
            } else if c == 1 {
                break;
            }
            i += 1;
        }
        let ghost old_details = details@;
        let ghost vv = value_json@;
        let ghost kk = key@;
        assert(kk == kc@);
        let entry = ErrorDetail { key, value_json };
        assert(entry.key@ == key@ && entry.value_json@ == vv);
        if found {
            details.set(i, entry);
            proof {
                assert(detail_keys(details@) == detail_keys(old_details));
                assert forall|j: int|
                    0 <= j < details@.len() && details@[j].key@ != key@ implies exists|m: int|
                    0 <= m < old_details.len() && old_details[m] == #[trigger] details@[j] by {
                    assert(old_details[j] == details@[j]);
                }
                assert forall|m: int|
                    0 <= m < old_details.len() && old_details[m].key@ != key@ implies exists|j: int|
                    0 <= j < details@.len() && details@[j] == #[trigger] old_details[m] by {
                    assert(old_details[m] == details@[m]);
                }
                assert(details@[i as int] == entry);
            }
        } else {
            details.insert(i, entry);
            proof {
                let nk = detail_keys(details@);
                let ok = detail_keys(old_details);
                assert forall|a: int, b: int| 0 <= a < b < nk.len() implies seq_less(
                    nk[a],
                    nk[b],
                ) by {
                    if b < i {
                        assert(nk[a] == ok[a] && nk[b] == ok[b]);
                    } else if b == i {
                        assert(nk[a] == ok[a]);
                    } else if a == i {
                        assert(nk[b] == ok[b - 1]);
                        if b - 1 > i {
                            crate::text::lemma_seq_less_transitive(kc@, ok[i as int], ok[b - 1]);
                        }
                    } else if a < i {
                        assert(nk[a] == ok[a] && nk[b] == ok[b - 1]);
                        if b - 1 > i {
                            crate::text::lemma_seq_less_transitive(kc@, ok[i as int], ok[b - 1]);
                        }
                        crate::text::lemma_seq_less_transitive(ok[a], kc@, ok[b - 1]);
                    } else {
                        assert(nk[a] == ok[a - 1] && nk[b] == ok[b - 1]);
                    }
                }
                assert forall|j: int|
                    0 <= j < details@.len() && details@[j].key@ != key@ implies exists|m: int|
                    0 <= m < old_details.len() && old_details[m] == #[trigger] details@[j] by {
                    if j < i {
                        assert(old_details[j] == details@[j]);
                    } else {
                        assert(old_details[j - 1] == details@[j]);
                    }
                }
                assert forall|m: int|
                    0 <= m < old_details.len() && old_details[m].key@ != key@ implies exists|j: int|
                    0 <= j < details@.len() && details@[j] == #[trigger] old_details[m] by {
                    if m < i {
                        assert(old_details[m] == details@[m]);
                    } else {
                        assert(old_details[m] == details@[m + 1]);
                    }
                }
                assert(details@[i as int] == entry);
            }
        }
        assert(details@[i as int].key@ == kk && details@[i as int].value_json@ == vv);
        assert(exists|j: int| 0 <= j < details@.len() && (#[trigger] details@[j]).key@ == kk && details@[j].value_json@ == vv);
        let e = ServiceError { status: self.status, code: self.code, message: self.message, details };
        assert(e.details@[i as int].key@ == kk);
        assert(e.details@[i as int].value_json@ == vv);
        e
    }

    /// The JSON error body for this error, tagged with `request_id`.
    pub fn into_envelope(self, request_id: String) -> (env: ErrorEnvelope)
        ensures
            env.error.code@ == error_code_name(self.code),
            env.error.message == self.message,
            env.error.request_id == request_id,
            env.error.details == self.details,
    {
        let code = self.code.as_str();
        ErrorEnvelope {
            error: ErrorPayload {
                code: code.to_owned(),
                message: self.message,
                request_id,
                details: self.details,
            },
        }
    }

    /// The readable rendering `message (code)`.
    pub fn describe(&self) -> (s: String)
        ensures
            s@ == describe_error(self.message@, self.code),
    {
        let mut m: Vec<char> = Vec::new();
        push_str(&mut m, self.message.as_str());
        push_str(&mut m, " (");
        push_str(&mut m, self.code.as_str());
        push_str(&mut m, ")");
        string_of(&m)
    }
}

#[derive(Debug, Clone, PartialEq, Eq)]
pub struct DictionaryHeaderInfo {
    pub title: Option<String>,
    pub description: Option<String>,
    pub generated_by_engine_version: String,
    pub required_engine_version: String,
    pub encoding_label: Option<String>,
}

#[derive(Debug, Clone, PartialEq, Eq)]
pub struct DictionarySummary {
    pub dictionary_id: String,
    pub display_name: String,
    pub description: Option<String>,
    pub source_lang: Option<String>,
    pub target_lang: Option<String>,
    pub entry_count: u64,
    pub has_resources: bool,
    pub theme_mode: ThemeMode,
    pub tags: Vec<String>,
    pub status: DictionaryStatus,
}

#[derive(Debug, Clone, PartialEq, Eq)]
pub struct DictionaryDetail {
    pub summary: DictionarySummary,
    pub header: DictionaryHeaderInfo,
    /// Extra metadata pairs, ordered by key.
    pub metadata: Vec<(String, String)>,
}

#[derive(Debug, Clone, PartialEq, Eq)]
pub struct DictionaryListResponse {
    pub items: Vec<DictionarySummary>,
}

#[derive(Debug, Clone, PartialEq, Eq)]
pub struct SuggestionItem {
    pub key: String,
    pub label: String,
    pub match_type: SuggestionMatchType,
}

#[derive(Debug, Clone, PartialEq, Eq)]
pub struct SuggestResponse {
    pub dictionary_id: String,
    pub query: String,
    pub items: Vec<SuggestionItem>,
}

#[derive(Debug, Clone, PartialEq, Eq)]
pub struct SearchSuggestionItem {
    pub dictionary_id: String,
    pub key: String,
    pub label: String,
    pub match_type: SuggestionMatchType,
}

#[derive(Debug, Clone, PartialEq, Eq)]
pub struct SearchSuggestResponse {
    pub query: String,
    pub items: Vec<SearchSuggestionItem>,
}

#[derive(Debug, Clone, PartialEq, Eq)]
pub struct LookupResult {
    pub dictionary_id: String,
    pub query_key: String,
    pub resolved_key: String,
    pub redirected_from: Option<String>,
    pub match_type: LookupMatchType,
    pub has_resources: bool,
    pub content_url: String,
    pub resource_url_template: String,
    pub etag: String,
}

#[derive(Debug, Clone, PartialEq, Eq)]
pub struct SearchLookupResponse {
    pub query_key: String,
    pub items: Vec<LookupResult>,
}

#[derive(Debug, Clone, PartialEq, Eq)]
pub struct RenderedEntryContent {
    pub dictionary_id: String,
    pub resolved_key: String,
    pub html: String,
    pub etag: String,
    pub cache_control: String,
}

#[derive(Debug, Clone, PartialEq, Eq)]
pub struct HealthResponse {
    pub status: String,
}

#[derive(Debug, Clone, PartialEq, Eq)]
pub struct ReadinessResponse {
    pub status: String,
    pub ready_dictionaries: usize,
    pub unavailable_dictionaries: Vec<String>,
}

#[derive(Debug, Clone, PartialEq, Eq)]
pub struct ReloadResponse {
    pub status: String,
    pub dictionary_count: usize,
}

#[derive(Debug, Clone, PartialEq, Eq)]
pub enum DomainError {
    Message(String),
}

} // verus!
