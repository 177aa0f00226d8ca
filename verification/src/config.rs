//! Service configuration: dictionary bundle manifests, defaults, path
//! resolution and the rules that a catalog of manifests must satisfy.

use vstd::prelude::*;
use crate::text::{
    ascii_alnum, chars_of, is_ascii_alnum, push_all, push_str, sorted_unique,
    string_of, strings_view, strictly_ascending, trim_spec, trim_str, CharClass,
};

verus! {

#[derive(Debug, Clone, Copy, PartialEq, Eq, Structural)]
pub enum EntryScriptMode {
    /// Dictionary scripts, inline event handlers and `javascript:` links are removed.
    NoScripts,
    /// Dictionary scripts are kept as the dictionary wrote them.
    Original,
}

impl Default for EntryScriptMode {
    fn default() -> (r: Self)
        ensures
            r == EntryScriptMode::NoScripts,
    {
        EntryScriptMode::NoScripts
    }
}

/// Night mode policy of a dictionary, as written in its manifest.
#[derive(Debug, Clone, Copy, PartialEq, Eq, Structural)]
pub enum ThemeMode {
    Auto,
    Dictionary,
    ForceAutoDark,
}

impl Default for ThemeMode {
    fn default() -> (r: Self)
        ensures
            r == ThemeMode::Auto,
    {
        ThemeMode::Auto
    }
}

#[derive(Debug, Clone, PartialEq, Eq)]
pub struct PasscodeConfig {
    pub reg_code_hex: String,
    pub user_id: String,
}

/// One dictionary bundle: an MDX file and its ordered MDD resource files.
#[derive(Debug, Clone, PartialEq, Eq)]
pub struct DictionaryBundleManifest {
    pub dictionary_id: String,
    pub display_name: String,
    pub description: Option<String>,
    pub source_lang: Option<String>,
    pub target_lang: Option<String>,
    pub tags: Vec<String>,
    pub mdx_path: String,
    pub mdd_paths: Vec<String>,
    pub entry_script_mode: EntryScriptMode,
    pub theme_mode: ThemeMode,
    pub passcode: Option<PasscodeConfig>,
    /// Extra metadata pairs, ordered by key.
    pub metadata: Vec<(String, String)>,
}

impl DictionaryBundleManifest {
    pub fn has_resources(&self) -> (b: bool)
        ensures
            b == (self.mdd_paths@.len() > 0),
    {
        self.mdd_paths.len() > 0
    }

    pub fn allows_dictionary_scripts(&self) -> (b: bool)
        ensures
            b == (self.entry_script_mode == EntryScriptMode::Original),
    {
        match self.entry_script_mode {
            EntryScriptMode::Original => true,
            EntryScriptMode::NoScripts => false,
        }
    }
}

/// The resource files of a manifest: a single `mdd_path`, followed by the
/// list `mdd_paths`, in the order written.
pub fn normalize_mdd_paths(mdd_path: Option<String>, mdd_paths: Vec<String>) -> (r: Vec<String>)
    ensures
        r@ == match mdd_path {
            Some(p) => seq![p] + mdd_paths@,
            None => mdd_paths@,
        },
{
    let mut r: Vec<String> = Vec::new();
    match mdd_path {
        Some(p) => r.push(p),
        None => {},
    }
    let mut rest = mdd_paths;
    r.append(&mut rest);
    r
}

#[derive(Debug, Clone, PartialEq, Eq)]
pub struct ServerConfig {
    pub bind: String,
    pub blocking_concurrency: usize,
    pub query_length_limit: usize,
    pub request_body_limit_bytes: usize,
    pub rate_limit_per_second: u64,
}

pub fn default_bind() -> (s: String)
    ensures
        s@ == "127.0.0.1:8080"@,
{
    "127.0.0.1:8080".to_owned()
}

pub fn default_blocking_concurrency() -> (n: usize)
    ensures
        n == 32,
{
    32
}

pub fn default_query_length_limit() -> (n: usize)
    ensures
        n == 512,
{
    512
}

pub fn default_request_body_limit() -> (n: usize)
    ensures
        n == 32 * 1024,
{
    32 * 1024
}

pub fn default_rate_limit() -> (n: u64)
    ensures
        n == 200,
{
    200
}

pub fn default_index_dir() -> (s: String)
    ensures
        s@ == "index"@,
{
    "index".to_owned()
}

pub fn default_index_rebuild() -> (b: bool)
    ensures
        !b,
{
    false
}

pub fn default_entry_cache_capacity() -> (n: u64)
    ensures
        n == 8 * 1024 * 1024,
{
    8 * 1024 * 1024
}

pub fn default_resource_cache_capacity() -> (n: u64)
    ensures
        n == 32 * 1024 * 1024,
{
    32 * 1024 * 1024
}

pub fn default_resource_cache_item_limit() -> (n: usize)
    ensures
        n == 512 * 1024,
{
    512 * 1024
}

pub fn default_metrics_enabled() -> (b: bool)
    ensures
        b,
{
    true
}

pub fn default_metrics_path() -> (s: String)
    ensures
        s@ == "/metrics"@,
{
    "/metrics".to_owned()
}

impl Default for ServerConfig {
    fn default() -> (r: Self)
        ensures
            r.bind@ == "127.0.0.1:8080"@,
            r.blocking_concurrency == 32,
            r.query_length_limit == 512,
            r.request_body_limit_bytes == 32 * 1024,
            r.rate_limit_per_second == 200,
    {
        ServerConfig {
            bind: default_bind(),
            blocking_concurrency: default_blocking_concurrency(),
            query_length_limit: default_query_length_limit(),
            request_body_limit_bytes: default_request_body_limit(),
            rate_limit_per_second: default_rate_limit(),
        }
    }
}

#[derive(Debug, Clone, PartialEq, Eq)]
pub struct CatalogConfig {
    pub manifests_dir: Option<String>,
    pub bundles: Vec<DictionaryBundleManifest>,
}

impl Default for CatalogConfig {
    fn default() -> (r: Self)
        ensures
            r.manifests_dir is None,
            r.bundles@.len() == 0,
    {
        CatalogConfig { manifests_dir: None, bundles: Vec::new() }
    }
}

#[derive(Debug, Clone, PartialEq, Eq)]
pub struct IndexConfig {
    pub dir: String,
    pub rebuild_on_startup: bool,
}

impl Default for IndexConfig {
    fn default() -> (r: Self)
        ensures
            r.dir@ == "index"@,
            !r.rebuild_on_startup,
    {
        IndexConfig { dir: default_index_dir(), rebuild_on_startup: default_index_rebuild() }
    }
}

#[derive(Debug, Clone, PartialEq, Eq)]
pub struct EntryCacheConfig {
    pub enabled: bool,
    pub max_capacity: u64,
}

impl Default for EntryCacheConfig {
    fn default() -> (r: Self)
        ensures
            !r.enabled,
            r.max_capacity == 8 * 1024 * 1024,
    {
        EntryCacheConfig { enabled: false, max_capacity: default_entry_cache_capacity() }
    }
}

#[derive(Debug, Clone, PartialEq, Eq)]
pub struct ResourceCacheConfig {
    pub enabled: bool,
    pub max_capacity: u64,
    pub max_item_bytes: usize,
}

impl Default for ResourceCacheConfig {
    fn default() -> (r: Self)
        ensures
            !r.enabled,
            r.max_capacity == 32 * 1024 * 1024,
            r.max_item_bytes == 512 * 1024,
    {
        ResourceCacheConfig {
            enabled: false,
            max_capacity: default_resource_cache_capacity(),
            max_item_bytes: default_resource_cache_item_limit(),
        }
    }
}

#[derive(Debug, Clone, PartialEq, Eq)]
pub struct CacheConfig {
    pub entry: EntryCacheConfig,
    pub resource: ResourceCacheConfig,
}

impl Default for CacheConfig {
    fn default() -> (r: Self)
        ensures
            !r.entry.enabled,
            r.entry.max_capacity == 8 * 1024 * 1024,
            !r.resource.enabled,
            r.resource.max_capacity == 32 * 1024 * 1024,
            r.resource.max_item_bytes == 512 * 1024,
    {
        CacheConfig { entry: EntryCacheConfig::default(), resource: ResourceCacheConfig::default() }
    }
}

#[derive(Debug, Clone, PartialEq, Eq)]
pub struct ObservabilityConfig {
    pub metrics_enabled: bool,
    pub metrics_path: String,
}

impl Default for ObservabilityConfig {
    fn default() -> (r: Self)
        ensures
            r.metrics_enabled,
            r.metrics_path@ == "/metrics"@,
    {
        ObservabilityConfig {
            metrics_enabled: default_metrics_enabled(),
            metrics_path: default_metrics_path(),
        }
    }
}

#[derive(Debug, Clone, PartialEq, Eq)]
pub struct AdminConfig {
    pub reload_token: Option<String>,
}

impl Default for AdminConfig {
    fn default() -> (r: Self)
        ensures
            r.reload_token is None,
    {
        AdminConfig { reload_token: None }
    }
}

#[derive(Debug, Clone, PartialEq, Eq)]
pub struct AppConfig {
    pub server: ServerConfig,
    pub catalog: CatalogConfig,
    pub index: IndexConfig,
    pub cache: CacheConfig,
    pub observability: ObservabilityConfig,
    pub admin: AdminConfig,
    pub config_path: String,
}

/// Why a configuration could not be loaded.
#[derive(Debug, Clone, PartialEq, Eq)]
pub enum ConfigError {
    Io(String),
    Toml(String),
    Invalid(String),
}

pub open spec fn config_error_message(e: ConfigError) -> Seq<char> {
    match e {
        ConfigError::Io(m) => "failed to read config file: "@ + m@,
        ConfigError::Toml(m) => "failed to parse TOML config: "@ + m@,
        ConfigError::Invalid(m) => "invalid config: "@ + m@,
    }
}

impl ConfigError {
    /// The readable rendering of the error.
    pub fn message(&self) -> (s: String)
        ensures
            s@ == config_error_message(*self),
    {
        let mut m: Vec<char> = Vec::new();
        match self {
            ConfigError::Io(d) => {
                push_str(&mut m, "failed to read config file: ");
                push_str(&mut m, d.as_str());
            },
            ConfigError::Toml(d) => {
                push_str(&mut m, "failed to parse TOML config: ");
                push_str(&mut m, d.as_str());
            },
            ConfigError::Invalid(d) => {
                push_str(&mut m, "invalid config: ");
                push_str(&mut m, d.as_str());
            },
        }
        string_of(&m)
    }
}

/// `path` read relative to `base_dir`, as `Path::join` does on Unix: an
/// absolute `path` stands alone; otherwise a separator joins the two unless
/// `base_dir` is empty or already ends in one.
pub open spec fn absolutized(base_dir: Seq<char>, path: Seq<char>) -> Seq<char> {
    if path.len() > 0 && path[0] == '/' {
        path
    } else if base_dir.len() == 0 || base_dir.last() == '/' {
        base_dir + path
    } else {
        base_dir + seq!['/'] + path
    }
}

pub fn absolutize(base_dir: &str, path: &str) -> (r: String)
    ensures
        r@ == absolutized(base_dir@, path@),
{
    let p = chars_of(path);
    if p.len() > 0 && p[0] == '/' {
        return string_of(&p);
    }
    let mut out = chars_of(base_dir);
    if out.len() > 0 && out[out.len() - 1] != '/' {
        out.push('/');
    }
    push_all(&mut out, &p);
    string_of(&out)
}

pub fn absolutize_all(base_dir: &str, paths: &Vec<String>) -> (r: Vec<String>)
    ensures
        r@.len() == paths@.len(),
        forall|i: int| 0 <= i < r@.len() ==> #[trigger] r@[i]@ == absolutized(base_dir@, paths@[i]@),
{
    let mut r: Vec<String> = Vec::new();
    let mut i: usize = 0;
    while i < paths.len()
        invariant
            i <= paths@.len(),
            r@.len() == i,
            forall|k: int| 0 <= k < i ==> #[trigger] r@[k]@ == absolutized(base_dir@, paths@[k]@),
        decreases paths@.len() - i,
    {
        r.push(absolutize(base_dir, paths[i].as_str()));
        i += 1;
    }
    r
}

/// A manifest with its paths read relative to `base_dir` and its tags sorted
/// without repetition.
pub open spec fn resolved_manifest(
    base_dir: Seq<char>,
    m: DictionaryBundleManifest,
    r: DictionaryBundleManifest,
) -> bool {
    &&& r.dictionary_id == m.dictionary_id
    &&& r.display_name == m.display_name
    &&& r.description == m.description
    &&& r.source_lang == m.source_lang
    &&& r.target_lang == m.target_lang
    &&& r.entry_script_mode == m.entry_script_mode
    &&& r.theme_mode == m.theme_mode
    &&& r.passcode == m.passcode
    &&& r.metadata == m.metadata
    &&& r.mdx_path@ == absolutized(base_dir, m.mdx_path@)
    &&& r.mdd_paths@.len() == m.mdd_paths@.len()
    &&& forall|i: int|
        0 <= i < r.mdd_paths@.len() ==> #[trigger] r.mdd_paths@[i]@ == absolutized(
            base_dir,
            m.mdd_paths@[i]@,
        )
    &&& strictly_ascending(strings_view(r.tags@))
    &&& strings_view(r.tags@).to_set() == strings_view(m.tags@).to_set()
}

pub fn resolve_manifest(base_dir: &str, manifest: DictionaryBundleManifest) -> (r:
    DictionaryBundleManifest)
    ensures
        resolved_manifest(base_dir@, manifest, r),
{
    let mdx_path = absolutize(base_dir, manifest.mdx_path.as_str());
    let mdd_paths = absolutize_all(base_dir, &manifest.mdd_paths);
    let tags = sorted_unique(manifest.tags);
    DictionaryBundleManifest {
        dictionary_id: manifest.dictionary_id,
        display_name: manifest.display_name,
        description: manifest.description,
        source_lang: manifest.source_lang,
        target_lang: manifest.target_lang,
        tags,
        mdx_path,
        mdd_paths,
        entry_script_mode: manifest.entry_script_mode,
        theme_mode: manifest.theme_mode,
        passcode: manifest.passcode,
        metadata: manifest.metadata,
    }
}

/// Characters allowed in a dictionary id.
pub open spec fn is_id_char(c: char) -> bool {
    is_ascii_alnum(c) || c == '-' || c == '_'
}

pub open spec fn valid_id_chars(id: Seq<char>) -> bool {
    forall|k: int| 0 <= k < id.len() ==> is_id_char(#[trigger] id[k])
}

pub open spec fn no_bundles_message() -> Seq<char> {
    "at least one dictionary bundle must be configured"@
}

pub open spec fn empty_id_message() -> Seq<char> {
    "dictionary_id must not be empty"@
}

pub open spec fn invalid_id_message(id: Seq<char>) -> Seq<char> {
    "dictionary_id `"@ + id + "` contains invalid characters"@
}

pub open spec fn duplicate_id_message(id: Seq<char>) -> Seq<char> {
    "duplicate dictionary_id `"@ + id + "`"@
}

pub open spec fn empty_display_name_message(id: Seq<char>) -> Seq<char> {
    "display_name must not be empty for `"@ + id + "`"@
}

/// What is wrong with manifest `i`, given that the ones before it passed.
pub open spec fn manifest_field_error(ms: Seq<DictionaryBundleManifest>, i: int) -> Option<
    Seq<char>,
> {
    let id = ms[i].dictionary_id@;
    if id.len() == 0 {
        Some(empty_id_message())
    } else if !valid_id_chars(id) {
        Some(invalid_id_message(id))
    } else if exists|k: int| 0 <= k < i && ms[k].dictionary_id@ == id {
        Some(duplicate_id_message(id))
    } else if trim_spec(ms[i].display_name@, CharClass::Whitespace).len() == 0 {
        Some(empty_display_name_message(id))
    } else {
        None
    }
}

/// The first violation among the first `n` manifests, in manifest order.
pub open spec fn first_field_error(ms: Seq<DictionaryBundleManifest>, n: int) -> Option<
    Seq<char>,
>
    decreases n,
{
    if n <= 0 {
        None
    } else {
        match first_field_error(ms, n - 1) {
            Some(e) => Some(e),
            None => manifest_field_error(ms, n - 1),
        }
    }
}

proof fn lemma_first_field_error_stable(ms: Seq<DictionaryBundleManifest>, a: int, b: int)
    requires
        a <= b,
        first_field_error(ms, a) is Some,
    ensures
        first_field_error(ms, b) == first_field_error(ms, a),
    decreases b - a,
{
    if a < b {
        lemma_first_field_error_stable(ms, a, b - 1);
    }
}

/// Whether `r` is the error `Invalid(message)`.
pub open spec fn is_invalid(r: Result<(), ConfigError>, message: Seq<char>) -> bool {
    match r {
        Err(ConfigError::Invalid(m)) => m@ == message,
        _ => false,
    }
}

/// The rules on manifest fields, checked in manifest order: there is at
/// least one manifest, ids are non-empty, made of ASCII letters, digits,
/// `-` and `_`, and pairwise distinct, and display names are not blank.
pub open spec fn manifest_fields_result(ms: Seq<DictionaryBundleManifest>, r: Result<
    (),
    ConfigError,
>) -> bool {
    if ms.len() == 0 {
        is_invalid(r, no_bundles_message())
    } else {
        match first_field_error(ms, ms.len() as int) {
            Some(e) => is_invalid(r, e),
            None => r is Ok,
        }
    }
}

/// An id made only of ASCII letters (either case), ASCII digits, `-` and
/// `_` has valid characters.
pub proof fn law_plain_ids_are_valid(id: Seq<char>)
    requires
        forall|k: int| 0 <= k < id.len() ==> {
            let c = #[trigger] id[k];
            ('a' <= c && c <= 'z') || ('A' <= c && c <= 'Z') || ('0' <= c && c <= '9') || c == '-' || c == '_'
        },
    ensures
        valid_id_chars(id),
{
    assert forall|k: int| 0 <= k < id.len() implies is_id_char(#[trigger] id[k]) by {
        let c = id[k];
        assert(('a' <= c && c <= 'z') || ('A' <= c && c <= 'Z') || ('0' <= c && c <= '9') || c == '-' || c == '_');
    }
}

/// Manifests are accepted when there is at least one, their ids are
/// non-empty, made of ASCII letters (either case), digits, `-` and `_`, and
/// pairwise distinct, and their display names are not blank.
pub proof fn law_well_formed_manifests_are_accepted(ms: Seq<DictionaryBundleManifest>)
    requires
        ms.len() > 0,
        forall|i: int| 0 <= i < ms.len() ==> (#[trigger] ms[i]).dictionary_id@.len() > 0,
        forall|i: int, k: int| 0 <= i < ms.len() && 0 <= k < ms[i].dictionary_id@.len() ==> {
            let c = #[trigger] ms[i].dictionary_id@[k];
            ('a' <= c && c <= 'z') || ('A' <= c && c <= 'Z') || ('0' <= c && c <= '9') || c == '-' || c == '_'
        },
        forall|i: int, j: int| 0 <= i < j < ms.len() ==> (#[trigger] ms[i]).dictionary_id@ != (#[trigger] ms[j]).dictionary_id@,
        forall|i: int| 0 <= i < ms.len() ==> trim_spec((#[trigger] ms[i]).display_name@, CharClass::Whitespace).len() > 0,
    ensures
        manifest_fields_result(ms, Ok(())),
{
    assert forall|n: int| 0 <= n <= ms.len() implies first_field_error(ms, n) is None by {
        lemma_no_field_error_up_to(ms, n);
    }
}

proof fn lemma_no_field_error_up_to(ms: Seq<DictionaryBundleManifest>, n: int)
    requires
        0 <= n <= ms.len(),
        forall|i: int| 0 <= i < ms.len() ==> (#[trigger] ms[i]).dictionary_id@.len() > 0,
        forall|i: int, k: int| 0 <= i < ms.len() && 0 <= k < ms[i].dictionary_id@.len() ==> {
            let c = #[trigger] ms[i].dictionary_id@[k];
            ('a' <= c && c <= 'z') || ('A' <= c && c <= 'Z') || ('0' <= c && c <= '9') || c == '-' || c == '_'
        },
        forall|i: int, j: int| 0 <= i < j < ms.len() ==> (#[trigger] ms[i]).dictionary_id@ != (#[trigger] ms[j]).dictionary_id@,
        forall|i: int| 0 <= i < ms.len() ==> trim_spec((#[trigger] ms[i]).display_name@, CharClass::Whitespace).len() > 0,
    ensures
        first_field_error(ms, n) is None,
    decreases n,
{
    if n > 0 {
        lemma_no_field_error_up_to(ms, n - 1);
        let i = n - 1;
        let id = ms[i].dictionary_id@;
        assert forall|k: int| 0 <= k < id.len() implies {
            let c = #[trigger] id[k];
            ('a' <= c && c <= 'z') || ('A' <= c && c <= 'Z') || ('0' <= c && c <= '9') || c == '-' || c == '_'
        } by {
            assert(id[k] == ms[i].dictionary_id@[k]);
        }
        law_plain_ids_are_valid(id);
        assert(!exists|k: int| 0 <= k < i && ms[k].dictionary_id@ == id) by {
            if exists|k: int| 0 <= k < i && ms[k].dictionary_id@ == id {
                let k = choose|k: int| 0 <= k < i && ms[k].dictionary_id@ == id;
                assert(ms[k].dictionary_id@ != ms[i].dictionary_id@);
            }
        }
        assert(manifest_field_error(ms, i) is None);
    }
}

fn message_with_id(before: &str, id: &str, after: &str) -> (s: String)
    ensures
        s@ == before@ + id@ + after@,
{
    let mut m: Vec<char> = Vec::new();
    push_str(&mut m, before);
    push_str(&mut m, id);
    push_str(&mut m, after);
    string_of(&m)
}

fn id_chars_valid(id: &str) -> (b: bool)
    ensures
        b == valid_id_chars(id@),
{
    let v = chars_of(id);
    let mut i: usize = 0;
    while i < v.len()
        invariant
            i <= v@.len(),
            v@ == id@,
            forall|k: int| 0 <= k < i ==> is_id_char(#[trigger] v@[k]),
        decreases v@.len() - i,
    {
        let c = v[i];
        if !(ascii_alnum(c) || c == '-' || c == '_') {
            return false;
        }
        i += 1;
    }
    true
}

fn check_manifest_fields(ms: &Vec<DictionaryBundleManifest>, i: usize) -> (r: Result<(), ConfigError>)
    requires
        i < ms@.len(),
    ensures
        match manifest_field_error(ms@, i as int) {
            Some(e) => is_invalid(r, e),
            None => r is Ok,
        },
{
    let m = &ms[i];
    let id = m.dictionary_id.as_str();
    if id.is_empty() {
        return Err(ConfigError::Invalid("dictionary_id must not be empty".to_owned()));
    }
    if !id_chars_valid(id) {
        return Err(
            ConfigError::Invalid(message_with_id("dictionary_id `", id, "` contains invalid characters")),
        );
    }
    let mut k: usize = 0;
    while k < i
        invariant
            k <= i < ms@.len(),
            id@ == ms@[i as int].dictionary_id@,
            id@.len() > 0,
            valid_id_chars(id@),
            forall|j: int| 0 <= j < k ==> ms@[j].dictionary_id@ != ms@[i as int].dictionary_id@,
        decreases i - k,
    {
        if ms[k].dictionary_id == ms[i].dictionary_id {
            assert(ms@[k as int].dictionary_id@ == ms@[i as int].dictionary_id@);
            return Err(ConfigError::Invalid(message_with_id("duplicate dictionary_id `", id, "`")));
        }
        k += 1;
    }
    let name = trim_str(m.display_name.as_str(), CharClass::Whitespace);
    if name.len() == 0 {
        return Err(
            ConfigError::Invalid(message_with_id("display_name must not be empty for `", id, "`")),
        );
    }
    Ok(())
}

/// Checks the rules on manifest fields (see `manifest_fields_result`).
pub fn validate_manifests(manifests: &Vec<DictionaryBundleManifest>) -> (r: Result<(), ConfigError>)
    ensures
        manifest_fields_result(manifests@, r),
{
    if manifests.len() == 0 {
        return Err(
            ConfigError::Invalid("at least one dictionary bundle must be configured".to_owned()),
        );
    }
    let mut i: usize = 0;
    while i < manifests.len()
        invariant
            i <= manifests@.len(),
            first_field_error(manifests@, i as int) is None,
        decreases manifests@.len() - i,
    {
        match check_manifest_fields(manifests, i) {
            Ok(()) => {},
            Err(e) => {
                proof {
                    lemma_first_field_error_stable(manifests@, i + 1, manifests@.len() as int);
                }
                return Err(e);
            },
        }
        i += 1;
    }
    Ok(())
}

/// Which of a bundle's files exist on disk: its MDX file, and each MDD file in order.
#[derive(Debug, Clone, PartialEq, Eq)]
pub struct BundleFilePresence {
    pub mdx: bool,
    pub mdd: Vec<bool>,
}

pub open spec fn missing_mdx_message(id: Seq<char>, path: Seq<char>) -> Seq<char> {
    "mdx file does not exist for `"@ + id + "`: "@ + path
}

pub open spec fn missing_mdd_message(id: Seq<char>, path: Seq<char>) -> Seq<char> {
    "mdd file does not exist for `"@ + id + "`: "@ + path
}

/// The index of the first missing MDD file of a bundle, if any.
pub open spec fn first_missing(present: Seq<bool>) -> Option<int> {
    if exists|k: int| 0 <= k < present.len() && !present[k] {
        Some(choose|k: int| 0 <= k < present.len() && !present[k] && forall|j: int| 0 <= j < k ==> present[j])
    } else {
        None
    }
}

/// What is missing of bundle `i`: its MDX file first, then its first absent MDD file.
pub open spec fn bundle_file_error(
    ms: Seq<DictionaryBundleManifest>,
    present: Seq<BundleFilePresence>,
    i: int,
) -> Option<Seq<char>> {
    let id = ms[i].dictionary_id@;
    if !present[i].mdx {
        Some(missing_mdx_message(id, ms[i].mdx_path@))
    } else {
        match first_missing(present[i].mdd@) {
            Some(k) => Some(missing_mdd_message(id, ms[i].mdd_paths@[k]@)),
            None => None,
        }
    }
}

pub open spec fn first_file_error(
    ms: Seq<DictionaryBundleManifest>,
    present: Seq<BundleFilePresence>,
    n: int,
) -> Option<Seq<char>>
    decreases n,
{
    if n <= 0 {
        None
    } else {
        match first_file_error(ms, present, n - 1) {
            Some(e) => Some(e),
            None => bundle_file_error(ms, present, n - 1),
        }
    }
}

proof fn lemma_first_file_error_stable(
    ms: Seq<DictionaryBundleManifest>,
    present: Seq<BundleFilePresence>,
    a: int,
    b: int,
)
    requires
        a <= b,
        first_file_error(ms, present, a) is Some,
    ensures
        first_file_error(ms, present, b) == first_file_error(ms, present, a),
    decreases b - a,
{
    if a < b {
        lemma_first_file_error_stable(ms, present, a, b - 1);
    }
}

/// Whether `present` describes the files of `ms`, entry for entry.
pub open spec fn presence_matches(ms: Seq<DictionaryBundleManifest>, present: Seq<BundleFilePresence>) -> bool {
    &&& present.len() == ms.len()
    &&& forall|i: int| 0 <= i < ms.len() ==> (#[trigger] present[i]).mdd@.len() == ms[i].mdd_paths@.len()
}

proof fn lemma_first_missing_none(present: Seq<bool>)
    requires
        forall|k: int| 0 <= k < present.len() ==> present[k],
    ensures
        first_missing(present) is None,
{
}

proof fn lemma_first_missing_some(present: Seq<bool>, k: int)
    requires
        0 <= k < present.len(),
        !present[k],
        forall|j: int| 0 <= j < k ==> present[j],
    ensures
        first_missing(present) == Some(k),
{
    let c = choose|c: int| 0 <= c < present.len() && !present[c] && forall|j: int| 0 <= j < c ==> present[j];
    assert(0 <= c < present.len() && !present[c] && forall|j: int| 0 <= j < c ==> present[j]);
    if c < k {
        assert(present[c]);
    }
    if k < c {
        assert(present[k]);
    }
}

/// Checks, in manifest order, that each bundle's MDX file and MDD files exist.
pub fn validate_bundle_files(
    manifests: &Vec<DictionaryBundleManifest>,
    present: &Vec<BundleFilePresence>,
) -> (r: Result<(), ConfigError>)
    requires
        presence_matches(manifests@, present@),
    ensures
        match first_file_error(manifests@, present@, manifests@.len() as int) {
            Some(e) => is_invalid(r, e),
            None => r is Ok,
        },
{
    let mut i: usize = 0;
    while i < manifests.len()
        invariant
            i <= manifests@.len(),
            presence_matches(manifests@, present@),
            first_file_error(manifests@, present@, i as int) is None,
        decreases manifests@.len() - i,
    {
        let m = &manifests[i];
        let id = m.dictionary_id.as_str();
        assert(present@[i as int].mdd@.len() == manifests@[i as int].mdd_paths@.len());
        if !present[i].mdx {
            let msg = message_with_id("mdx file does not exist for `", id, "`: ").concat(
                m.mdx_path.as_str(),
            );
            proof {
                assert(msg@ == missing_mdx_message(id@, m.mdx_path@));
                lemma_first_file_error_stable(manifests@, present@, i + 1, manifests@.len() as int);
            }
            return Err(ConfigError::Invalid(msg));
        }
        let mut k: usize = 0;
        while k < present[i].mdd.len()
            invariant
                i < manifests@.len(),
                m == &manifests@[i as int],
                id@ == manifests@[i as int].dictionary_id@,
                present@[i as int].mdd@.len() == manifests@[i as int].mdd_paths@.len(),
                first_file_error(manifests@, present@, i as int) is None,
                present@[i as int].mdx,
                presence_matches(manifests@, present@),
                k <= present@[i as int].mdd@.len(),
                forall|j: int| 0 <= j < k ==> present@[i as int].mdd@[j],
            decreases present@[i as int].mdd@.len() - k,
        {
            if !present[i].mdd[k] {
                let msg = message_with_id("mdd file does not exist for `", id, "`: ").concat(
                    m.mdd_paths[k].as_str(),
                );
                proof {
                    lemma_first_missing_some(present@[i as int].mdd@, k as int);
                    assert(msg@ == missing_mdd_message(id@, m.mdd_paths@[k as int]@));
                    lemma_first_file_error_stable(manifests@, present@, i + 1, manifests@.len() as int);
                }
                return Err(ConfigError::Invalid(msg));
            }
            k += 1;
        }
        proof {
            lemma_first_missing_none(present@[i as int].mdd@);
        }
        i += 1;
    }
    Ok(())
}

/// The catalog's manifests with their paths resolved: first the bundles
/// written in the config file, relative to `base_dir`, then the manifests
/// found in the manifests directory, each relative to its own directory.
pub fn resolve_bundles(
    base_dir: &str,
    bundles: Vec<DictionaryBundleManifest>,
    discovered: Vec<(String, DictionaryBundleManifest)>,
) -> (r: Vec<DictionaryBundleManifest>)
    ensures
        r@.len() == bundles@.len() + discovered@.len(),
        forall|i: int|
            0 <= i < bundles@.len() ==> resolved_manifest(base_dir@, bundles@[i], #[trigger] r@[i]),
        forall|i: int|
            0 <= i < discovered@.len() ==> resolved_manifest(
                discovered@[i].0@,
                discovered@[i].1,
                #[trigger] r@[bundles@.len() + i],
            ),
{
    let mut r: Vec<DictionaryBundleManifest> = Vec::new();
    let ghost b = bundles@;
    let n = bundles.len();
    let mut rest = bundles;
    let mut i: usize = 0;
    while i < n
        invariant
            n == b.len(),
            i <= n,
            rest@ == b.skip(i as int),
            r@.len() == i,
            forall|k: int| 0 <= k < i ==> resolved_manifest(base_dir@, b[k], #[trigger] r@[k]),
        decreases n - i,
    {
        let m = rest.remove(0);
        assert(b.skip(i as int)[0] == b[i as int]);
        assert(b.skip(i as int).remove(0) == b.skip(i + 1));
        r.push(resolve_manifest(base_dir, m));
        i += 1;
    }
    let ghost d = discovered@;
    let dn = discovered.len();
    let mut rest2 = discovered;
    let mut j: usize = 0;
    while j < dn
        invariant
            n == b.len(),
            dn == d.len(),
            j <= dn,
            rest2@ == d.skip(j as int),
            r@.len() == n + j,
            forall|k: int| 0 <= k < n ==> resolved_manifest(base_dir@, b[k], #[trigger] r@[k]),
            forall|k: int| 0 <= k < j ==> resolved_manifest(d[k].0@, d[k].1, #[trigger] r@[n + k]),
        decreases dn - j,
    {
        let (dir, m) = rest2.remove(0);
        assert(d.skip(j as int)[0] == d[j as int]);
        assert(d.skip(j as int).remove(0) == d.skip(j + 1));
        r.push(resolve_manifest(dir.as_str(), m));
        j += 1;
    }
    r
}

impl AppConfig {
    pub fn bundles(&self) -> (b: &Vec<DictionaryBundleManifest>)
        ensures
            b == &self.catalog.bundles,
    {
        &self.catalog.bundles
    }

    /// Installs the resolved catalog: the index directory is read relative
    /// to `base_dir`, and `manifests` replace the bundles once they pass the
    /// field rules and their files are present; otherwise the first
    /// violation is returned and the bundles stay as they were.
    pub fn apply_catalog(
        &mut self,
        base_dir: &str,
        manifests: Vec<DictionaryBundleManifest>,
        present: &Vec<BundleFilePresence>,
    ) -> (r: Result<(), ConfigError>)
        requires
            presence_matches(manifests@, present@),
        ensures
            final(self).index.dir@ == absolutized(base_dir@, old(self).index.dir@),
            final(self).server == old(self).server,
            final(self).cache == old(self).cache,
            final(self).observability == old(self).observability,
            final(self).admin == old(self).admin,
            final(self).config_path == old(self).config_path,
            final(self).catalog.manifests_dir == old(self).catalog.manifests_dir,
            manifests@.len() == 0 ==> is_invalid(r, no_bundles_message()),
            manifests@.len() > 0 ==> match first_field_error(manifests@, manifests@.len() as int) {
                Some(e) => is_invalid(r, e),
                None => match first_file_error(manifests@, present@, manifests@.len() as int) {
                    Some(e) => is_invalid(r, e),
                    None => r is Ok,
                },
            },
            r is Ok ==> final(self).catalog.bundles@ == manifests@,
            r is Err ==> final(self).catalog.bundles@ == old(self).catalog.bundles@,
    {
        self.index.dir = absolutize(base_dir, self.index.dir.as_str());
        match validate_manifests(&manifests) {
            Ok(()) => {},
            Err(e) => {
                return Err(e);
            },
        }
        match validate_bundle_files(&manifests, present) {
            Ok(()) => {},
            Err(e) => {
                return Err(e);
            },
        }
        self.catalog.bundles = manifests;
        Ok(())
    }
}

} // verus!
