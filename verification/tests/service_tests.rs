use mdict_web::config::{DictionaryBundleManifest, EntryScriptMode, ThemeMode as ThemeSetting};
use mdict_web::domain::{
    DictionaryHeaderInfo, DictionaryStatus, ErrorCode, LookupMatchType, LookupResult,
    ServiceError, SuggestionItem, SuggestionMatchType, ThemeMode,
};
use mdict_web::service::{
    entry_content_url, lookup_result, map_theme_mode, merge_round_robin, resource_template_url,
    search_lookup_response, search_suggest_items, suggest_limit, summary, validate_query,
    DictionaryCatalog, DictionaryState, LookupArtifact, ReadyDictionary, ServiceBuildError,
    UnavailableDictionary,
};

fn manifest(id: &str) -> DictionaryBundleManifest {
    DictionaryBundleManifest {
        dictionary_id: id.to_owned(),
        display_name: format!("{id} name"),
        description: None,
        source_lang: Some("en".to_owned()),
        target_lang: None,
        tags: vec!["b".to_owned(), "a".to_owned()],
        mdx_path: format!("/d/{id}.mdx"),
        mdd_paths: vec![],
        entry_script_mode: EntryScriptMode::NoScripts,
        theme_mode: ThemeSetting::ForceAutoDark,
        passcode: None,
        metadata: vec![("k".to_owned(), "v".to_owned())],
    }
}

fn header() -> DictionaryHeaderInfo {
    DictionaryHeaderInfo {
        title: Some("T".to_owned()),
        description: None,
        generated_by_engine_version: "2.0".to_owned(),
        required_engine_version: "2.0".to_owned(),
        encoding_label: None,
    }
}

fn ready(id: &str) -> DictionaryState<u32> {
    DictionaryState::Ready(ReadyDictionary { manifest: manifest(id), entry_count: 7, header: header(), handle: 1 })
}

fn unavailable(id: &str) -> DictionaryState<u32> {
    DictionaryState::Unavailable(UnavailableDictionary {
        manifest: manifest(id),
        reason: "failed to open dictionary bundle".to_owned(),
    })
}

fn catalog() -> DictionaryCatalog<u32> {
    let mut c = DictionaryCatalog::new();
    c.insert("zeta".to_owned(), ready("zeta"));
    c.insert("alpha".to_owned(), unavailable("alpha"));
    c.insert("mid".to_owned(), ready("mid"));
    c
}

fn hit(id: &str) -> LookupResult {
    lookup_result(
        id,
        "apple".to_owned(),
        LookupArtifact {
            resolved_key: "apple".to_owned(),
            redirected_from: None,
            match_type: LookupMatchType::Exact,
            etag: "\"e\"".to_owned(),
            has_resources: false,
        },
    )
}

#[test]
fn queries_must_be_present_and_short() {
    assert!(validate_query("q", "app", 10).is_ok());
    let blank = validate_query("q", " \t", 10).unwrap_err();
    assert_eq!(blank.code, ErrorCode::BadRequest);
    assert_eq!(blank.message, "query parameter `q` must not be empty");
    let long = validate_query("key", "ééé", 5).unwrap_err();
    assert_eq!(long.message, "query parameter `key` exceeds the maximum length of 5");
}

#[test]
fn suggest_limit_defaults_and_caps() {
    assert_eq!(suggest_limit(None), 20);
    assert_eq!(suggest_limit(Some(3)), 3);
    assert_eq!(suggest_limit(Some(500)), 50);
}

#[test]
fn urls_address_entries_and_resources() {
    assert_eq!(
        entry_content_url("demo", "a b/é"),
        "/api/v1/dictionaries/demo/entries/content?key=a%20b%2F%C3%A9"
    );
    assert_eq!(
        resource_template_url("demo"),
        "/api/v1/dictionaries/demo/resources/content?key={resource_key}"
    );
    let r = hit("demo");
    assert_eq!(r.content_url, "/api/v1/dictionaries/demo/entries/content?key=apple");
    assert_eq!(r.dictionary_id, "demo");
}

#[test]
fn theme_modes_map_one_to_one() {
    assert_eq!(map_theme_mode(ThemeSetting::Auto), ThemeMode::Auto);
    assert_eq!(map_theme_mode(ThemeSetting::Dictionary), ThemeMode::Dictionary);
    assert_eq!(map_theme_mode(ThemeSetting::ForceAutoDark), ThemeMode::ForceAutoDark);
}

#[test]
fn catalog_lists_dictionaries_in_id_order() {
    let c = catalog();
    assert_eq!(c.len(), 3);
    let list = c.list_dictionaries();
    let ids: Vec<&str> = list.items.iter().map(|s| s.dictionary_id.as_str()).collect();
    assert_eq!(ids, vec!["alpha", "mid", "zeta"]);
    assert_eq!(list.items[0].status, DictionaryStatus::Unavailable);
    assert_eq!(list.items[0].entry_count, 0);
    assert_eq!(list.items[1].entry_count, 7);
    assert_eq!(list.items[1].tags, vec!["b".to_owned(), "a".to_owned()]);
    assert_eq!(list.items[1].theme_mode, ThemeMode::ForceAutoDark);
    let s = summary(&ready("x"));
    assert_eq!(s.status, DictionaryStatus::Ready);
    assert_eq!(s.display_name, "x name");
}

#[test]
fn readiness_counts_every_dictionary_once() {
    let r = catalog().readiness();
    assert_eq!(r.status, "degraded");
    assert_eq!(r.ready_dictionaries, 2);
    assert_eq!(r.unavailable_dictionaries, vec!["alpha".to_owned()]);
    let mut all_ready = DictionaryCatalog::new();
    all_ready.insert("a".to_owned(), ready("a"));
    assert_eq!(all_ready.readiness().status, "ready");
}

#[test]
fn requests_reach_only_ready_dictionaries() {
    let c = catalog();
    assert!(c.ready_dictionary("mid").is_ok());
    let missing = c.ready_dictionary("nope").unwrap_err();
    assert_eq!(missing.code, ErrorCode::DictionaryNotFound);
    let down = c.ready_dictionary("alpha").unwrap_err();
    assert_eq!(down.code, ErrorCode::DictionaryUnavailable);
    let detail = c.dictionary_detail("zeta").expect("detail");
    assert_eq!(detail.metadata, vec![("k".to_owned(), "v".to_owned())]);
    assert_eq!(detail.header.title, Some("T".to_owned()));
}

#[test]
fn selection_skips_repeats_and_defaults_to_all_ready() {
    let c = catalog();
    let all = c.selected_dictionaries(&vec![]).expect("all");
    assert_eq!(all.len(), 2);
    let some = c
        .selected_dictionaries(&vec!["zeta".to_owned(), "mid".to_owned(), "zeta".to_owned()])
        .expect("some");
    assert_eq!(some.len(), 2);
    assert_eq!(c.entry(some[0]).0, "zeta");
    assert!(c.selected_dictionaries(&vec!["alpha".to_owned()]).is_err());
}

#[test]
fn round_robin_takes_one_from_each_group_in_turn() {
    let merged = merge_round_robin(vec![vec![1, 2, 3], vec![], vec![10, 20]], 4);
    assert_eq!(merged, vec![1, 10, 2, 20]);
    assert_eq!(merge_round_robin(vec![vec![1, 2], vec![3]], 10), vec![1, 3, 2]);
    assert_eq!(merge_round_robin(vec![vec![1, 2]], 0), Vec::<i32>::new());
}

#[test]
fn search_suggest_tags_items_with_their_dictionary() {
    let item = |k: &str| SuggestionItem { key: k.to_owned(), label: k.to_owned(), match_type: SuggestionMatchType::Prefix };
    let items = search_suggest_items(
        vec!["a".to_owned(), "b".to_owned()],
        vec![Ok(vec![item("x"), item("y")]), Ok(vec![item("z")])],
        3,
    )
    .expect("merged");
    let pairs: Vec<(String, String)> = items.into_iter().map(|i| (i.dictionary_id, i.key)).collect();
    assert_eq!(
        pairs,
        vec![("a".into(), "x".into()), ("b".into(), "z".into()), ("a".into(), "y".into())]
    );
    let failed = search_suggest_items(
        vec!["a".to_owned()],
        vec![Err(ServiceError::internal("boom".to_owned()))],
        3,
    );
    assert_eq!(failed.unwrap_err().message, "boom");
}

#[test]
fn search_lookup_skips_dictionaries_without_the_entry() {
    let resp = search_lookup_response(
        "apple".to_owned(),
        vec![Err(ServiceError::entry_not_found("a", "apple")), Ok(hit("b"))],
    )
    .expect("found");
    assert_eq!(resp.items.len(), 1);
    assert_eq!(resp.items[0].dictionary_id, "b");
    let none = search_lookup_response("apple".to_owned(), vec![Err(ServiceError::entry_not_found("a", "apple"))]).unwrap_err();
    assert_eq!(none.code, ErrorCode::EntryNotFound);
    assert_eq!(none.message, "entry `apple` was not found in the selected dictionaries");
    let hard = search_lookup_response("apple".to_owned(), vec![Ok(hit("a")), Err(ServiceError::internal("io".to_owned()))]).unwrap_err();
    assert_eq!(hard.code, ErrorCode::InternalError);
}

#[test]
fn build_errors_explain_themselves() {
    assert_eq!(ServiceBuildError::Join.message(), "failed to reload dictionary service");
    assert_eq!(
        ServiceBuildError::Config(mdict_web::config::ConfigError::Invalid("x".to_owned())).message(),
        "invalid config: x"
    );
}
