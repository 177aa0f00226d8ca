use mdict_web::config::{
    absolutize, default_bind, default_index_dir, default_metrics_path, default_query_length_limit,
    default_rate_limit, normalize_mdd_paths, resolve_bundles, resolve_manifest, validate_bundle_files,
    validate_manifests, AdminConfig, AppConfig, BundleFilePresence, CacheConfig, CatalogConfig,
    ConfigError, DictionaryBundleManifest, EntryScriptMode, IndexConfig, ObservabilityConfig,
    ServerConfig, ThemeMode,
};

fn manifest(id: &str, display: &str, mdx: &str) -> DictionaryBundleManifest {
    DictionaryBundleManifest {
        dictionary_id: id.to_owned(),
        display_name: display.to_owned(),
        description: None,
        source_lang: None,
        target_lang: None,
        tags: vec![],
        mdx_path: mdx.to_owned(),
        mdd_paths: vec![],
        entry_script_mode: EntryScriptMode::NoScripts,
        theme_mode: ThemeMode::default(),
        passcode: None,
        metadata: vec![],
    }
}

fn app_config() -> AppConfig {
    AppConfig {
        server: ServerConfig::default(),
        catalog: CatalogConfig::default(),
        index: IndexConfig::default(),
        cache: CacheConfig::default(),
        observability: ObservabilityConfig::default(),
        admin: AdminConfig::default(),
        config_path: "/etc/mdict/config.toml".to_owned(),
    }
}

#[test]
fn rejects_duplicate_dictionary_ids() {
    let manifests = vec![
        manifest("demo", "Demo", "/tmp/demo.mdx"),
        manifest("demo", "Demo 2", "/tmp/demo-2.mdx"),
    ];

    let error = validate_manifests(&manifests).expect_err("duplicate ids must fail");
    assert!(error.message().contains("duplicate dictionary_id"));
}

#[test]
fn manifest_rules_name_the_first_violation() {
    let empty: Vec<DictionaryBundleManifest> = vec![];
    assert_eq!(
        validate_manifests(&empty),
        Err(ConfigError::Invalid("at least one dictionary bundle must be configured".to_owned()))
    );
    assert_eq!(
        validate_manifests(&vec![manifest("", "x", "/a.mdx")]),
        Err(ConfigError::Invalid("dictionary_id must not be empty".to_owned()))
    );
    assert_eq!(
        validate_manifests(&vec![manifest("bad id", "x", "/a.mdx")]),
        Err(ConfigError::Invalid("dictionary_id `bad id` contains invalid characters".to_owned()))
    );
    assert_eq!(
        validate_manifests(&vec![manifest("ok-id_1", "  ", "/a.mdx")]),
        Err(ConfigError::Invalid("display_name must not be empty for `ok-id_1`".to_owned()))
    );
    assert!(validate_manifests(&vec![manifest("a", "A", "/a.mdx"), manifest("b", "B", "/b.mdx")]).is_ok());
}

#[test]
fn config_errors_explain_themselves() {
    assert_eq!(ConfigError::Io("x".to_owned()).message(), "failed to read config file: x");
    assert_eq!(ConfigError::Toml("y".to_owned()).message(), "failed to parse TOML config: y");
    assert_eq!(ConfigError::Invalid("z".to_owned()).message(), "invalid config: z");
}

#[test]
fn defaults_match_the_documented_values() {
    assert_eq!(default_bind(), "127.0.0.1:8080");
    assert_eq!(default_index_dir(), "index");
    assert_eq!(default_metrics_path(), "/metrics");
    assert!(default_query_length_limit() > 0);
    assert!(default_rate_limit() > 0);
    assert_eq!(ServerConfig::default().bind, "127.0.0.1:8080");
    assert!(!CacheConfig::default().entry.enabled);
    assert_eq!(EntryScriptMode::default(), EntryScriptMode::NoScripts);
}

#[test]
fn paths_are_read_relative_to_their_base() {
    assert_eq!(absolutize("/etc/mdict", "dicts/a.mdx"), "/etc/mdict/dicts/a.mdx");
    assert_eq!(absolutize("/etc/mdict/", "a.mdx"), "/etc/mdict/a.mdx");
    assert_eq!(absolutize("/etc/mdict", "/abs/a.mdx"), "/abs/a.mdx");
    assert_eq!(absolutize("", "a.mdx"), "a.mdx");
}

#[test]
fn resource_files_keep_their_written_order() {
    assert_eq!(
        normalize_mdd_paths(Some("a.mdd".to_owned()), vec!["b.mdd".to_owned(), "c.mdd".to_owned()]),
        vec!["a.mdd", "b.mdd", "c.mdd"]
    );
    assert_eq!(normalize_mdd_paths(None, vec!["b.mdd".to_owned()]), vec!["b.mdd"]);
}

#[test]
fn resolved_manifests_have_absolute_paths_and_sorted_tags() {
    let mut m = manifest("demo", "Demo", "demo.mdx");
    m.mdd_paths = vec!["demo.mdd".to_owned(), "/abs/x.mdd".to_owned()];
    m.tags = vec!["zh".to_owned(), "en".to_owned(), "zh".to_owned()];
    let r = resolve_manifest("/base", m);
    assert_eq!(r.mdx_path, "/base/demo.mdx");
    assert_eq!(r.mdd_paths, vec!["/base/demo.mdd", "/abs/x.mdd"]);
    assert_eq!(r.tags, vec!["en", "zh"]);

    let all = resolve_bundles(
        "/base",
        vec![manifest("a", "A", "a.mdx")],
        vec![("/manifests".to_owned(), manifest("b", "B", "b.mdx"))],
    );
    assert_eq!(all[0].mdx_path, "/base/a.mdx");
    assert_eq!(all[1].mdx_path, "/manifests/b.mdx");
}

#[test]
fn missing_files_are_reported_in_order() {
    let mut m = manifest("demo", "Demo", "/d/demo.mdx");
    m.mdd_paths = vec!["/d/a.mdd".to_owned(), "/d/b.mdd".to_owned()];
    let ms = vec![m];
    let missing_mdx = vec![BundleFilePresence { mdx: false, mdd: vec![true, true] }];
    assert_eq!(
        validate_bundle_files(&ms, &missing_mdx),
        Err(ConfigError::Invalid("mdx file does not exist for `demo`: /d/demo.mdx".to_owned()))
    );
    let missing_mdd = vec![BundleFilePresence { mdx: true, mdd: vec![true, false] }];
    assert_eq!(
        validate_bundle_files(&ms, &missing_mdd),
        Err(ConfigError::Invalid("mdd file does not exist for `demo`: /d/b.mdd".to_owned()))
    );
    let all = vec![BundleFilePresence { mdx: true, mdd: vec![true, true] }];
    assert!(validate_bundle_files(&ms, &all).is_ok());
}

#[test]
fn catalog_is_installed_only_when_valid() {
    let mut config = app_config();
    let good = vec![manifest("a", "A", "/a.mdx")];
    let present = vec![BundleFilePresence { mdx: true, mdd: vec![] }];
    assert!(config.apply_catalog("/etc/mdict", good.clone(), &present).is_ok());
    assert_eq!(config.bundles(), &good);
    assert_eq!(config.index.dir, "/etc/mdict/index");

    let mut config2 = app_config();
    let bad = vec![manifest("a", "A", "/a.mdx"), manifest("a", "B", "/b.mdx")];
    let present2 = vec![BundleFilePresence { mdx: true, mdd: vec![] }, BundleFilePresence { mdx: true, mdd: vec![] }];
    assert!(config2.apply_catalog("/etc/mdict", bad, &present2).is_err());
    assert!(config2.bundles().is_empty());
}

#[test]
fn manifests_report_resources_and_script_policy() {
    let mut m = manifest("demo", "Demo", "/d/demo.mdx");
    assert!(!m.has_resources());
    assert!(!m.allows_dictionary_scripts());
    m.mdd_paths.push("/d/demo.mdd".to_owned());
    m.entry_script_mode = EntryScriptMode::Original;
    assert!(m.has_resources());
    assert!(m.allows_dictionary_scripts());
}
