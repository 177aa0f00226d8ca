use mdict_web::domain::ErrorCode;
use mdict_web::http::{
    asset_cache_control, asset_content_type, authorize_reload, bearer_token, etag_matches,
    path_has_extension, reserved_route_path, sanitize_relative_path, FrontendAssets, RateWindow,
};

#[test]
fn if_none_match_lists_are_searched() {
    assert!(etag_matches("\"a\", \"b\"", "\"b\""));
    assert!(etag_matches(" * ", "\"x\""));
    assert!(!etag_matches("\"a\"", "\"b\""));
    assert!(!etag_matches("", "\"b\""));
}

#[test]
fn bearer_tokens_are_read_after_the_scheme() {
    assert_eq!(bearer_token(Some("Bearer  secret ")), Some("secret".to_owned()));
    assert_eq!(bearer_token(Some("Basic abc")), None);
    assert_eq!(bearer_token(None), None);
}

#[test]
fn reload_needs_the_configured_token() {
    assert!(authorize_reload(Some("t0k"), Some("Bearer t0k")).is_ok());
    let wrong = authorize_reload(Some("t0k"), Some("Bearer nope")).unwrap_err();
    assert_eq!(wrong.code, ErrorCode::Unauthorized);
    assert_eq!(wrong.message, "invalid admin token");
    let missing = authorize_reload(Some("t0k"), None).unwrap_err();
    assert_eq!(missing.message, "invalid admin token");
    let off = authorize_reload(None, Some("Bearer t0k")).unwrap_err();
    assert_eq!(off.status, 401);
    assert_eq!(off.message, "admin reload is not configured");
}

#[test]
fn api_routes_are_reserved() {
    assert!(reserved_route_path("api"));
    assert!(reserved_route_path("api/v1/unknown"));
    assert!(reserved_route_path("healthz"));
    assert!(reserved_route_path("metrics/x"));
    assert!(!reserved_route_path("apiary"));
    assert!(!reserved_route_path("client/route"));
}

#[test]
fn sanitized_paths_never_leave_the_asset_directory() {
    assert_eq!(sanitize_relative_path("assets/./app.js"), Some("assets/app.js".to_owned()));
    assert_eq!(sanitize_relative_path("a//b/"), Some("a/b".to_owned()));
    assert_eq!(sanitize_relative_path("../etc/passwd"), None);
    assert_eq!(sanitize_relative_path("a/../b"), None);
    assert_eq!(sanitize_relative_path("/etc/passwd"), None);
    assert_eq!(sanitize_relative_path("./"), None);
}

#[test]
fn extensions_are_read_from_the_last_component() {
    assert!(path_has_extension("assets/app.js"));
    assert!(!path_has_extension("client/route"));
    assert!(!path_has_extension(".hidden"));
    assert!(!path_has_extension("v1.2/route"));
}

#[test]
fn frontend_requests_resolve_to_files_or_the_index() {
    assert!(FrontendAssets::new("/dist".to_owned(), false).is_none());
    let assets = FrontendAssets::new("/dist".to_owned(), true).expect("assets");
    assert_eq!(assets.index_path(), "/dist/index.html");
    let root = assets.resolve_asset(None, false).expect("root");
    assert!(root.is_index);
    let file = assets.resolve_asset(Some("favicon.svg"), true).expect("file");
    assert_eq!(file.path, "/dist/favicon.svg");
    assert!(!file.is_index);
    let route = assets.resolve_asset(Some("client/route"), false).expect("route");
    assert_eq!(route.path, "/dist/index.html");
    assert!(assets.resolve_asset(Some("missing.js"), false).is_none());
    assert!(assets.resolve_asset(Some("../secret"), true).is_none());
    assert_eq!(assets.candidate_file("a/b.css"), Some("/dist/a/b.css".to_owned()));
}

#[test]
fn frontend_headers_follow_the_asset_kind() {
    assert_eq!(asset_content_type("index.html", true), "text/html; charset=utf-8");
    assert_eq!(asset_content_type("style.css", false), "text/css");
    assert_eq!(asset_cache_control(Some("assets/app.123.js"), false), "public, max-age=31536000, immutable");
    assert_eq!(asset_cache_control(Some("favicon.svg"), false), "public, max-age=3600");
    assert_eq!(asset_cache_control(None, true), "no-cache");
}

#[test]
fn rate_window_lets_through_at_most_the_limit_per_second() {
    let mut w = RateWindow::new(1_000);
    assert!(w.allow(1_100, 2));
    assert!(w.allow(1_200, 2));
    assert!(!w.allow(1_999, 2));
    assert_eq!(w.count, 2);
    assert!(w.allow(2_000, 2));
    assert_eq!(w.window_started_at, 2_000);
    assert_eq!(w.count, 1);
    let before = w;
    assert!(w.allow(2_001, 0));
    assert_eq!(w, before);
}

#[test]
fn rate_window_lets_the_first_calls_of_a_window_through() {
    let mut w = RateWindow::new(0);
    let outcomes: Vec<bool> = (0..5).map(|k| w.allow(100 * k, 3)).collect();
    assert_eq!(outcomes, vec![true, true, true, false, false]);
}
