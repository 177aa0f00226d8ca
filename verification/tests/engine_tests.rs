use mdict_web::domain::{ErrorCode, LookupMatchType, SuggestionMatchType};
use mdict_web::engine::{
    cache_key, dictionary_version_tag, entry_etag, entry_link_target, lookup_artifact_of,
    first_resource_answer, redirect_step, resource_content_type, resource_etag, resource_key_candidates,
    resource_payload, resource_reply, resource_source, should_materialize_resource, sidecar_resource,
    special_resource_lookup_base, strong_etag, suggestion_items, EngineInitError, FileStamp,
    RedirectState, RedirectStep, ResolvedMdxRecord, ResourceSource, ENTRY_RENDER_VERSION,
    RESOURCE_CACHE_CONTROL,
};
use mdict_web::trusted::ResourceSpan;
use mdict_web::index::IndexError;
use mdict_web::markup::{css_url_pieces, strip_event_handler_attributes, style_block_pieces};
use mdict_web::rewrite::{
    attribute_edits, is_audio_href, resource_looks_like_audio, rewrite_css_urls, rewrite_entry_html,
    rewrite_url_value, AttrEdit, ENTRY_RUNTIME_SCRIPT,
};

#[test]
fn rewrite_css_urls_maps_relative_paths() {
    let rewritten = rewrite_css_urls("demo", "body { background: url(images/a.png); }");
    assert!(
        rewritten.contains("/api/v1/dictionaries/demo/resources/content?key=images%2Fa%2Epng"),
        "{rewritten}"
    );
}

#[test]
fn resource_key_candidates_include_path_variants() {
    let variants = resource_key_candidates("images/a.png");
    assert!(variants.contains(&"images/a.png".to_owned()));
    assert!(variants.contains(&"images\\a.png".to_owned()));
    assert!(variants.contains(&"\\images/a.png".to_owned()));
    assert!(variants.contains(&"\\images\\a.png".to_owned()));
}

#[test]
fn resource_key_candidates_expand_sound_urls() {
    let variants = resource_key_candidates("sound://media/english/ameProns/laadbuild-up.mp3");
    assert!(variants.contains(&"media/english/ameProns/laadbuild-up.mp3".to_owned()));
    assert!(variants.contains(&"\\media\\english\\ameProns\\laadbuild-up.mp3".to_owned()));
}

#[test]
fn rewrite_entry_html_marks_audio_links_for_inline_playback() {
    let rewritten = rewrite_entry_html(
        "demo",
        "<a class=\"speaker\" href=\"sound://media/english/ameProns/apple1.mp3\">\u{a0}</a>",
        false,
    )
    .expect("entry html should rewrite");
    assert!(
        rewritten.contains(
            r#"class="speaker" data-audio-href="/api/v1/dictionaries/demo/resources/content?key=sound%3A%2F%2Fmedia%2Fenglish%2FameProns%2Fapple1%2Emp3""#
        ),
        "{rewritten}"
    );
    assert!(
        !rewritten.contains(
            r#"class="speaker" href="/api/v1/dictionaries/demo/resources/content?key=sound%3A%2F%2Fmedia%2Fenglish%2FameProns%2Fapple1%2Emp3""#
        ),
        "{rewritten}"
    );
    assert!(rewritten.contains(ENTRY_RUNTIME_SCRIPT), "{rewritten}");
}

#[test]
fn rewrite_entry_html_skips_runtime_for_plain_text_entries() {
    let rewritten =
        rewrite_entry_html("demo", "<p>plain text</p>", false).expect("entry html should rewrite");
    assert!(!rewritten.contains(ENTRY_RUNTIME_SCRIPT), "{rewritten}");
}

#[test]
fn entry_link_target_parses_redirect_records() {
    assert_eq!(
        entry_link_target("@@@LINK=build up\r\n"),
        Some("build up".to_owned())
    );
}

#[test]
fn entry_link_target_ignores_normal_html() {
    assert_eq!(
        entry_link_target("<link href=\"LM5style.css\" rel=\"stylesheet\" />"),
        None
    );
}

#[test]
fn entry_link_target_ignores_empty_targets_and_nuls() {
    assert_eq!(entry_link_target("\0 @@@LINK=  \r\n"), None);
    assert_eq!(entry_link_target("\0@@@LINK= go \0"), Some("go".to_owned()));
}

#[test]
fn rewrite_entry_html_drops_scripts_unless_allowed() {
    let html = "<p onclick=\"x()\">hi</p><script>alert(1)</script>";
    let plain = rewrite_entry_html("demo", html, false).expect("rewrites");
    assert!(!plain.contains("alert(1)"), "{plain}");
    assert!(!plain.contains("onclick"), "{plain}");
    assert!(plain.starts_with("<!doctype html><html><head><meta charset=\"utf-8\"></head><body>"));
    let scripted = rewrite_entry_html("demo", html, true).expect("rewrites");
    assert!(scripted.contains("alert(1)"), "{scripted}");
    assert!(scripted.contains("onclick"), "{scripted}");
}

#[test]
fn special_lookup_base_reads_sound_urls_only() {
    let base: Option<String> = special_resource_lookup_base("sound://host/a/b.mp3").map(|v| v.into_iter().collect());
    assert_eq!(base, Some("host/a/b.mp3".to_owned()));
    assert_eq!(special_resource_lookup_base("http://host/a.mp3"), None);
    let host_only: Option<String> = special_resource_lookup_base("sound://host").map(|v| v.into_iter().collect());
    assert_eq!(host_only, Some("host".to_owned()));
}

#[test]
fn resource_key_candidates_are_distinct_and_ordered() {
    let variants = resource_key_candidates(" /a.png ");
    assert_eq!(variants[0], "/a.png");
    assert_eq!(variants, vec!["/a.png", "\\/a.png", "//a.png", "a.png", "\\a.png"]);
    assert!(resource_key_candidates("").is_empty());
}

#[test]
fn strong_etag_quotes_the_blake3_digest() {
    assert_eq!(
        strong_etag(""),
        "\"af1349b9f5f9a1a6a0404dea36dcc9499bcb25c9adc112b7cc9a93cae41f3262\""
    );
    let tag = entry_etag("demo", "v1", "apple", ENTRY_RENDER_VERSION);
    let digest = strong_etag("entry:demo:v1:apple:entry-html-v3");
    assert_eq!(tag, format!("\"entry:demo:apple:{}", &digest[1..]));
    assert_eq!(resource_etag("demo", "v1", "a.png", "resource-v1"), strong_etag("resource:demo:v1:a.png:resource-v1"));
    assert_ne!(tag, entry_etag("demo", "v2", "apple", ENTRY_RENDER_VERSION));
}

#[test]
fn entry_etag_names_dictionary_and_key_before_the_digest() {
    let tag = entry_etag("oald10", "v", "build up", ENTRY_RENDER_VERSION);
    assert!(tag.starts_with("\"entry:oald10:build up:"));
    assert!(tag.ends_with('"'));
    assert_eq!(tag.len(), 74 + "oald10".len() + "build up".len());
}

#[test]
fn strong_etag_is_sixty_four_lowercase_hex_digits_in_quotes() {
    let tag = strong_etag("anything at all");
    assert_eq!(tag.len(), 66);
    assert!(tag.starts_with('"') && tag.ends_with('"'));
    assert!(tag[1..65].chars().all(|c| c.is_ascii_digit() || ('a'..='f').contains(&c)));
}

#[test]
fn version_tag_lists_each_file_stamp() {
    let mdx = FileStamp { len: 10, modified_millis: 20 };
    assert_eq!(dictionary_version_tag(mdx, &vec![]), "mdx:10:20");
    let mdds = vec![FileStamp { len: 3, modified_millis: 4 }, FileStamp { len: 5, modified_millis: 6 }];
    assert_eq!(dictionary_version_tag(mdx, &mdds), "mdx:10:20:mdd:3:4:mdd:5:6");
}

#[test]
fn stylesheets_are_always_materialized() {
    assert!(should_materialize_resource("text/css", 10_000, 10));
    assert!(should_materialize_resource("image/png", 10, 10));
    assert!(!should_materialize_resource("image/png", 11, 10));
    assert_eq!(cache_key("demo", "a.png"), "demo:a.png");
}

#[test]
fn sidecar_files_serve_only_bare_stylesheets_and_scripts() {
    assert_eq!(
        sidecar_resource("/dicts/demo.mdx", "oald.css"),
        Some(("oald.css".to_owned(), "/dicts/oald.css".to_owned()))
    );
    assert_eq!(
        sidecar_resource("/dicts/demo.mdx", " \\Site.JS "),
        Some(("Site.JS".to_owned(), "/dicts/Site.JS".to_owned()))
    );
    assert_eq!(sidecar_resource("demo.mdx", "a.css"), Some(("a.css".to_owned(), "a.css".to_owned())));
    assert_eq!(sidecar_resource("/dicts/demo.mdx", "../etc/x.css"), None);
    assert_eq!(sidecar_resource("/dicts/demo.mdx", "img\\x.css"), None);
    assert_eq!(sidecar_resource("/dicts/demo.mdx", "a.png"), None);
}

#[test]
fn resource_payload_rewrites_stylesheets_only() {
    let css = b"a { background: url(b.png) }".to_vec();
    let out = resource_payload("demo", "text/css", css.clone());
    assert_eq!(
        String::from_utf8(out).unwrap(),
        "a { background: url(\"/api/v1/dictionaries/demo/resources/content?key=b%2Epng\") }"
    );
    assert_eq!(resource_payload("demo", "image/png", css.clone()), css);
    assert_eq!(resource_content_type("a.css"), "text/css");
    assert_eq!(resource_content_type("a.unknownext"), "application/octet-stream");
}

#[test]
fn suggestions_label_each_key() {
    let items = suggestion_items(vec!["apple".to_owned(), "apply".to_owned()]);
    assert_eq!(items.len(), 2);
    assert_eq!(items[1].key, "apply");
    assert_eq!(items[1].label, "apply");
    assert_eq!(items[0].match_type, SuggestionMatchType::Prefix);
}

#[test]
fn lookup_artifact_reports_redirects_and_match_kind() {
    let record = ResolvedMdxRecord {
        matched_key: "Apple".to_owned(),
        redirected_from: None,
        key: "Apple".to_owned(),
        text: "<p>x</p>".to_owned(),
    };
    let exact = lookup_artifact_of("demo", "v", true, "Apple", &record);
    assert_eq!(exact.match_type, LookupMatchType::Exact);
    assert!(exact.has_resources);
    assert_eq!(exact.etag, entry_etag("demo", "v", "Apple", ENTRY_RENDER_VERSION));
    let normalized = lookup_artifact_of("demo", "v", false, "apple", &record);
    assert_eq!(normalized.match_type, LookupMatchType::Normalized);
}

#[test]
fn redirect_step_follows_links_and_detects_loops() {
    let start = RedirectState::start("build-up");
    let step = redirect_step("demo", "build-up", start, Some(("build-up".to_owned(), "@@@LINK=build up".to_owned())));
    let next = match step {
        RedirectStep::Follow(next) => next,
        RedirectStep::Finished(_) => panic!("should follow"),
    };
    assert_eq!(next.current_query, "build up");
    assert_eq!(next.redirected_from, Some("build-up".to_owned()));
    let looped = redirect_step("demo", "build-up", next, Some(("build-up".to_owned(), "@@@LINK=x".to_owned())));
    match looped {
        RedirectStep::Finished(Err(e)) => {
            assert_eq!(e.code, ErrorCode::InternalError);
            assert_eq!(e.message, "entry redirect loop detected in dictionary `demo` for query `build-up`");
        }
        _ => panic!("loop should be refused"),
    }
}

#[test]
fn redirect_step_reports_missing_entries_and_targets() {
    match redirect_step("demo", "nope", RedirectState::start("nope"), None) {
        RedirectStep::Finished(Err(e)) => {
            assert_eq!(e.code, ErrorCode::EntryNotFound);
            assert_eq!(e.status, 404);
        }
        _ => panic!("missing entry"),
    }
    let start = RedirectState::start("a");
    let next = match redirect_step("demo", "a", start, Some(("a".to_owned(), "@@@LINK=b".to_owned()))) {
        RedirectStep::Follow(n) => n,
        _ => panic!("follow"),
    };
    match redirect_step("demo", "a", next, None) {
        RedirectStep::Finished(Err(e)) => {
            assert_eq!(e.message, "entry redirect target `b` was not found in dictionary `demo` for query `a`");
        }
        _ => panic!("missing target"),
    }
}

#[test]
fn engine_init_errors_explain_themselves() {
    assert_eq!(EngineInitError::Io("gone".to_owned()).message(), "io error: gone");
    assert_eq!(
        EngineInitError::Index(IndexError::Fst("bad".to_owned())).message(),
        "sidecar index error: fst error: bad"
    );
}

#[test]
fn relative_links_to_audio_are_recognized() {
    assert!(resource_looks_like_audio("/lookup?key=sound://a/b"));
    assert!(resource_looks_like_audio("media/a.MP3"));
    assert!(resource_looks_like_audio("https://x.test/play?key=a.ogg"));
    assert!(!resource_looks_like_audio("https://x.test/page.html"));
    assert!(is_audio_href("x.html", "/r?key=a.wav"));
}

#[test]
fn style_blocks_have_their_urls_rewritten() {
    let rewritten = rewrite_entry_html("demo", "<style>p { background: url('bg.png') }</style><p>x</p>", false)
        .expect("rewrites");
    assert!(
        rewritten.contains("<style>p { background: url(\"/api/v1/dictionaries/demo/resources/content?key=bg%2Epng\") }</style>"),
        "{rewritten}"
    );
}

#[test]
fn stylesheet_bytes_are_read_leniently() {
    let out = resource_payload("demo", "text/css", vec![b'a', 0xff, b'b']);
    assert_eq!(String::from_utf8(out).unwrap(), "a\u{fffd}b");
}

#[test]
fn entry_links_go_to_the_entry_api_of_the_same_dictionary() {
    assert_eq!(
        rewrite_url_value("demo", "href", "entry://apple#sense1", false),
        Some("/api/v1/dictionaries/demo/entries/content?key=apple#sense1".to_owned())
    );
    assert_eq!(
        rewrite_url_value("demo", "href", " entry://build up ", false),
        Some("/api/v1/dictionaries/demo/entries/content?key=build%20up".to_owned())
    );
}

#[test]
fn attribute_edits_move_audio_and_drop_script_links() {
    let values = vec![
        Some("sound://media/a.mp3".to_owned()),
        None,
        Some("javascript:alert(1)".to_owned()),
        Some("images/a.png".to_owned()),
    ];
    let (assigns, deletes) = attribute_edits("demo", "href", &values, false);
    assert_eq!(
        assigns,
        vec![
            AttrEdit::Assign(
                "data-audio-href".to_owned(),
                "/api/v1/dictionaries/demo/resources/content?key=sound%3A%2F%2Fmedia%2Fa%2Emp3".to_owned()
            ),
            AttrEdit::Keep,
            AttrEdit::Keep,
            AttrEdit::Assign("href".to_owned(), "/api/v1/dictionaries/demo/resources/content?key=images%2Fa%2Epng".to_owned()),
        ]
    );
    assert_eq!(
        deletes,
        vec![AttrEdit::Delete("href".to_owned()), AttrEdit::Keep, AttrEdit::Delete("href".to_owned()), AttrEdit::Keep]
    );
    let (kept, none) = attribute_edits("demo", "href", &vec![Some("javascript:go()".to_owned())], true);
    assert_eq!(kept, vec![AttrEdit::Assign("href".to_owned(), "javascript:go()".to_owned())]);
    assert_eq!(none, vec![AttrEdit::Keep]);
}

#[test]
fn event_handlers_are_stripped_with_their_leading_space() {
    assert_eq!(
        strip_event_handler_attributes(r#"<p onclick="x()" class=a ONLOAD='y' onerror=z>t</p>"#),
        "<p class=a>t</p>"
    );
    assert_eq!(strip_event_handler_attributes("<p on=1 data-onx=2>"), "<p on=1 data-onx=2>");
    assert_eq!(strip_event_handler_attributes("a\n onmouseover = \"go\" b"), "a b");
    assert_eq!(strip_event_handler_attributes(r#"<a onclick="x>"#), "<a>");
}

#[test]
fn style_blocks_split_at_their_tags_in_either_case() {
    let pieces = style_block_pieces(r#"a<STYLE type="t">p{}</Style>b<style>q</style>"#);
    assert_eq!(
        pieces,
        vec![
            (false, "a".to_owned(), String::new()),
            (true, r#" type="t""#.to_owned(), "p{}".to_owned()),
            (false, "b".to_owned(), String::new()),
            (true, String::new(), "q".to_owned()),
            (false, String::new(), String::new()),
        ]
    );
    assert_eq!(style_block_pieces("<style>open"), vec![(false, "<style>open".to_owned(), String::new())]);
}

#[test]
fn css_url_references_split_out_their_urls() {
    let pieces = css_url_pieces(r#"a{b:url( "x.png" )} c{d:url(y.png)} e{f:url()}"#);
    assert_eq!(
        pieces,
        vec![
            (false, "a{b:".to_owned()),
            (true, "x.png".to_owned()),
            (false, "} c{d:".to_owned()),
            (true, "y.png".to_owned()),
            (false, "} e{f:url()}".to_owned()),
        ]
    );
    assert_eq!(css_url_pieces("url( )"), vec![(false, String::new()), (true, " ".to_owned()), (false, String::new())]);
}
#[test]
fn rewrite_entry_html_removes_scripts_handlers_and_script_links() {
    let html = r#"<p onclick="x()">hi</p><script>alert(1)</script><a href="javascript:alert(1)">y</a>"#;
    assert_eq!(
        rewrite_entry_html("demo", html, false).expect("entry html should rewrite"),
        r#"<!doctype html><html><head><meta charset="utf-8"></head><body><p>hi</p><a>y</a></body></html>"#
    );
}

fn span(key: &str) -> ResourceSpan {
    ResourceSpan { key: key.to_owned(), record_start: 1, record_end: 5 }
}

#[test]
fn resource_search_serves_the_first_hit_and_misses_only_when_all_miss() {
    let missed = first_resource_answer(&vec![Ok(None), Ok(None)], 2, "demo", "a.png");
    match missed {
        Err(e) => {
            assert_eq!(e.code, ErrorCode::ResourceNotFound);
            assert_eq!(e.message, "resource `a.png` was not found in dictionary `demo`");
        }
        Ok(_) => panic!("expected a miss"),
    }
    let hit = first_resource_answer(&vec![Ok(None), Ok(None), Ok(Some(span("a.png"))), Ok(Some(span("b.png")))], 2, "demo", "a.png");
    assert_eq!(hit.expect("found"), (1, span("a.png")));
    let failed = first_resource_answer(&vec![Ok(None), Err("broken".to_owned())], 2, "demo", "a.png");
    match failed {
        Err(e) => {
            assert_eq!(e.code, ErrorCode::DictionaryUnavailable);
            assert_eq!(e.message, "dictionary `demo` is unavailable: broken");
        }
        Ok(_) => panic!("expected a failure"),
    }
    assert!(first_resource_answer(&vec![], 0, "demo", "a.png").is_err());
}

#[test]
fn sidecar_files_take_precedence_over_archives() {
    let sidecar = Some(("a.css".to_owned(), "/d/a.css".to_owned()));
    assert_eq!(
        resource_source(sidecar.clone(), true, 1),
        ResourceSource::Sidecar("a.css".to_owned(), "/d/a.css".to_owned())
    );
    assert_eq!(resource_source(sidecar, false, 1), ResourceSource::Archive);
    assert_eq!(resource_source(None, false, 0), ResourceSource::Missing);
}

#[test]
fn resource_reply_types_tags_and_rewrites_stylesheets() {
    let css = resource_reply("demo", "v1", "a.css", b"p { background: url(b.png); }".to_vec());
    assert_eq!(css.content_type, "text/css");
    assert_eq!(css.etag, resource_etag("demo", "v1", "a.css", "resource-v1"));
    assert_eq!(css.cache_control, RESOURCE_CACHE_CONTROL);
    assert_eq!(
        String::from_utf8(css.body).unwrap(),
        "p { background: url(\"/api/v1/dictionaries/demo/resources/content?key=b%2Epng\"); }"
    );
    let png = resource_reply("demo", "v1", "b.png", vec![1, 2, 3]);
    assert_eq!(png.content_type, "image/png");
    assert_eq!(png.body, vec![1, 2, 3]);
    assert_eq!(png.resolved_key, "b.png");
}
