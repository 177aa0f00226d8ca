use mdict_web::domain::{ErrorCode, ServiceError};

#[test]
fn error_codes_have_stable_names() {
    assert_eq!(ErrorCode::BadRequest.as_str(), "bad_request");
    assert_eq!(ErrorCode::DictionaryNotFound.as_str(), "dictionary_not_found");
    assert_eq!(ErrorCode::EntryNotFound.as_str(), "entry_not_found");
    assert_eq!(ErrorCode::ResourceNotFound.as_str(), "resource_not_found");
    assert_eq!(ErrorCode::DictionaryUnavailable.as_str(), "dictionary_unavailable");
    assert_eq!(ErrorCode::RateLimited.as_str(), "rate_limited");
    assert_eq!(ErrorCode::Unauthorized.as_str(), "unauthorized");
    assert_eq!(ErrorCode::InternalError.as_str(), "internal_error");
}

#[test]
fn constructors_pick_status_code_and_message() {
    let e = ServiceError::dictionary_not_found("demo");
    assert_eq!((e.status, e.code), (404, ErrorCode::DictionaryNotFound));
    assert_eq!(e.message, "dictionary `demo` was not found");
    let e = ServiceError::entry_not_found("demo", "apple");
    assert_eq!(e.message, "entry `apple` was not found in dictionary `demo`");
    let e = ServiceError::resource_not_found("demo", "a.png");
    assert_eq!(e.status, 404);
    assert_eq!(e.code, ErrorCode::ResourceNotFound);
    let e = ServiceError::dictionary_unavailable("demo", "disk gone");
    assert_eq!((e.status, e.code), (503, ErrorCode::DictionaryUnavailable));
    let e = ServiceError::rate_limited("slow down".to_owned());
    assert_eq!(e.status, 429);
    let e = ServiceError::internal("boom".to_owned());
    assert_eq!(e.status, 500);
    assert_eq!(e.describe(), "boom (internal_error)");
}

#[test]
fn details_are_kept_by_key_and_replaced() {
    let e = ServiceError::bad_request("bad".to_owned())
        .with_detail("zeta".to_owned(), "1".to_owned())
        .with_detail("alpha".to_owned(), "2".to_owned())
        .with_detail("zeta".to_owned(), "3".to_owned());
    let keys: Vec<&str> = e.details.iter().map(|d| d.key.as_str()).collect();
    assert_eq!(keys, vec!["alpha", "zeta"]);
    assert_eq!(e.details[1].value_json, "3");
}

#[test]
fn envelopes_carry_the_code_name_and_request_id() {
    let env = ServiceError::unauthorized("no".to_owned()).into_envelope("req-1".to_owned());
    assert_eq!(env.error.code, "unauthorized");
    assert_eq!(env.error.message, "no");
    assert_eq!(env.error.request_id, "req-1");
    assert!(env.error.details.is_empty());
}
