use rusty_a11y::auth::{check_api_key, ApiKeyError};
use rusty_a11y::crawl::{
    crawl_action, crawl_request_body, crawl_target, is_up, scan_request_body, up_record,
    CrawlAction, CrawlData,
};
use rusty_a11y::json::{JsonNumber, JsonValue};
use rusty_a11y::response::{check_for_error, ServiceFailure};
use rusty_a11y::store::{table_rows, Cell, StoreError};

fn s(x: &str) -> JsonValue {
    JsonValue::String(x.to_string())
}

fn obj(entries: Vec<(&str, JsonValue)>) -> JsonValue {
    JsonValue::Object(entries.into_iter().map(|(k, v)| (k.to_string(), v)).collect())
}

fn fields(entries: Vec<(&str, JsonValue)>) -> Vec<(String, JsonValue)> {
    entries.into_iter().map(|(k, v)| (k.to_string(), v)).collect()
}

#[test]
fn success_object_passes() {
    let ok = obj(vec![("success", JsonValue::Bool(true)), ("data", JsonValue::Null)]);
    assert_eq!(check_for_error(&ok), Ok(()));
}

#[test]
fn failed_or_missing_success_is_an_error() {
    assert_eq!(check_for_error(&obj(vec![("success", JsonValue::Bool(false))])), Err(ServiceFailure));
    assert_eq!(check_for_error(&obj(vec![("success", s("true"))])), Err(ServiceFailure));
    assert_eq!(check_for_error(&obj(vec![])), Err(ServiceFailure));
    assert_eq!(check_for_error(&JsonValue::Bool(true)), Err(ServiceFailure));
}

#[test]
fn arrays_need_every_element_to_succeed() {
    let good = obj(vec![("success", JsonValue::Bool(true))]);
    let bad = obj(vec![("success", JsonValue::Bool(false))]);
    assert_eq!(check_for_error(&JsonValue::Array(vec![])), Ok(()));
    let both_good = JsonValue::Array(vec![
        obj(vec![("success", JsonValue::Bool(true))]),
        obj(vec![("success", JsonValue::Bool(true))]),
    ]);
    assert_eq!(check_for_error(&both_good), Ok(()));
    assert_eq!(check_for_error(&JsonValue::Array(vec![good, bad])), Err(ServiceFailure));
    assert_eq!(check_for_error(&JsonValue::Array(vec![JsonValue::Null])), Err(ServiceFailure));
}

#[test]
fn api_key_outcomes() {
    let key = Some("SECRET-REDACTED".to_string());
    assert_eq!(check_api_key(&vec![], &key).err(), Some(ApiKeyError::Missing));
    let two = vec!["a".to_string(), "b".to_string()];
    assert_eq!(check_api_key(&two, &key).err(), Some(ApiKeyError::BadCount));
    let wrong = vec!["nope".to_string()];
    assert_eq!(check_api_key(&wrong, &key).err(), Some(ApiKeyError::Invalid));
    assert_eq!(check_api_key(&wrong, &None).err(), Some(ApiKeyError::NotSet));
    let right = vec!["SECRET-REDACTED".to_string()];
    let accepted = check_api_key(&right, &key).ok().unwrap();
    assert_eq!(accepted.0, "SECRET-REDACTED".to_string());
}

#[test]
fn api_key_refusals_map_to_status_codes() {
    assert_eq!(ApiKeyError::BadCount.status_code(), 400);
    assert_eq!(ApiKeyError::Missing.status_code(), 401);
    assert_eq!(ApiKeyError::Invalid.status_code(), 401);
    assert_eq!(ApiKeyError::NotSet.status_code(), 500);
}

#[test]
fn crawl_actions_are_read_from_the_body() {
    assert_eq!(crawl_action(&fields(vec![("action", s("scan"))])), Some(CrawlAction::Scan));
    assert_eq!(crawl_action(&fields(vec![("url", s("u")), ("action", s("cycle"))])), Some(CrawlAction::Cycle));
    assert_eq!(crawl_action(&fields(vec![("action", s("other"))])), None);
    assert_eq!(crawl_action(&fields(vec![("action", JsonValue::Bool(true))])), None);
    assert_eq!(crawl_action(&fields(vec![])), None);
}

#[test]
fn incomplete_target_rows_are_skipped() {
    let d = crawl_target(Some("https://a.example".to_string()), Some(true), Some(false), Some(true)).unwrap();
    assert_eq!(d.url, "https://a.example");
    assert!(d.subdomains && !d.tld && d.page_insights);
    assert!(crawl_target(None, Some(true), Some(true), Some(true)).is_none());
    assert!(crawl_target(Some("u".to_string()), Some(true), None, Some(true)).is_none());
    assert!(crawl_target(Some("u".to_string()), Some(true), Some(true), None).is_none());
}

#[test]
fn request_bodies_carry_the_options() {
    let d = CrawlData { url: "https://a.example".to_string(), subdomains: true, tld: false, page_insights: true };
    assert_eq!(
        crawl_request_body(&d),
        obj(vec![
            ("url", s("https://a.example")),
            ("subdomains", JsonValue::Bool(true)),
            ("tld", JsonValue::Bool(false)),
            ("pageInsights", JsonValue::Bool(true)),
        ])
    );
    assert_eq!(
        scan_request_body(&"https://b.example".to_string(), false),
        obj(vec![("url", s("https://b.example")), ("pageInsights", JsonValue::Bool(false))])
    );
}

#[test]
fn availability_records() {
    assert!(is_up(200) && is_up(301) && is_up(399));
    assert!(!is_up(199) && !is_up(400) && !is_up(500));
    assert_eq!(
        up_record(&"https://a.example".to_string(), true),
        obj(vec![("target", s("https://a.example")), ("status", JsonValue::Bool(true))])
    );
}

#[test]
fn rows_of_an_object_and_of_an_array() {
    let one = obj(vec![("a", JsonValue::Number(JsonNumber::PosInt(1))), ("b", s("x"))]);
    let (cols, rows) = table_rows(&one).unwrap();
    assert_eq!(cols, vec!["a".to_string(), "b".to_string()]);
    assert_eq!(rows, vec![vec![Cell::BigInt(1), Cell::Text("x".to_string())]]);

    let many = JsonValue::Array(vec![
        obj(vec![("a", JsonValue::Number(JsonNumber::NegInt(-3)))]),
        obj(vec![("b", JsonValue::Bool(true)), ("a", JsonValue::Null)]),
        obj(vec![
            ("c", JsonValue::Number(JsonNumber::PosInt(u64::MAX))),
            ("a", JsonValue::Number(JsonNumber::Float("2.5".to_string()))),
            ("b", JsonValue::Array(vec![])),
        ]),
    ]);
    let (cols, rows) = table_rows(&many).unwrap();
    assert_eq!(cols, vec!["a".to_string(), "b".to_string(), "c".to_string()]);
    assert_eq!(
        rows,
        vec![
            vec![Cell::BigInt(-3), Cell::Null, Cell::Null],
            vec![Cell::Null, Cell::Bool(true), Cell::Null],
            vec![
                Cell::Double(JsonNumber::Float("2.5".to_string())),
                Cell::Null,
                Cell::Double(JsonNumber::PosInt(u64::MAX)),
            ],
        ]
    );
}

#[test]
fn rows_without_columns_are_dropped() {
    let (cols, rows) = table_rows(&JsonValue::Array(vec![obj(vec![]), obj(vec![])])).unwrap();
    assert!(cols.is_empty());
    assert!(rows.is_empty());
}

#[test]
fn unstorable_values_are_errors() {
    assert_eq!(table_rows(&JsonValue::Null).err(), Some(StoreError::ExpectedArrayOrObject));
    assert_eq!(
        table_rows(&JsonValue::Array(vec![obj(vec![]), s("x")])).err(),
        Some(StoreError::ExpectedObject)
    );
}
