use vstd::prelude::*;
use crate::json::{
    fields_view, find_field, get_field, lemma_find_key, lemma_object_view, Json, JsonValue,
};

verus! {

/// One site to crawl, with the crawl's options.
pub struct CrawlData {
    pub url: String,
    pub subdomains: bool,
    pub tld: bool,
    pub page_insights: bool,
}

/// What a crawl request asks for.
#[derive(Debug, Clone, Copy, PartialEq, Eq, Structural)]
pub enum CrawlAction {
    /// Crawl the one site that the request names.
    Scan,
    /// Crawl every stored target in turn.
    Cycle,
}

/// The characters of a string literal, as an owned string.
fn text(s: &str) -> (r: String)
    ensures
        r@ == s@,
{
    s.to_string()
}

/// The action that a request body names under `"action"`, where it names
/// one of the two known ones.
pub fn crawl_action(body: &Vec<(String, JsonValue)>) -> (r: Option<CrawlAction>)
    ensures
        r == match get_field(fields_view(body@), "action"@) {
            Some(Json::Str(s)) => if s == "scan"@ {
                Some(CrawlAction::Scan)
            } else if s == "cycle"@ {
                Some(CrawlAction::Cycle)
            } else {
                None
            },
            _ => None,
        },
{
    let key = text("action");
    proof {
        lemma_find_key(fields_view(body@), key@);
    }
    match find_field(body, &key) {
        Some(i) => match &body[i].1 {
            JsonValue::String(s) => {
                if *s == text("scan") {
                    Some(CrawlAction::Scan)
                } else if *s == text("cycle") {
                    Some(CrawlAction::Cycle)
                } else {
                    None
                }
            },
            _ => None,
        },
        None => None,
    }
}

/// A stored crawl target, from the columns of its row; a row with any
/// column missing is no target.
pub fn crawl_target(
    url: Option<String>,
    subdomains: Option<bool>,
    tld: Option<bool>,
    page_insights: Option<bool>,
) -> (r: Option<CrawlData>)
    ensures
        r is Some <==> (url is Some && subdomains is Some && tld is Some && page_insights is Some),
        r matches Some(d) ==> d.url@ == url->0@ && d.subdomains == subdomains->0 && d.tld == tld->0
            && d.page_insights == page_insights->0,
{
    match (url, subdomains, tld, page_insights) {
        (Some(url), Some(subdomains), Some(tld), Some(page_insights)) => Some(
            CrawlData { url, subdomains, tld, page_insights },
        ),
        _ => None,
    }
}

/// The body of a crawl request to the scanning service.
pub fn crawl_request_body(data: &CrawlData) -> (r: JsonValue)
    ensures
        r.view() == Json::Object(
            seq![
                ("url"@, Json::Str(data.url@)),
                ("subdomains"@, Json::Bool(data.subdomains)),
                ("tld"@, Json::Bool(data.tld)),
                ("pageInsights"@, Json::Bool(data.page_insights)),
            ],
        ),
{
    let mut fields: Vec<(String, JsonValue)> = Vec::new();
    fields.push((text("url"), JsonValue::String(data.url.clone())));
    fields.push((text("subdomains"), JsonValue::Bool(data.subdomains)));
    fields.push((text("tld"), JsonValue::Bool(data.tld)));
    fields.push((text("pageInsights"), JsonValue::Bool(data.page_insights)));
    proof {
        lemma_object_view(fields);
        assert(fields_view(fields@) =~= seq![
            ("url"@, Json::Str(data.url@)),
            ("subdomains"@, Json::Bool(data.subdomains)),
            ("tld"@, Json::Bool(data.tld)),
            ("pageInsights"@, Json::Bool(data.page_insights)),
        ]);
    }
    JsonValue::Object(fields)
}

/// The body of a single-page scan request to the scanning service.
pub fn scan_request_body(url: &String, page_insights: bool) -> (r: JsonValue)
    ensures
        r.view() == Json::Object(
            seq![("url"@, Json::Str(url@)), ("pageInsights"@, Json::Bool(page_insights))],
        ),
{
    let mut fields: Vec<(String, JsonValue)> = Vec::new();
    fields.push((text("url"), JsonValue::String(url.clone())));
    fields.push((text("pageInsights"), JsonValue::Bool(page_insights)));
    proof {
        lemma_object_view(fields);
        assert(fields_view(fields@) =~= seq![
            ("url"@, Json::Str(url@)),
            ("pageInsights"@, Json::Bool(page_insights)),
        ]);
    }
    JsonValue::Object(fields)
}

/// A site counts as up when it answers with a status from 200 to 399.
pub fn is_up(status: u16) -> (r: bool)
    ensures
        r == (200 <= status && status <= 399),
{
    200 <= status && status <= 399
}

/// The record stored for one availability check.
pub fn up_record(target: &String, up: bool) -> (r: JsonValue)
    ensures
        r.view() == Json::Object(seq![("target"@, Json::Str(target@)), ("status"@, Json::Bool(up))]),
{
    let mut fields: Vec<(String, JsonValue)> = Vec::new();
    fields.push((text("target"), JsonValue::String(target.clone())));
    fields.push((text("status"), JsonValue::Bool(up)));
    proof {
        lemma_object_view(fields);
        assert(fields_view(fields@) =~= seq![
            ("target"@, Json::Str(target@)),
            ("status"@, Json::Bool(up)),
        ]);
    }
    JsonValue::Object(fields)
}

} // verus!
