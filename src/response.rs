use vstd::prelude::*;
use crate::json::{fields_view, find_field, get_field, lemma_find_key, Fields, Json, JsonValue};

verus! {

/// The scanning service answered with a failure.
#[derive(Debug, Clone, Copy, PartialEq, Eq, Structural)]
pub struct ServiceFailure;

/// The key under which the scanning service reports success.
pub open spec fn success_key() -> Seq<char> {
    seq!['s', 'u', 'c', 'c', 'e', 's', 's']
}

/// The entries report `"success": true`.
pub open spec fn reports_success(f: Fields) -> bool {
    get_field(f, success_key()) == Some(Json::Bool(true))
}

/// A response succeeded: an object that reports success, or an array whose
/// elements are all such objects.
pub open spec fn succeeded(v: Json) -> bool {
    match v {
        Json::Object(f) => reports_success(f),
        Json::Array(items) => forall|i: int|
            0 <= i < items.len() ==> (#[trigger] items[i]) is Object && reports_success(
                items[i]->Object_0,
            ),
        _ => false,
    }
}

fn success_key_text() -> (r: String)
    ensures
        r@ == success_key(),
{
    let r = "success".to_string();
    proof {
        reveal_strlit("success");
        assert(r@ =~= success_key());
    }
    r
}

/// Whether the entries of an object report `"success": true`.
fn object_reports_success(fields: &Vec<(String, JsonValue)>) -> (r: bool)
    ensures
        r == reports_success(fields_view(fields@)),
{
    let key = success_key_text();
    proof {
        lemma_find_key(fields_view(fields@), key@);
    }
    match find_field(fields, &key) {
        Some(i) => match &fields[i].1 {
            JsonValue::Bool(b) => *b,
            _ => false,
        },
        None => false,
    }
}

/// Checks a response of the scanning service: it must be an object that
/// reports success, or an array of such objects.
pub fn check_for_error(data: &JsonValue) -> (r: Result<(), ServiceFailure>)
    ensures
        r is Ok <==> succeeded(data.view()),
{
    match data {
        JsonValue::Object(fields) => {
            proof {
                crate::json::lemma_object_view(*fields);
            }
            if object_reports_success(fields) {
                Ok(())
            } else {
                Err(ServiceFailure)
            }
        },
        JsonValue::Array(items) => {
            proof {
                crate::json::lemma_array_view(*items);
            }
            let mut i: usize = 0;
            while i < items.len()
                invariant
                    i <= items.len(),
                    data.view() == Json::Array(crate::json::items_view(items@)),
                    forall|j: int|
                        0 <= j < i ==> (#[trigger] items@[j].view()) is Object && reports_success(
                            items@[j].view()->Object_0,
                        ),
                decreases items.len() - i,
            {
                assert(crate::json::items_view(items@)[i as int] == items@[i as int].view());
                match &items[i] {
                    JsonValue::Object(fields) => {
                        proof {
                            crate::json::lemma_object_view(*fields);
                        }
                        if !object_reports_success(fields) {
                            return Err(ServiceFailure);
                        }
                    },
                    _ => {
                        return Err(ServiceFailure);
                    },
                }
                i = i + 1;
            }
            assert forall|j: int| 0 <= j < items.len() implies (#[trigger] crate::json::items_view(
                items@,
            )[j]) is Object && reports_success(crate::json::items_view(items@)[j]->Object_0) by {
                assert(crate::json::items_view(items@)[j] == items@[j].view());
            }
            Ok(())
        },
        _ => Err(ServiceFailure),
    }
}

} // verus!
