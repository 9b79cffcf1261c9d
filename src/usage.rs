use vstd::prelude::*;

use crate::json::{Json, JsonV};
use crate::stream::{provider_name, provider_key, usage_key, usage_name};

verus! {

pub open spec fn total_key() -> Seq<char> {
    seq!['t', 'o', 't', 'a', 'l', '_', 't', 'o', 'k', 'e', 'n', 's']
}

/// The usage report of a response: `usage` at the top of a buffered
/// response, `x_groq.usage` in a streamed event.
pub open spec fn usage_report(doc: JsonV, is_streaming: bool) -> Option<JsonV> {
    if is_streaming {
        doc.member2(provider_key(), usage_key())
    } else {
        doc.member(usage_key())
    }
}

/// The token count that a response reports: the integer `total_tokens` of
/// its usage report, where it fits in an `i32`.
pub open spec fn token_count(doc: JsonV, is_streaming: bool) -> Option<int> {
    match usage_report(doc, is_streaming) {
        Some(u) => match u.member(total_key()) {
            Some(t) => match t.i64_value() {
                Some(v) => if i32::MIN <= v <= i32::MAX {
                    Some(v)
                } else {
                    None
                },
                None => None,
            },
            None => None,
        },
        None => None,
    }
}

/// The token count of a response, or `None` where it reports none.
pub fn extract_tokens(response: &Json, is_streaming: bool) -> (r: Option<i32>)
    ensures
        match r {
            Some(n) => token_count(response@, is_streaming) == Some(n as int),
            None => token_count(response@, is_streaming) is None,
        },
{
    let usage_field = usage_name();
    let usage = if is_streaming {
        match response.get(&provider_name()) {
            Some(outer) => outer.get(&usage_field),
            None => None,
        }
    } else {
        response.get(&usage_field)
    };
    let total = String::from_str("total_tokens");
    proof {
        reveal_strlit("total_tokens");
        assert(total@ =~= total_key());
    }
    match usage {
        Some(u) => match u.get(&total) {
            Some(t) => match t.as_i64() {
                Some(v) => if i32::MIN as i64 <= v && v <= i32::MAX as i64 {
                    Some(v as i32)
                } else {
                    None
                },
                None => None,
            },
            None => None,
        },
        None => None,
    }
}

} // verus!
