use vstd::prelude::*;

use crate::codec::{json_bytes, parse_json_bytes, parsed_json_bytes, write_json};
use crate::error::{refusal, refuse, APIError, BAD_REQUEST, INTERNAL_SERVER_ERROR};
use crate::json::{entry_value, lemma_without_absent, lemma_without_lookup, without_key, Json, JsonV};
use crate::text::{lemma_split_nonempty, split_on, trim, trim_bounds};

verus! {

pub open spec fn model_key() -> Seq<char> {
    seq!['m', 'o', 'd', 'e', 'l']
}

pub open spec fn tier_key() -> Seq<char> {
    seq!['s', 'e', 'r', 'v', 'i', 'c', 'e', '_', 't', 'i', 'e', 'r']
}

pub open spec fn flex_tier() -> Seq<char> {
    seq!['f', 'l', 'e', 'x']
}

pub open spec fn on_demand_tier() -> Seq<char> {
    seq!['o', 'n', '_', 'd', 'e', 'm', 'a', 'n', 'd']
}

pub open spec fn stream_key() -> Seq<char> {
    seq!['s', 't', 'r', 'e', 'a', 'm']
}

/// The models that callers may ask for, and the one that stands in for any
/// other. The allow-list is a list of names, matched exactly one by one.
pub struct ModelPolicy {
    pub default_model: String,
    pub allowed: Vec<String>,
}

pub open spec fn names(v: Seq<String>) -> Seq<Seq<char>> {
    v.map_values(|s: String| s@)
}

/// The allow-list that a comma-separated list gives: each piece, trimmed.
pub open spec fn model_list(list: Seq<char>) -> Seq<Seq<char>> {
    split_on(list, ',').map_values(|p: Seq<char>| trim(p))
}

impl ModelPolicy {
    pub open spec fn allows(&self, model: Seq<char>) -> bool {
        names(self.allowed@).contains(model)
    }

    /// A request after the policy: a `service_tier` other than `flex` or
    /// `on_demand` is dropped, and a `model` that is missing, not a string
    /// or not allowed becomes the default model. A value that is not an
    /// object is left as it is.
    pub open spec fn apply(&self, doc: JsonV) -> JsonV {
        if doc is Object {
            let tiered = match doc.member(tier_key()) {
                Some(JsonV::Str(t)) => if t == flex_tier() || t == on_demand_tier() {
                    doc
                } else {
                    doc.without_member(tier_key())
                },
                _ => doc.without_member(tier_key()),
            };
            let keeps_model = match doc.member(model_key()) {
                Some(JsonV::Str(m)) => self.allows(m),
                _ => false,
            };
            if keeps_model {
                tiered
            } else {
                tiered.with_member(model_key(), JsonV::Str(self.default_model@))
            }
        } else {
            doc
        }
    }

    /// The policy of a default model and a comma-separated allow-list.
    pub fn new(default_model: String, list: &str) -> (r: ModelPolicy)
        ensures
            r.default_model@ == default_model@,
            names(r.allowed@) == model_list(list@),
    {
        let n = list.unicode_len();
        let mut chars: Vec<char> = Vec::new();
        let mut i: usize = 0;
        while i < n
            invariant
                i <= n,
                n == list@.len(),
                chars@ == list@.subrange(0, i as int),
            decreases n - i,
        {
            chars.push(list.get_char(i));
            assert(chars@ =~= list@.subrange(0, i + 1));
            i = i + 1;
        }
        assert(chars@ =~= list@);
        let mut allowed: Vec<String> = Vec::new();
        let mut start: usize = 0;
        let mut j: usize = 0;
        assert(list@.subrange(0, 0) =~= Seq::<char>::empty());
        while j < n
            invariant
                start <= j <= n,
                n == list@.len(),
                chars@ == list@,
                split_on(list@.subrange(0, j as int), ',') == split_on(
                    list@.subrange(0, j as int),
                    ',',
                ).drop_last().push(list@.subrange(start as int, j as int)),
                names(allowed@) == split_on(list@.subrange(0, j as int), ',').drop_last().map_values(
                    |p: Seq<char>| trim(p),
                ),
            decreases n - j,
        {
            let ghost s0 = list@.subrange(0, j as int);
            let ghost s1 = list@.subrange(0, j + 1);
            proof {
                lemma_split_nonempty(s0, ',');
                assert(s1.drop_last() =~= s0);
            }
            if chars[j] == ',' {
                let (a, b) = trim_bounds(chars.as_slice(), start, j);
                let ghost before = allowed@;
                let piece = list.substring_char(a, b).to_owned();
                allowed.push(piece);
                proof {
                    let p0 = split_on(s0, ',');
                    assert(piece@ == trim(p0.last()));
                    assert(names(allowed@) =~= names(before).push(piece@));
                    assert(p0.map_values(|p: Seq<char>| trim(p)) =~= p0.drop_last().map_values(
                        |p: Seq<char>| trim(p),
                    ).push(trim(p0.last())));
                    assert(split_on(s1, ',').drop_last() =~= p0);
                    assert(p0 =~= p0.drop_last().push(p0.last()));
                    assert(names(allowed@) =~= p0.map_values(|p: Seq<char>| trim(p)));
                    assert(list@.subrange((j + 1) as int, (j + 1) as int) =~= Seq::<char>::empty());
                    assert(split_on(s1, ',') =~= split_on(s1, ',').drop_last().push(
                        list@.subrange((j + 1) as int, (j + 1) as int),
                    ));
                }
                start = j + 1;
            } else {
                proof {
                    let p0 = split_on(s0, ',');
                    assert(split_on(s1, ',').drop_last() =~= p0.drop_last());
                    assert(list@.subrange(start as int, j + 1) =~= list@.subrange(
                        start as int,
                        j as int,
                    ).push(list@[j as int]));
                    assert(split_on(s1, ',') =~= split_on(s1, ',').drop_last().push(
                        list@.subrange(start as int, j + 1),
                    ));
                }
            }
            j = j + 1;
        }
        let (a, b) = trim_bounds(chars.as_slice(), start, n);
        let ghost before = allowed@;
        let piece = list.substring_char(a, b).to_owned();
        allowed.push(piece);
        proof {
            assert(list@.subrange(0, n as int) =~= list@);
            let p = split_on(list@, ',');
            assert(piece@ == trim(p.last()));
            assert(names(allowed@) =~= names(before).push(piece@));
            assert(p.map_values(|q: Seq<char>| trim(q)) =~= p.drop_last().map_values(
                |q: Seq<char>| trim(q),
            ).push(trim(p.last())));
            assert(p =~= p.drop_last().push(p.last()));
            assert(names(allowed@) =~= model_list(list@));
        }
        ModelPolicy { default_model, allowed }
    }
}

fn literal(s: &'static str) -> (r: String)
    ensures
        r@ == s@,
{
    String::from_str(s)
}

/// Whether the policy allows `model`: an exact, case-sensitive match.
pub fn is_allowed_model(policy: &ModelPolicy, model: &String) -> (r: bool)
    ensures
        r == policy.allows(model@),
{
    let mut i: usize = 0;
    while i < policy.allowed.len()
        invariant
            i <= policy.allowed@.len(),
            forall|k: int| 0 <= k < i ==> policy.allowed@[k]@ != model@,
        decreases policy.allowed@.len() - i,
    {
        if policy.allowed[i] == *model {
            assert(names(policy.allowed@)[i as int] == model@);
            return true;
        }
        i = i + 1;
    }
    assert(!names(policy.allowed@).contains(model@)) by {
        if names(policy.allowed@).contains(model@) {
            let k = choose|k: int| 0 <= k < names(policy.allowed@).len() && names(policy.allowed@)[k] == model@;
            assert(policy.allowed@[k]@ == model@);
        }
    };
    false
}

/// Applies the policy to a request in place.
pub fn apply_model_policy(policy: &ModelPolicy, doc: &mut Json)
    ensures
        final(doc)@ == policy.apply(old(doc)@),
{
    match doc {
        Json::Object(_) => {},
        _ => {
            return ;
        },
    }
    let tier = literal("service_tier");
    let model = literal("model");
    let flex = literal("flex");
    let on_demand = literal("on_demand");
    proof {
        reveal_strlit("service_tier");
        reveal_strlit("model");
        reveal_strlit("flex");
        reveal_strlit("on_demand");
        assert(tier@ =~= tier_key());
        assert(model@ =~= model_key());
        assert(flex@ =~= flex_tier());
        assert(on_demand@ =~= on_demand_tier());
    }
    let keep_tier = match doc.get(&tier) {
        Some(t) => match t.as_str() {
            Some(v) => *v == flex || *v == on_demand,
            None => false,
        },
        None => false,
    };
    let keep_model = match doc.get(&model) {
        Some(m) => match m.as_str() {
            Some(v) => is_allowed_model(policy, v),
            None => false,
        },
        None => false,
    };
    if !keep_tier {
        doc.remove_member(&tier);
    }
    if !keep_model {
        let default = policy.default_model.clone();
        doc.set_member(model, Json::Str(default));
    }
}

/// Whether a request asks for a streamed response: its `stream` member is
/// `true`.
pub fn is_streaming(request: &Json) -> (r: bool)
    ensures
        r == (request@.member(stream_key()) == Some(JsonV::Bool(true))),
{
    let key = literal("stream");
    proof {
        reveal_strlit("stream");
        assert(key@ =~= stream_key());
    }
    match request.get(&key) {
        Some(v) => match v.as_bool() {
            Some(b) => b,
            None => false,
        },
        None => false,
    }
}

/// Reads a request body, applies the policy, and writes the request to
/// forward. A body that is not JSON, or not a JSON object, is refused with
/// 400.
pub fn validate_model(policy: &ModelPolicy, body: &[u8]) -> (r: Result<Vec<u8>, APIError>)
    ensures
        match parsed_json_bytes(body@) {
            Some(doc) => if doc is Object {
                r matches Ok(b) && b@ == json_bytes(policy.apply(doc))
            } else {
                r == Err::<Vec<u8>, APIError>(
                    refusal(BAD_REQUEST, "Expected a JSON object"),
                )
            },
            None => r == Err::<Vec<u8>, APIError>(
                refusal(BAD_REQUEST, "Invalid JSON"),
            ),
        },
{
    let mut doc = match parse_json_bytes(body) {
        Some(d) => d,
        None => {
            return Err(refuse(BAD_REQUEST, "Invalid JSON"));
        },
    };
    match doc {
        Json::Object(_) => {},
        _ => {
            return Err(refuse(BAD_REQUEST, "Expected a JSON object"));
        },
    }
    apply_model_policy(policy, &mut doc);
    match write_json(&doc) {
        Ok(bytes) => Ok(bytes),
        Err(_) => Err(refuse(INTERNAL_SERVER_ERROR, "Failed to serialize request")),
    }
}

/// Applying the policy twice is applying it once; a request whose model is
/// missing, not a string or not allowed leaves with the default model; and
/// every request object leaves with an allowed model or the default one.
pub proof fn lemma_policy_laws(policy: ModelPolicy, doc: JsonV)
    ensures
        policy.apply(policy.apply(doc)) == policy.apply(doc),
        doc is Object ==> (policy.apply(doc).member(model_key()) matches Some(JsonV::Str(m)) && (
        policy.allows(m) || m == policy.default_model@)),
        doc is Object && !(doc.member(model_key()) matches Some(JsonV::Str(m)) && policy.allows(m))
            ==> policy.apply(doc).member(model_key()) == Some(JsonV::Str(policy.default_model@)),
{
    if let JsonV::Object(e) = doc {
        let default = JsonV::Str(policy.default_model@);
        let tier_ok = match doc.member(tier_key()) {
            Some(JsonV::Str(t)) => t == flex_tier() || t == on_demand_tier(),
            _ => false,
        };
        let t = if tier_ok {
            e
        } else {
            without_key(e, tier_key())
        };
        lemma_without_lookup(e, tier_key(), model_key());
        assert(tier_key() != model_key()) by {
            assert(tier_key().len() != model_key().len());
        }
        assert(entry_value(t, model_key()) == entry_value(e, model_key()));
        let keeps_model = match doc.member(model_key()) {
            Some(JsonV::Str(m)) => policy.allows(m),
            _ => false,
        };
        let e1 = if keeps_model {
            t
        } else {
            without_key(t, model_key()).push((model_key(), default))
        };
        assert(policy.apply(doc) == JsonV::Object(e1));
        // The tier member after the first pass.
        lemma_without_lookup(t, model_key(), tier_key());
        let w = without_key(t, model_key());
        assert(w.push((model_key(), default)).drop_last() =~= w);
        assert(entry_value(e1, tier_key()) == entry_value(t, tier_key()));
        if !tier_ok {
            lemma_without_lookup(e, tier_key(), tier_key());
            lemma_without_absent(e1, tier_key());
        }
        // The model member after the first pass.
        if !keeps_model {
            assert(entry_value(e1, model_key()) == Some(default));
            lemma_without_lookup(t, model_key(), model_key());
            lemma_without_absent(w, model_key());
            assert(without_key(e1, model_key()) == w);
        }
    }
}

} // verus!
