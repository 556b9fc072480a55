//! Untyped JSON documents, as the store and the ABI decoder hand them over.
use vstd::prelude::*;

verus! {

/// A JSON document. Numbers are non-negative integers; object members keep
/// their order.
#[derive(Debug, PartialEq)]
pub enum JsonValue {
    Null,
    Bool(bool),
    Number(u64),
    String(String),
    Array(Vec<JsonValue>),
    Object(Vec<(String, JsonValue)>),
}

/// What a [`JsonValue`] stands for.
pub enum Json {
    Null,
    Bool(bool),
    Number(nat),
    String(Seq<char>),
    Array(Seq<Json>),
    Object(Seq<(Seq<char>, Json)>),
}

pub open spec fn json_model(j: JsonValue) -> Json
    decreases j,
{
    match j {
        JsonValue::Null => Json::Null,
        JsonValue::Bool(b) => Json::Bool(b),
        JsonValue::Number(n) => Json::Number(n as nat),
        JsonValue::String(s) => Json::String(s@),
        JsonValue::Array(xs) => Json::Array(json_models(xs@)),
        JsonValue::Object(fs) => Json::Object(json_field_models(fs@)),
    }
}

pub open spec fn json_models(s: Seq<JsonValue>) -> Seq<Json>
    decreases s,
{
    if s.len() == 0 {
        Seq::empty()
    } else {
        json_models(s.subrange(0, s.len() - 1)).push(json_model(s[s.len() - 1]))
    }
}

pub open spec fn json_field_models(s: Seq<(String, JsonValue)>) -> Seq<(Seq<char>, Json)>
    decreases s,
{
    if s.len() == 0 {
        Seq::empty()
    } else {
        json_field_models(s.subrange(0, s.len() - 1)).push(
            (s[s.len() - 1].0@, json_model(s[s.len() - 1].1)),
        )
    }
}

impl View for JsonValue {
    type V = Json;

    open spec fn view(&self) -> Json {
        json_model(*self)
    }
}

pub proof fn lemma_json_models(s: Seq<JsonValue>)
    ensures
        json_models(s).len() == s.len(),
        forall|i: int| 0 <= i < s.len() ==> #[trigger] json_models(s)[i] == json_model(s[i]),
    decreases s.len(),
{
    if s.len() > 0 {
        lemma_json_models(s.subrange(0, s.len() - 1));
    }
}

pub proof fn lemma_json_field_models(s: Seq<(String, JsonValue)>)
    ensures
        json_field_models(s).len() == s.len(),
        forall|i: int|
            0 <= i < s.len() ==> #[trigger] json_field_models(s)[i] == (s[i].0@, json_model(s[i].1)),
    decreases s.len(),
{
    if s.len() > 0 {
        lemma_json_field_models(s.subrange(0, s.len() - 1));
    }
}

pub proof fn lemma_json_models_push(s: Seq<JsonValue>, x: JsonValue)
    ensures
        json_models(s.push(x)) == json_models(s).push(json_model(x)),
{
    lemma_json_models(s);
    lemma_json_models(s.push(x));
    assert(json_models(s.push(x)) =~= json_models(s).push(json_model(x)));
}

pub proof fn lemma_json_field_models_push(s: Seq<(String, JsonValue)>, x: (String, JsonValue))
    ensures
        json_field_models(s.push(x)) == json_field_models(s).push((x.0@, json_model(x.1))),
{
    lemma_json_field_models(s);
    lemma_json_field_models(s.push(x));
    assert(json_field_models(s.push(x)) =~= json_field_models(s).push((x.0@, json_model(x.1))));
}

} // verus!
