//! JSON documents as the library builds them, and their text as `serde_json`
//! writes it.
use vstd::prelude::*;

verus! {

/// A JSON value: a string, an integer, an array, or an object given as its
/// fields in order.
pub enum JsonValue {
    Str(String),
    Int(i64),
    Arr(Vec<JsonValue>),
    Obj(Vec<(String, JsonValue)>),
}

/// What a [`JsonValue`] holds, as plain values.
pub enum JsonModel {
    Str(Seq<char>),
    Int(i64),
    Arr(Seq<JsonModel>),
    Obj(Seq<(Seq<char>, JsonModel)>),
}

/// The plain value of a JSON value.
pub open spec fn json_model(v: JsonValue) -> JsonModel
    decreases v,
{
    match v {
        JsonValue::Str(s) => JsonModel::Str(s@),
        JsonValue::Int(n) => JsonModel::Int(n),
        JsonValue::Arr(xs) => JsonModel::Arr(
            Seq::new(
                xs.len() as nat,
                |i: int|
                    if 0 <= i < xs.len() {
                        json_model(xs@[i])
                    } else {
                        JsonModel::Int(0)
                    },
            ),
        ),
        JsonValue::Obj(fs) => JsonModel::Obj(
            Seq::new(
                fs.len() as nat,
                |i: int|
                    if 0 <= i < fs.len() {
                        (fs@[i].0@, json_model(fs@[i].1))
                    } else {
                        (Seq::<char>::empty(), JsonModel::Int(0))
                    },
            ),
        ),
    }
}

impl View for JsonValue {
    type V = JsonModel;

    open spec fn view(&self) -> JsonModel {
        json_model(*self)
    }
}

#[verifier::external_type_specification]
#[verifier::external_body]
pub struct ExJsonValue(serde_json::Value);

/// `serde_json`'s own value for a JSON value: each variant turned into the
/// matching `serde_json::Value`, an object's fields inserted in order.
#[verifier::external_body]
fn serde_value(v: &JsonValue) -> serde_json::Value {
    match v {
        JsonValue::Str(s) => serde_json::Value::String(s.clone()),
        JsonValue::Int(n) => serde_json::Value::from(*n),
        JsonValue::Arr(xs) => serde_json::Value::Array(xs.iter().map(serde_value).collect()),
        JsonValue::Obj(fs) => serde_json::Value::Object(
            fs.iter().map(|(k, x)| (k.clone(), serde_value(x))).collect(),
        ),
    }
}

/// What `serde_json::to_string_pretty` writes for a JSON value, or its error
/// message.
pub uninterp spec fn json_pretty_of(v: JsonModel) -> Result<Seq<char>, Seq<char>>;

/// `serde_json::to_string_pretty` on a JSON value; the text is only named
/// ([`json_pretty_of`]).
#[verifier::external_body]
pub(crate) fn json_to_string_pretty(v: &JsonValue) -> (r: Result<String, String>)
    ensures
        match r {
            Ok(t) => json_pretty_of(v@) == Ok::<Seq<char>, Seq<char>>(t@),
            Err(e) => json_pretty_of(v@) == Err::<Seq<char>, Seq<char>>(e@),
        },
{
    serde_json::to_string_pretty(&serde_value(v)).map_err(|e| e.to_string())
}

} // verus!
