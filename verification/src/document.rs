//! Reading documents from their text.

use crate::json;
use crate::json::{Field, Json, Member, Number, Tree};
use vstd::prelude::*;

verus! {

/// A document as `serde_json` holds it.
#[verifier::external_type_specification]
#[verifier::external_body]
pub struct ExValue(serde_json::Value);

/// What a `serde_json::Value` holds: the variants are those of [`Tree`], a
/// number is told apart as [`Number`] tells numbers apart, and the members of an
/// object are in the order in which the map gives them out.
pub uninterp spec fn held(value: serde_json::Value) -> Tree;

/// What `serde_json::from_str` makes of a text: the document, or what it says is
/// wrong with the text.
pub uninterp spec fn parsed_text(text: Seq<char>) -> Result<Tree, Seq<char>>;

/// The outermost layer of a document.
enum Layer {
    Null,
    Bool(bool),
    Number(Number),
    Text(String),
    List(Vec<serde_json::Value>),
    Object(Vec<(String, serde_json::Value)>),
}

/// The document that a layer is the outermost of.
spec fn whole(layer: Layer) -> Tree {
    match layer {
        Layer::Null => Tree::Null,
        Layer::Bool(b) => Tree::Bool(b),
        Layer::Number(n) => Tree::Number(n),
        Layer::Text(s) => Tree::Text(s@),
        Layer::List(v) => Tree::List(v@.map_values(|x: serde_json::Value| held(x))),
        Layer::Object(v) => Tree::Object(
            v@.map_values(|x: (String, serde_json::Value)| Field { key: x.0@, value: held(x.1) }),
        ),
    }
}

/// Calls `serde_json::from_str`, for a `serde_json::Value`. What comes back is
/// decided by the text alone.
#[verifier::external_body]
fn parse_text(text: &str) -> (r: Result<serde_json::Value, String>)
    ensures
        match r {
            Ok(value) => parsed_text(text@) == Ok::<Tree, Seq<char>>(held(value)),
            Err(message) => parsed_text(text@) == Err::<Tree, Seq<char>>(message@),
        },
{
    serde_json::from_str(text).map_err(|e: serde_json::Error| e.to_string())
}

/// Takes the outermost layer off a `serde_json::Value`, moving out what it holds:
/// the value is the layer with what is held in it.
#[verifier::external_body]
fn open_value(value: serde_json::Value) -> (r: Layer)
    ensures
        whole(r) == held(value),
{
    match value {
        serde_json::Value::Null => Layer::Null,
        serde_json::Value::Bool(b) => Layer::Bool(b),
        serde_json::Value::Number(n) => Layer::Number(match (n.as_u64(), n.as_i64()) {
            (Some(u), _) => Number::Unsigned(u),
            (None, Some(i)) => Number::Negative(i),
            (None, None) => Number::Real(n.as_f64().map_or(0, |x| x.to_bits())),
        }),
        serde_json::Value::String(s) => Layer::Text(s),
        serde_json::Value::Array(v) => Layer::List(v),
        serde_json::Value::Object(m) => Layer::Object(m.into_iter().collect()),
    }
}

/// A document as the library holds it.
fn to_json(value: serde_json::Value) -> (r: Json)
    ensures
        r@ == held(value),
    decreases held(value),
{
    let ghost all = held(value);
    match open_value(value) {
        Layer::Null => Json::Null,
        Layer::Bool(b) => Json::Bool(b),
        Layer::Number(n) => Json::Number(n),
        Layer::Text(s) => Json::Text(s),
        Layer::List(values) => {
            let ghost elements = values@;
            let mut list: Vec<Json> = Vec::new();
            for x in walk: values
                invariant
                    walk.seq() == elements,
                    all == held(value),
                    all == Tree::List(elements.map_values(|x: serde_json::Value| held(x))),
                    list@.len() == walk.index(),
                    forall|k: int| 0 <= k < list@.len() ==> json::tree(#[trigger] list@[k]) == held(elements[k]),
            {
                assert(all->List_0[walk.index()] == held(x));
                assert(decreases_to!(all => all->List_0[walk.index()]));
                list.push(to_json(x));
            }
            assert(json::trees(list@) =~= elements.map_values(|x: serde_json::Value| held(x)));
            Json::List(list)
        },
        Layer::Object(values) => {
            let ghost elements = values@;
            let mut members: Vec<Member> = Vec::new();
            for x in walk: values
                invariant
                    walk.seq() == elements,
                    all == held(value),
                    all == Tree::Object(
                        elements.map_values(|x: (String, serde_json::Value)| Field { key: x.0@, value: held(x.1) }),
                    ),
                    members@.len() == walk.index(),
                    forall|k: int|
                        0 <= k < members@.len() ==> json::field_model(#[trigger] members@[k]) == (Field {
                            key: elements[k].0@,
                            value: held(elements[k].1),
                        }),
            {
                let (key, inner) = x;
                assert(all->Object_0[walk.index()].value == held(inner));
                assert(decreases_to!(all => all->Object_0[walk.index()].value));
                members.push(Member { key, value: to_json(inner) });
            }
            assert(json::fields(members@) =~= elements.map_values(
                |x: (String, serde_json::Value)| Field { key: x.0@, value: held(x.1) },
            ));
            Json::Object(members)
        },
    }
}

/// The document that a text says, or what is wrong with the text.
pub fn read_document(text: &str) -> (r: Result<Json, String>)
    ensures
        match r {
            Ok(doc) => parsed_text(text@) == Ok::<Tree, Seq<char>>(doc@),
            Err(message) => parsed_text(text@) == Err::<Tree, Seq<char>>(message@),
        },
{
    match parse_text(text) {
        Ok(value) => Ok(to_json(value)),
        Err(message) => Err(message),
    }
}

} // verus!
