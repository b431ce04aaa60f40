//! JSON as far as tables and stored lists need it.

use crate::text;
use serde_json::Value;
use serde_json::Value::{Array, Bool, Null, Number, Object, String as Text};
use vstd::prelude::*;

verus! {

/// The value of an object's member.
#[derive(Debug)]
pub enum JsonMember {
    Null,
    Bool(bool),
    Text(String),
    /// A number, an array or an object, as compact JSON.
    Written(String),
}

/// The members of an object; nothing for a JSON value of another kind.
pub type JsonNode = Option<Vec<(String, JsonMember)>>;

/// A whole JSON document.
#[derive(Debug)]
pub enum JsonDocument {
    Array(Vec<JsonNode>),
    Single(JsonNode),
}

/// The value of an object's member, by its text.
pub enum MemberView {
    Null,
    Bool(bool),
    Text(Seq<char>),
    Written(Seq<char>),
}

/// The members of an object, by their texts; nothing for a JSON value of another kind.
pub type NodeView = Option<Seq<(Seq<char>, MemberView)>>;

/// A whole JSON document.
pub enum DocumentView {
    Array(Seq<NodeView>),
    Single(NodeView),
}

impl View for JsonMember {
    type V = MemberView;

    open spec fn view(&self) -> MemberView {
        match *self {
            JsonMember::Null => MemberView::Null,
            JsonMember::Bool(value) => MemberView::Bool(value),
            JsonMember::Text(value) => MemberView::Text(value@),
            JsonMember::Written(value) => MemberView::Written(value@),
        }
    }
}

/// What a JSON value holds as an object.
pub open spec fn node_view(node: JsonNode) -> NodeView {
    match node {
        Some(members) => Some(
            members@.map_values(|member: (String, JsonMember)| (member.0@, member.1@)),
        ),
        None => None,
    }
}

impl View for JsonDocument {
    type V = DocumentView;

    open spec fn view(&self) -> DocumentView {
        match *self {
            JsonDocument::Array(nodes) => DocumentView::Array(
                nodes@.map_values(|node: JsonNode| node_view(node)),
            ),
            JsonDocument::Single(node) => DocumentView::Single(node_view(node)),
        }
    }
}

/// What a document holds, if there is one.
pub open spec fn maybe_document(document: Option<JsonDocument>) -> Option<DocumentView> {
    match document {
        Some(document) => Some(document@),
        None => None,
    }
}

/// What `serde_json::from_str` makes of a text, as a document; nothing where it is no JSON.
pub uninterp spec fn json_document(source: Seq<char>) -> Option<DocumentView>;

/// What `serde_json::from_str` makes of a text that is to be an array of strings.
pub uninterp spec fn json_strings(source: Seq<char>) -> Option<Seq<Seq<char>>>;

/// What `serde_json::to_string_pretty` writes for an array of strings.
pub uninterp spec fn pretty_strings(items: Seq<Seq<char>>) -> Seq<char>;

/// Calls `serde_json::from_str` for any JSON value. The document follows from the text alone.
/// Which values are arrays and which are objects, `Value::as_array` and `Value::as_object` say.
/// Numbers, arrays and objects inside a member come as the crate displays them, which for the
/// last two is compact JSON.
#[verifier::external_body]
pub(crate) fn parse_document(source: &str) -> (r: Option<JsonDocument>)
    ensures
        maybe_document(r) == json_document(source@),
{
    let member = |value: &Value| match value {
        Null => JsonMember::Null,
        Bool(value) => JsonMember::Bool(*value),
        Text(value) => JsonMember::Text(value.clone()),
        Number(_) | Array(_) | Object(_) => JsonMember::Written(value.to_string()),
    };
    let node = |value: &Value| {
        value.as_object().map(|map| map.iter().map(|(k, v)| (k.clone(), member(v))).collect())
    };
    serde_json::from_str(source).ok().map(|value: Value| match value.as_array() {
        Some(items) => JsonDocument::Array(items.iter().map(node).collect()),
        None => JsonDocument::Single(node(&value)),
    })
}

/// Calls `serde_json::from_str` for an array of strings. The list follows from the text alone.
#[verifier::external_body]
pub(crate) fn parse_strings(source: &str) -> (r: Option<Vec<String>>)
    ensures
        match r {
            Some(items) => json_strings(source@) == Some(text::texts(items@)),
            None => json_strings(source@) is None,
        },
{
    serde_json::from_str::<Vec<String>>(source).ok()
}

/// Calls `serde_json::to_string_pretty`, which writes every array of strings, as a text that
/// follows from the strings alone and that reads back as the same strings.
#[verifier::external_body]
pub(crate) fn pretty_list(items: &Vec<String>) -> (r: String)
    ensures
        r@ == pretty_strings(text::texts(items@)),
        json_strings(r@) == Some(text::texts(items@)),
{
    serde_json::to_string_pretty(items).unwrap_or_default()
}

} // verus!
