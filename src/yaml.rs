//! A plain tree of YAML values, as read from a stream of documents.
use serde::Deserialize;
use vstd::prelude::*;

verus! {

/// One YAML value. Mappings keep their entries in the order of the text.
pub enum YamlNode {
    Null,
    Bool(bool),
    /// A number: its text, and its value where it is a non-negative integer.
    Number(String, Option<u64>),
    Str(String),
    Sequence(Vec<YamlNode>),
    Mapping(Vec<(YamlNode, YamlNode)>),
    /// A tagged value; the tag is written with its leading `!`.
    Tagged(String, Box<YamlNode>),
}

/// `serde_yaml`'s own tree of values, converted to [`YamlNode`] as it is read.
#[verifier::external_type_specification]
#[verifier::external_body]
pub struct ExYamlValue(serde_yaml::Value);

/// The documents that `serde_yaml` reads from a text, in order: `None` for
/// one that it cannot read as a value (a repeated key, say). After a
/// syntax error nothing more is read.
pub uninterp spec fn yaml_documents(text: Seq<char>) -> Seq<Option<YamlNode>>;

/// Relies on `serde_yaml::Deserializer::from_str`, which yields the documents
/// of a stream in order, and on `Value::deserialize` of each: the result
/// depends on the text alone. A document that does not deserialize gives
/// `None`. After a syntax error the stream yields the same error, at the same
/// place, without end; reading stops when an error repeats the place of the
/// one before it.
#[verifier::external_body]
pub(crate) fn read_yaml_documents(text: &str) -> (r: Vec<Option<YamlNode>>)
    ensures
        r@ == yaml_documents(text@),
{
    let mut documents = Vec::new();
    let mut last_failure = None;
    for document in serde_yaml::Deserializer::from_str(text) {
        match serde_yaml::Value::deserialize(document) {
            Ok(value) => documents.push(Some(yaml_node_of(value))),
            Err(error) => {
                let place = Some(error.location().map(|l| l.index()));
                if std::mem::replace(&mut last_failure, place) == place {
                    break;
                }
                documents.push(None);
            },
        }
    }
    documents
}

/// Relies on the shape of `serde_yaml::Value`: converts it node for node,
/// keeping the order of sequences and mappings. A number keeps its text (by
/// `Number`'s `Display`) and `Number::as_u64`; a tag is written as `Tag`'s
/// `Display` shows it, with its `!`. Used by `read_yaml_documents` alone.
#[verifier::external_body]
fn yaml_node_of(value: serde_yaml::Value) -> YamlNode {
    match value {
        serde_yaml::Value::Null => YamlNode::Null,
        serde_yaml::Value::Bool(b) => YamlNode::Bool(b),
        serde_yaml::Value::Number(n) => YamlNode::Number(n.to_string(), n.as_u64()),
        serde_yaml::Value::String(s) => YamlNode::Str(s),
        serde_yaml::Value::Sequence(s) => YamlNode::Sequence(s.into_iter().map(yaml_node_of).collect()),
        serde_yaml::Value::Mapping(m) => YamlNode::Mapping(
            m.into_iter().map(|(k, v)| (yaml_node_of(k), yaml_node_of(v))).collect(),
        ),
        serde_yaml::Value::Tagged(t) => YamlNode::Tagged(t.tag.to_string(), Box::new(yaml_node_of(t.value))),
    }
}

} // verus!
