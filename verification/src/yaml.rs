//! YAML documents, read by `serde_yaml` and cut down to what a manifest needs of them.

use serde_yaml::Value;
use vstd::prelude::*;

verus! {

/// A key or a value of a document: a string, a boolean, or anything else.
#[derive(Clone, Debug, PartialEq, Eq)]
pub enum Scalar {
    Text(String),
    Flag(bool),
    Other,
}

/// What a [`Scalar`] stands for.
pub enum ScalarView {
    Text(Seq<char>),
    Flag(bool),
    Other,
}

impl View for Scalar {
    type V = ScalarView;

    open spec fn view(&self) -> ScalarView {
        match self {
            Scalar::Text(text) => ScalarView::Text(text@),
            Scalar::Flag(flag) => ScalarView::Flag(*flag),
            Scalar::Other => ScalarView::Other,
        }
    }
}

impl Scalar {
    /// A copy of the scalar.
    pub fn duplicate(&self) -> (copy: Scalar)
        ensures
            copy@ == self@,
    {
        match self {
            Scalar::Text(text) => Scalar::Text(text.clone()),
            Scalar::Flag(flag) => Scalar::Flag(*flag),
            Scalar::Other => Scalar::Other,
        }
    }
}

/// One entry of a mapping.
#[derive(Clone, Debug, PartialEq, Eq)]
pub struct Pair {
    pub key: Scalar,
    pub value: Scalar,
}

/// What a [`Pair`] stands for.
pub struct PairView {
    pub key: ScalarView,
    pub value: ScalarView,
}

impl View for Pair {
    type V = PairView;

    open spec fn view(&self) -> PairView {
        PairView { key: self.key@, value: self.value@ }
    }
}

/// A document: a mapping with its entries in the order in which they were written, or
/// anything else.
#[derive(Clone, Debug, PartialEq, Eq)]
pub enum Document {
    Mapping(Vec<Pair>),
    Other,
}

/// What a [`Document`] stands for.
pub enum DocumentView {
    Mapping(Seq<PairView>),
    Other,
}

impl View for Document {
    type V = DocumentView;

    open spec fn view(&self) -> DocumentView {
        match self {
            Document::Mapping(pairs) => DocumentView::Mapping(
                Seq::new(pairs@.len(), |i: int| pairs@[i]@),
            ),
            Document::Other => DocumentView::Other,
        }
    }
}

/// What `serde_yaml` makes of a text: the document, or the message with which it refuses the
/// text.
pub uninterp spec fn yaml_document(text: Seq<char>) -> Result<DocumentView, Seq<char>>;

/// Reads a text as YAML, with `serde_yaml::from_str` at the type `serde_yaml::Value`.
///
/// Trusted: that what comes back depends on the text alone. A mapping comes back with its
/// entries in the order of the text, each key and each value as the string or the boolean
/// that `serde_yaml` read, or as [`Scalar::Other`]; any other value as [`Document::Other`];
/// a refusal as the message of the `serde_yaml::Error`.
#[verifier::external_body]
pub(crate) fn read_document(text: &str) -> (read: Result<Document, String>)
    ensures
        match read {
            Ok(document) => yaml_document(text@) == Ok::<DocumentView, Seq<char>>(document@),
            Err(message) => yaml_document(text@) == Err::<DocumentView, Seq<char>>(message@),
        },
{
    let scalar = |node: Value| match node {
        Value::String(text) => Scalar::Text(text),
        Value::Bool(flag) => Scalar::Flag(flag),
        _ => Scalar::Other,
    };
    match serde_yaml::from_str::<Value>(text) {
        Ok(Value::Mapping(entries)) => Ok(Document::Mapping(
            entries.into_iter().map(|(k, v)| Pair { key: scalar(k), value: scalar(v) }).collect(),
        )),
        Ok(_) => Ok(Document::Other),
        Err(error) => Err(error.to_string()),
    }
}

} // verus!
