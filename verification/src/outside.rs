//! The calls into the crates that this library builds on: `xmltree` reads and
//! writes markup, `sxd_xpath` evaluates a query on raw text, `uuid` mints
//! identifiers. The contracts in this module are taken on trust from the
//! sources of those crates; everything else in the library is proved from
//! them.

use vstd::prelude::*;
use vstd::utf8::{decode_utf8, valid_utf8};
use xmltree::{Namespace, XMLNode};
use crate::model::{writable, DocElement, ElementModel, XmlNode};

verus! {

/// `xmltree::Element`, an element as the markup crate holds it.
#[verifier::external_type_specification]
#[verifier::external_body]
pub struct ExOutsideElement(xmltree::Element);

/// `xmltree::ParseError`, the failure of reading markup.
#[verifier::external_type_specification]
#[verifier::external_body]
pub struct ExParseError(xmltree::ParseError);

/// `xmltree::Error`, the failure of writing markup.
#[verifier::external_type_specification]
#[verifier::external_body]
pub struct ExWriteError(xmltree::Error);

/// `std::string::FromUtf8Error`, the failure of reading bytes as text.
#[verifier::external_type_specification]
#[verifier::external_body]
pub struct ExFromUtf8Error(std::string::FromUtf8Error);

/// What an element of the markup crate holds: its fields, with the attributes
/// and the namespace bindings in the order in which their maps yield them.
pub uninterp spec fn outside_tree(e: xmltree::Element) -> ElementModel;

/// The root element that `xmltree::Element::parse` builds from a text;
/// nothing where it rejects the text.
pub uninterp spec fn parsed_document(text: Seq<char>) -> Option<ElementModel>;

/// The bytes that `xmltree::Element::write` emits for an element.
pub uninterp spec fn written_document(e: ElementModel) -> Seq<u8>;

/// The outcome of a query on a raw text. The name stands for a chain of
/// calls, because the document in the middle cannot leave the call that
/// built it: `sxd_document::parser::parse` builds the document from the
/// text, `sxd_xpath::evaluate_xpath` evaluates the query at its root, and a
/// node set is handed out as the `string_value` of each node in
/// `document_order`, any other value as its `string`. Nothing where the
/// parser or the evaluator fails.
pub uninterp spec fn xpath_value(text: Seq<char>, query: Seq<char>) -> Option<QueryModel>;

/// The value of a query: the string values of the selected nodes in document
/// order, or the text of a value that is no node set.
#[derive(Clone, Debug, PartialEq, Eq)]
pub enum QueryValue {
    Nodes(Vec<String>),
    Scalar(String),
}

/// The mathematical value of a query's value.
pub enum QueryModel {
    Nodes(Seq<Seq<char>>),
    Scalar(Seq<char>),
}

impl View for QueryValue {
    type V = QueryModel;

    open spec fn view(&self) -> QueryModel {
        match self {
            QueryValue::Nodes(v) => QueryModel::Nodes(Seq::new(v@.len(), |i: int| v@[i]@)),
            QueryValue::Scalar(s) => QueryModel::Scalar(s@),
        }
    }
}

/// Calls `xmltree::Element::parse` on the bytes of `text`. The parser reads
/// the text with a fixed configuration and no other input, so its outcome is
/// a function of the text: the contract names it.
#[verifier::external_body]
pub(crate) fn xmltree_parse(text: &str) -> (r: Result<xmltree::Element, xmltree::ParseError>)
    ensures
        match r {
            Ok(e) => parsed_document(text@) == Some(outside_tree(e)),
            Err(_) => parsed_document(text@) is None,
        },
{
    xmltree::Element::parse(text.as_bytes())
}

/// Moves the fields of an `xmltree::Element` into an element of this
/// library, child by child. The result holds what the outside element held.
/// It can be written as it stands: the attributes come out of a map, which
/// holds no name twice, and the namespace bindings out of an ordered map,
/// which yields them in the order of their prefixes.
#[verifier::external_body]
pub(crate) fn element_from_outside(e: xmltree::Element) -> (r: DocElement)
    ensures
        r@ == outside_tree(e),
        writable(r@),
{
    let children = e.children.into_iter().map(|n| match n {
        XMLNode::Element(c) => XmlNode::Element(element_from_outside(c)),
        XMLNode::Comment(s) => XmlNode::Comment(s),
        XMLNode::CData(s) => XmlNode::CData(s),
        XMLNode::Text(s) => XmlNode::Text(s),
        XMLNode::ProcessingInstruction(t, d) => XmlNode::ProcessingInstruction(t, d),
    }).collect();
    let namespaces = e.namespaces.map(|ns| ns.0.into_iter().collect());
    let attributes = e.attributes.into_iter().collect();
    DocElement { prefix: e.prefix, namespace: e.namespace, namespaces, name: e.name, attributes, children }
}

/// Moves the fields of an element of this library into an
/// `xmltree::Element`. The attributes go into an insertion-ordered map and
/// the namespace bindings into a map ordered by prefix: where no attribute
/// name repeats and the bindings are in order, nothing is lost or moved.
#[verifier::external_body]
pub(crate) fn element_to_outside(e: DocElement) -> (r: xmltree::Element)
    requires
        writable(e@),
    ensures
        outside_tree(r) == e@,
{
    let children = e.children.into_iter().map(|n| match n {
        XmlNode::Element(c) => XMLNode::Element(element_to_outside(c)),
        XmlNode::Comment(s) => XMLNode::Comment(s),
        XmlNode::CData(s) => XMLNode::CData(s),
        XmlNode::Text(s) => XMLNode::Text(s),
        XmlNode::ProcessingInstruction(t, d) => XMLNode::ProcessingInstruction(t, d),
    }).collect();
    let namespaces = e.namespaces.map(|ns| Namespace(ns.into_iter().collect()));
    let attributes = e.attributes.into_iter().collect();
    xmltree::Element { prefix: e.prefix, namespace: e.namespace, namespaces, name: e.name, attributes, children }
}

/// Calls `xmltree::Element::write` into a fresh buffer. The writer works
/// with a fixed configuration on the element alone, so the bytes are a
/// function of what the element holds: the contract names them. The call
/// succeeds: a buffer in memory takes every write, the document declaration
/// is emitted once, and every end tag is emitted for the start tag that was
/// emitted last, under its name. The bytes are valid UTF-8: the emitter
/// writes texts and ASCII literals only.
#[verifier::external_body]
pub(crate) fn xmltree_write(e: &xmltree::Element) -> (r: Result<Vec<u8>, xmltree::Error>)
    ensures
        r is Ok,
        r->Ok_0@ == written_document(outside_tree(*e)),
        valid_utf8(r->Ok_0@),
{
    let mut out = Vec::new();
    e.write(&mut out).map(|_| out)
}

/// The display text of an `xmltree::ParseError`. Nothing is claimed of it.
#[verifier::external_body]
pub(crate) fn parse_error_text(e: &xmltree::ParseError) -> (r: String) {
    e.to_string()
}

/// The display text of an `xmltree::Error`. Nothing is claimed of it.
#[verifier::external_body]
pub(crate) fn write_error_text(e: &xmltree::Error) -> (r: String) {
    e.to_string()
}

/// Calls `String::from_utf8`: the text that the bytes encode, exactly when
/// they are valid UTF-8.
#[verifier::external_body]
pub(crate) fn string_from_utf8(bytes: Vec<u8>) -> (r: Result<String, std::string::FromUtf8Error>)
    ensures
        match r {
            Ok(s) => valid_utf8(bytes@) && s@ == decode_utf8(bytes@),
            Err(_) => !valid_utf8(bytes@),
        },
{
    String::from_utf8(bytes)
}

/// The display text of a `FromUtf8Error`. Nothing is claimed of it.
#[verifier::external_body]
pub(crate) fn utf8_error_text(e: &std::string::FromUtf8Error) -> (r: String) {
    e.to_string()
}

/// Calls `sxd_document::parser::parse` on `text` and
/// `sxd_xpath::evaluate_xpath` with `query` on the document, and hands out
/// the string values of the selected nodes in document order. All of them
/// work on their arguments alone, so the outcome is a function of the two
/// texts: the contract names it. The query is the one for the text of the
/// project's name: the evaluator panics on some other queries.
#[verifier::external_body]
pub(crate) fn evaluate_xpath(text: &str, query: &str) -> (r: Option<QueryValue>)
    requires
        query@ == "/project/name/text()"@,
    ensures
        match r {
            Some(v) => xpath_value(text@, query@) == Some(v@),
            None => xpath_value(text@, query@) is None,
        },
{
    let package = sxd_document::parser::parse(text).ok()?;
    let document = package.as_document();
    match sxd_xpath::evaluate_xpath(&document, query).ok()? {
        sxd_xpath::Value::Nodeset(ns) => Some(
            QueryValue::Nodes(ns.document_order().iter().map(|n| n.string_value()).collect()),
        ),
        v => Some(QueryValue::Scalar(v.string())),
    }
}

/// Calls `uuid::Uuid::new_v4` and renders the identifier as text. The
/// identifier is random: nothing is claimed of it. The call panics where the
/// system's source of randomness fails.
#[verifier::external_body]
pub(crate) fn fresh_identifier() -> (r: String) {
    uuid::Uuid::new_v4().to_string()
}

} // verus!
