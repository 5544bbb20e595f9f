//! Reading documents from markup text and writing them back.

use vstd::prelude::*;
use vstd::string::*;
use vstd::utf8::decode_utf8;
use crate::error::{kind_of, DocError, ErrorKind};
use crate::model::{writable, DocElement, ElementModel};
use crate::outside::{
    element_from_outside, element_to_outside, evaluate_xpath, parse_error_text, parsed_document,
    string_from_utf8, utf8_error_text, write_error_text, written_document, xmltree_parse,
    xmltree_write, xpath_value, QueryModel, QueryValue,
};

verus! {

/// The text of a document: the bytes that the writer emits for it, read as
/// UTF-8. Nothing where the element cannot be written as it stands.
pub open spec fn serialized_text(e: ElementModel) -> Option<Seq<char>> {
    if writable(e) {
        Some(decode_utf8(written_document(e)))
    } else {
        None
    }
}

/// Reads a document from markup text. Fails with `ParseFailure` exactly when
/// the parser rejects the text. A document that was read can be written as
/// it stands.
pub fn parse_document(text: &str) -> (r: Result<DocElement, DocError>)
    ensures
        match r {
            Ok(e) => parsed_document(text@) == Some(e@) && writable(e@),
            Err(err) => kind_of(err) == ErrorKind::ParseFailure && parsed_document(text@) is None,
        },
{
    match xmltree_parse(text) {
        Ok(outside) => Ok(element_from_outside(outside)),
        Err(e) => Err(DocError::ParseFailure(parse_error_text(&e))),
    }
}

/// Writes a document out as text. Fails with `EncodingFailure` exactly when
/// the document cannot be written as it stands: when an attribute name
/// repeats or namespace bindings are out of order somewhere in it.
pub fn serialize_element(e: &DocElement) -> (r: Result<String, DocError>)
    ensures
        match r {
            Ok(t) => serialized_text(e@) == Some(t@),
            Err(err) => kind_of(err) == ErrorKind::EncodingFailure && serialized_text(e@) is None,
        },
{
    if !e.is_writable() {
        return Err(DocError::EncodingFailure(String::from_str("an attribute name repeats or the namespace bindings are out of order")));
    }
    let outside = element_to_outside(e.deep_copy());
    match xmltree_write(&outside) {
        Ok(bytes) => match string_from_utf8(bytes) {
            Ok(t) => Ok(t),
            Err(err) => Err(DocError::EncodingFailure(utf8_error_text(&err))),
        },
        Err(err) => Err(DocError::EncodingFailure(write_error_text(&err))),
    }
}

/// What the query for the project's name says of a raw text: the string
/// value of the first selected node, or the text of a value that is no node
/// set. Nothing where the text cannot be read, the query fails, or no node is
/// selected.
pub open spec fn project_name_of(text: Seq<char>) -> Option<Seq<char>> {
    match xpath_value(text, "/project/name/text()"@) {
        Some(value) => first_value(value),
        None => None,
    }
}

/// The text that a query's value stands for.
pub open spec fn first_value(value: QueryModel) -> Option<Seq<char>> {
    match value {
        QueryModel::Nodes(nodes) => if nodes.len() > 0 {
            Some(nodes[0])
        } else {
            None
        },
        QueryModel::Scalar(s) => Some(s),
    }
}

/// Picks the text that a query's value stands for: the first node's string
/// value, or the scalar's text.
pub fn pick_first_value(value: QueryValue) -> (r: Option<String>)
    ensures
        match r {
            Some(s) => first_value(value@) == Some(s@),
            None => first_value(value@) is None,
        },
{
    match value {
        QueryValue::Nodes(mut nodes) => {
            if nodes.len() > 0 {
                let first = nodes.swap_remove(0);
                Some(first)
            } else {
                None
            }
        },
        QueryValue::Scalar(s) => Some(s),
    }
}

/// Extracts the project's name from raw markup text by a query of its own,
/// without building the document model.
pub fn extract_project_name_from_text(text: &str) -> (r: Option<String>)
    ensures
        match r {
            Some(name) => project_name_of(text@) == Some(name@),
            None => project_name_of(text@) is None,
        },
{
    match evaluate_xpath(text, "/project/name/text()") {
        Some(value) => pick_first_value(value),
        None => None,
    }
}

} // verus!
