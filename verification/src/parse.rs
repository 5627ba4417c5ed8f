//! The document loader: raw XML text is handed to roxmltree and its tree
//! is copied into the library's own `XmlNode` form, on which everything
//! else is verified.

use vstd::prelude::*;

use crate::error::BemError;
use crate::model::class_for_surface;
use crate::model::doc_views;
use crate::model::extract_models;
use crate::model::first_bad_surface;
use crate::model::subtree_ok;
use crate::model::surface_nodes;
use crate::model::surface_wf;
use crate::model::Models;
use crate::xml::Attr;
use crate::xml::XmlNode;

verus! {

#[verifier::external_type_specification]
#[verifier::external_body]
pub struct ExNode<'a, 'input: 'a>(roxmltree::Node<'a, 'input>);

/// What the document loader makes of a text: for well-formed XML the root
/// element's tree, with attributes and element and text children in
/// source order; otherwise the loader's message. A function of the text
/// alone.
pub uninterp spec fn xml_doc_of(s: Seq<char>) -> Result<XmlNode, Seq<char>>;

/// Relies on `roxmltree::Node`: `tag_name().name()`, `attributes()`,
/// `children()`, `text()` and the node-kind tests read one parsed node.
/// Copies one node's subtree into the library's tree, keeping element and
/// text children in source order; the tree-copying step of
/// `parse_document` below.
#[verifier::external_body]
fn node_to_tree(n: roxmltree::Node<'_, '_>) -> XmlNode {
    if n.is_element() {
        XmlNode::Element {
            tag: n.tag_name().name().to_string(),
            attrs: n.attributes().map(
                |a| Attr { name: a.name().to_string(), value: a.value().to_string() },
            ).collect(),
            children: n.children().filter(|c| c.is_element() || c.is_text()).map(
                node_to_tree,
            ).collect(),
        }
    } else {
        XmlNode::Text { body: n.text().unwrap_or("").to_string() }
    }
}

/// Relies on `roxmltree::Document::parse`: well-formed XML parses into a
/// tree whose root element `node_to_tree` then copies; malformed XML is
/// reported with the parser's message. The outcome is a function of the
/// text alone.
#[verifier::external_body]
fn parse_document(text: &str) -> (r: Result<XmlNode, String>)
    ensures
        r is Ok ==> xml_doc_of(text@) == Ok::<XmlNode, Seq<char>>(r->Ok_0),
        r is Err ==> xml_doc_of(text@) == Err::<XmlNode, Seq<char>>(r->Err_0@),
{
    match roxmltree::Document::parse(text) {
        Ok(doc) => Ok(node_to_tree(doc.root_element())),
        Err(e) => Err(format!("{}", e)),
    }
}

/// The conversion entry point: parses the document and extracts every
/// surface, in document order, with its openings and meshes. Fails on
/// malformed XML with the loader's message, and otherwise exactly on the
/// documents whose `Surface` elements are not all well formed, with the
/// class the first failing surface's first failing check names.
pub fn parse_bem(bem: &str) -> (r: Result<Models, BemError>)
    ensures
        xml_doc_of(bem@) matches Err(m) ==> r matches Err(e) && e matches BemError::DocumentSyntax {
            message,
        } && message@ == m,
        xml_doc_of(bem@) matches Ok(root) ==> {
            &&& r is Ok <==> subtree_ok(root)
            &&& r is Ok ==> r.unwrap()@.surfaces == doc_views(root)
            &&& r is Ok ==> forall|k: int|
                0 <= k < r.unwrap()@.surfaces.len() ==> surface_wf(#[trigger] r.unwrap()@.surfaces[k])
            &&& r matches Err(e) ==> ({
                let ss = surface_nodes(root);
                let j = first_bad_surface(ss);
                j < ss.len() && class_for_surface(ss[j], e)
            })
        },
{
    match parse_document(bem) {
        Ok(root) => extract_models(&root),
        Err(message) => Err(BemError::DocumentSyntax { message }),
    }
}

} // verus!
