//! Parsing HTML with html5ever into a [`HtmlNode`] tree.

use vstd::prelude::*;
use std::rc::Rc;
use html5ever::tendril::TendrilSink;
use markup5ever_rcdom::NodeData as D;
use crate::tree::{Attr, HtmlNode, children_of, cut_to, height, lemma_max_height_bound, same_data};

verus! {

#[verifier::external_type_specification]
#[verifier::external_body]
pub struct ExRcdomNode(markup5ever_rcdom::Node);

/// The tree that an rcdom node holds, as a [`HtmlNode`]: the node's own data
/// and, in order, the trees of its children.
pub uninterp spec fn rcdom_tree(n: markup5ever_rcdom::Node) -> HtmlNode;

/// The document tree that html5ever parses from `html` into an `RcDom`.
pub uninterp spec fn parsed_document(html: Seq<u8>) -> HtmlNode;

/// Parses `html` with `html5ever::parse_document` into a
/// `markup5ever_rcdom::RcDom` (decoding the bytes as UTF-8 with invalid
/// sequences replaced) and returns the document node, or the text of the
/// error that `read_from` reported. The claim is that reading succeeds (it
/// fails only when the reader does, and reading a byte slice does not) and
/// that the document's tree is [`parsed_document`] of `html`.
#[verifier::external_body]
fn parse_rcdom(html: &[u8]) -> (res: Result<Rc<markup5ever_rcdom::Node>, String>)
    ensures
        res is Ok,
        res matches Ok(h) ==> rcdom_tree(*h) == parsed_document(html@),
{
    html5ever::parse_document(markup5ever_rcdom::RcDom::default(), Default::default())
        .from_utf8()
        .read_from(&mut &html[..])
        .map(|dom| dom.document)
        .map_err(|e| format!("{e}"))
}

/// The children of an rcdom node (clones of their handles), in order: the
/// claim is that their trees are the children of the node's tree.
#[verifier::external_body]
fn dom_children(h: &Rc<markup5ever_rcdom::Node>) -> (kids: Vec<Rc<markup5ever_rcdom::Node>>)
    ensures
        kids@.len() == children_of(rcdom_tree(**h)).len(),
        forall|i: int|
            0 <= i < kids@.len() ==> rcdom_tree(*#[trigger] kids@[i]) == children_of(
                rcdom_tree(**h),
            )[i],
{
    h.children.borrow().clone()
}

/// The data of an rcdom node as a [`HtmlNode`] without children: the kind of
/// node, for an element its local name and its attributes (local name and
/// value), for text its contents. The claim is that the result has no
/// children and the data of the node's tree.
#[verifier::external_body]
fn dom_data(h: &Rc<markup5ever_rcdom::Node>) -> (n: HtmlNode)
    ensures
        children_of(n).len() == 0,
        same_data(n, rcdom_tree(**h)),
{
    match &h.data {
        D::Document => HtmlNode::Document { children: Vec::new() },
        D::Doctype { .. } => HtmlNode::Doctype,
        D::Text { contents } => HtmlNode::Text { contents: contents.borrow().chars().collect() },
        D::Comment { .. } => HtmlNode::Comment,
        D::Element { name, attrs, .. } => HtmlNode::Element {
            name: name.local.chars().collect(),
            attrs: attrs.borrow().iter().map(|a| Attr { name: a.name.local.chars().collect(), value: a.value.chars().collect() }).collect(),
            children: Vec::new(),
        },
        D::ProcessingInstruction { .. } => HtmlNode::ProcessingInstruction,
    }
}

/// Depth below which the tree is copied: the converter never looks below a
/// node at this depth (reaching one is already an error), so its children are
/// left out.
pub const TREE_DEPTH_LIMIT: usize = 200;

/// Copies the rcdom subtree at `h`, which lies at `depth` below the root.
fn build_node(h: &Rc<markup5ever_rcdom::Node>, depth: usize) -> (n: HtmlNode)
    requires
        depth <= TREE_DEPTH_LIMIT,
    ensures
        depth + height(n) <= TREE_DEPTH_LIMIT,
        cut_to(n, rcdom_tree(**h), (TREE_DEPTH_LIMIT - depth) as nat),
    decreases TREE_DEPTH_LIMIT - depth,
{
    let n = dom_data(h);
    if depth == TREE_DEPTH_LIMIT {
        return n;
    }
    match n {
        HtmlNode::Document { .. } => {
            let children = build_children(h, depth);
            HtmlNode::Document { children }
        },
        HtmlNode::Element { name, attrs, .. } => {
            let children = build_children(h, depth);
            HtmlNode::Element { name, attrs, children }
        },
        other => other,
    }
}

fn build_children(h: &Rc<markup5ever_rcdom::Node>, depth: usize) -> (kids: Vec<HtmlNode>)
    requires
        depth < TREE_DEPTH_LIMIT,
    ensures
        kids@.len() == 0 || depth + 1 + crate::tree::max_height(kids@) <= TREE_DEPTH_LIMIT,
        kids@.len() == children_of(rcdom_tree(**h)).len(),
        forall|i: int|
            0 <= i < kids@.len() ==> cut_to(
                #[trigger] kids@[i],
                children_of(rcdom_tree(**h))[i],
                (TREE_DEPTH_LIMIT - depth - 1) as nat,
            ),
    decreases TREE_DEPTH_LIMIT - depth, 0nat,
{
    let handles = dom_children(h);
    let mut kids: Vec<HtmlNode> = Vec::new();
    let mut i: usize = 0;
    while i < handles.len()
        invariant
            depth < TREE_DEPTH_LIMIT,
            i <= handles@.len(),
            kids@.len() == i,
            handles@.len() == children_of(rcdom_tree(**h)).len(),
            forall|j: int|
                0 <= j < handles@.len() ==> rcdom_tree(*#[trigger] handles@[j]) == children_of(
                    rcdom_tree(**h),
                )[j],
            forall|j: int| 0 <= j < i ==> depth + 1 + height(#[trigger] kids@[j]) <= TREE_DEPTH_LIMIT,
            forall|j: int|
                0 <= j < i ==> cut_to(
                    #[trigger] kids@[j],
                    children_of(rcdom_tree(**h))[j],
                    (TREE_DEPTH_LIMIT - depth - 1) as nat,
                ),
        decreases handles@.len() - i,
    {
        let k = build_node(&handles[i], depth + 1);
        kids.push(k);
        i += 1;
    }
    proof {
        lemma_max_height_bound(kids@, (TREE_DEPTH_LIMIT - depth - 1) as nat);
    }
    kids
}

/// Parses `html` into a document tree: html5ever's, cut below depth
/// [`TREE_DEPTH_LIMIT`]. Parsing a byte slice always succeeds.
pub fn parse_html(html: &[u8]) -> (res: Result<HtmlNode, String>)
    ensures
        res is Ok,
        res matches Ok(d) ==> height(d) <= TREE_DEPTH_LIMIT,
        res matches Ok(d) ==> cut_to(d, parsed_document(html@), TREE_DEPTH_LIMIT as nat),
{
    match parse_rcdom(html) {
        Ok(doc) => Ok(build_node(&doc, 0)),
        Err(e) => Err(e),
    }
}

} // verus!
