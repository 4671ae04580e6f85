//! The document tree that the converter walks.

use vstd::prelude::*;

verus! {

/// An attribute of an element: its local name and its value.
pub struct Attr {
    pub name: Vec<char>,
    pub value: Vec<char>,
}

/// A node of a parsed HTML document.
pub enum HtmlNode {
    Document { children: Vec<HtmlNode> },
    Element { name: Vec<char>, attrs: Vec<Attr>, children: Vec<HtmlNode> },
    Text { contents: Vec<char> },
    Comment,
    Doctype,
    ProcessingInstruction,
}

/// The children of a node (none for a leaf).
pub open spec fn children_of(n: HtmlNode) -> Seq<HtmlNode> {
    match n {
        HtmlNode::Document { children } => children@,
        HtmlNode::Element { children, .. } => children@,
        _ => seq![],
    }
}

/// The attributes as (name, value) pairs.
pub open spec fn attrs_view(a: Seq<Attr>) -> Seq<(Seq<char>, Seq<char>)> {
    a.map_values(|x: Attr| (x.name@, x.value@))
}

/// Whether `n` and `t` are the same kind of node with the same own data
/// (element name and attributes, text), their children aside.
pub open spec fn same_data(n: HtmlNode, t: HtmlNode) -> bool {
    match (n, t) {
        (HtmlNode::Document { .. }, HtmlNode::Document { .. }) => true,
        (
            HtmlNode::Element { name: a, attrs: x, .. },
            HtmlNode::Element { name: b, attrs: y, .. },
        ) => a@ == b@ && attrs_view(x@) == attrs_view(y@),
        (HtmlNode::Text { contents: a }, HtmlNode::Text { contents: b }) => a@ == b@,
        (HtmlNode::Comment, HtmlNode::Comment) => true,
        (HtmlNode::Doctype, HtmlNode::Doctype) => true,
        (HtmlNode::ProcessingInstruction, HtmlNode::ProcessingInstruction) => true,
        _ => false,
    }
}

/// Whether `n` is the tree `t` down to `k` levels below its root: the same
/// data at every node, the same children in order above level `k`, and no
/// children at level `k`.
pub open spec fn cut_to(n: HtmlNode, t: HtmlNode, k: nat) -> bool
    decreases k,
{
    &&& same_data(n, t)
    &&& if k == 0 {
        children_of(n).len() == 0
    } else {
        &&& children_of(n).len() == children_of(t).len()
        &&& forall|i: int|
            0 <= i < children_of(n).len() ==> cut_to(
                #[trigger] children_of(n)[i],
                children_of(t)[i],
                (k - 1) as nat,
            )
    }
}

/// Whether `a` and `b` are the same tree: the same data at every node and
/// the same children in order.
pub open spec fn node_eq(a: HtmlNode, b: HtmlNode) -> bool
    decreases a,
{
    &&& same_data(a, b)
    &&& match a {
        HtmlNode::Document { children } => nodes_eq(children@, children_of(b)),
        HtmlNode::Element { children, .. } => nodes_eq(children@, children_of(b)),
        _ => true,
    }
}

/// Whether `s` and `t` are the same trees, pairwise.
pub open spec fn nodes_eq(s: Seq<HtmlNode>, t: Seq<HtmlNode>) -> bool
    decreases s,
{
    &&& s.len() == t.len()
    &&& s.len() > 0 ==> node_eq(s[0], t[0]) && nodes_eq(s.drop_first(), t.drop_first())
}

proof fn lemma_nodes_eq_pointwise(s: Seq<HtmlNode>, t: Seq<HtmlNode>)
    requires
        s.len() == t.len(),
        forall|i: int| 0 <= i < s.len() ==> node_eq(#[trigger] s[i], t[i]),
    ensures
        nodes_eq(s, t),
    decreases s.len(),
{
    if s.len() > 0 {
        assert(node_eq(s[0], t[0]));
        assert forall|i: int| 0 <= i < s.drop_first().len() implies node_eq(
            #[trigger] s.drop_first()[i],
            t.drop_first()[i],
        ) by {
            assert(node_eq(s[i + 1], t[i + 1]));
        }
        lemma_nodes_eq_pointwise(s.drop_first(), t.drop_first());
    }
}

/// Two cuts of one tree to the same depth are the same tree.
pub proof fn lemma_cut_unique(a: HtmlNode, b: HtmlNode, t: HtmlNode, k: nat)
    requires
        cut_to(a, t, k),
        cut_to(b, t, k),
    ensures
        node_eq(a, b),
    decreases k,
{
    if k > 0 {
        let ca = children_of(a);
        let cb = children_of(b);
        let ct = children_of(t);
        assert forall|i: int| 0 <= i < ca.len() implies node_eq(#[trigger] ca[i], cb[i]) by {
            assert(cut_to(ca[i], ct[i], (k - 1) as nat));
            assert(cut_to(cb[i], ct[i], (k - 1) as nat));
            lemma_cut_unique(ca[i], cb[i], ct[i], (k - 1) as nat);
        }
        lemma_nodes_eq_pointwise(ca, cb);
    } else {
        assert(children_of(a).len() == 0 && children_of(b).len() == 0);
    }
}

/// A cut of a tree is no taller than the tree.
pub proof fn lemma_cut_height(n: HtmlNode, t: HtmlNode, k: nat)
    requires
        cut_to(n, t, k),
    ensures
        height(n) <= height(t),
    decreases k,
{
    let cn = children_of(n);
    let ct = children_of(t);
    if k > 0 && cn.len() > 0 {
        assert forall|i: int| 0 <= i < cn.len() implies height(#[trigger] cn[i]) <= max_height(ct) by {
            assert(cut_to(cn[i], ct[i], (k - 1) as nat));
            lemma_cut_height(cn[i], ct[i], (k - 1) as nat);
            lemma_max_height(ct, i);
        }
        lemma_max_height_bound(cn, max_height(ct));
    }
}

/// The height of a node: 0 for a node without children, otherwise one more
/// than its tallest child.
pub open spec fn height(n: HtmlNode) -> nat
    decreases n,
{
    match n {
        HtmlNode::Document { children } => if children@.len() == 0 {
            0
        } else {
            1 + max_height(children@)
        },
        HtmlNode::Element { children, .. } => if children@.len() == 0 {
            0
        } else {
            1 + max_height(children@)
        },
        _ => 0,
    }
}

/// The greatest height in a sequence of nodes (0 when empty).
pub open spec fn max_height(s: Seq<HtmlNode>) -> nat
    decreases s,
{
    if s.len() == 0 {
        0
    } else {
        let a = height(s[0]);
        let b = max_height(s.drop_first());
        if a > b {
            a
        } else {
            b
        }
    }
}

pub proof fn lemma_max_height(s: Seq<HtmlNode>, i: int)
    requires
        0 <= i < s.len(),
    ensures
        height(s[i]) <= max_height(s),
    decreases s.len(),
{
    if i > 0 {
        lemma_max_height(s.drop_first(), i - 1);
    }
}

pub proof fn lemma_max_height_bound(s: Seq<HtmlNode>, b: nat)
    requires
        forall|i: int| 0 <= i < s.len() ==> height(#[trigger] s[i]) <= b,
    ensures
        max_height(s) <= b,
    decreases s.len(),
{
    if s.len() > 0 {
        assert(height(s[0]) <= b);
        assert forall|i: int| 0 <= i < s.drop_first().len() implies height(
            #[trigger] s.drop_first()[i],
        ) <= b by {
            assert(s.drop_first()[i] == s[i + 1]);
        }
        lemma_max_height_bound(s.drop_first(), b);
    }
}

} // verus!
