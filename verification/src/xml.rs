//! The library's own form of a parsed XML tree: an element with a tag,
//! attributes and children in source order, or a text node. All extraction
//! logic works on this tree.

use vstd::prelude::*;

verus! {

/// One attribute: local name and value.
pub struct Attr {
    pub name: String,
    pub value: String,
}

/// One node of the tree. An element keeps its local tag name, its
/// attributes in source order and its element and text children in source
/// order.
pub enum XmlNode {
    Element { tag: String, attrs: Vec<Attr>, children: Vec<XmlNode> },
    Text { body: String },
}

/// Whether `n` is an element with the given tag.
pub open spec fn is_tagged(n: XmlNode, tag: Seq<char>) -> bool {
    n is Element && n->tag@ == tag
}

/// The children of an element; a text node has none.
pub open spec fn children_of(n: XmlNode) -> Seq<XmlNode> {
    if n is Element {
        n->children@
    } else {
        Seq::empty()
    }
}

/// The text content of a node: a text node's own body, or an element's
/// first child when that child is a text node.
pub open spec fn text_of(n: XmlNode) -> Option<Seq<char>> {
    match n {
        XmlNode::Text { body } => Some(body@),
        XmlNode::Element { children, .. } => {
            if children@.len() > 0 && children@[0] is Text {
                Some(children@[0]->body@)
            } else {
                None
            }
        },
    }
}

/// The value of the first attribute with the given name.
pub open spec fn attr_lookup(attrs: Seq<Attr>, name: Seq<char>) -> Option<Seq<char>>
    decreases attrs.len(),
{
    if attrs.len() == 0 {
        None
    } else if attrs[0].name@ == name {
        Some(attrs[0].value@)
    } else {
        attr_lookup(attrs.drop_first(), name)
    }
}

/// The value of the named attribute of `n`; a text node has none.
pub open spec fn attr_of(n: XmlNode, name: Seq<char>) -> Option<Seq<char>> {
    if n is Element {
        attr_lookup(n->attrs@, name)
    } else {
        None
    }
}

/// The subsequence of `cs` made of the elements with the given tag, in
/// order.
pub open spec fn with_tag(cs: Seq<XmlNode>, tag: Seq<char>) -> Seq<XmlNode>
    decreases cs.len(),
{
    if cs.len() == 0 {
        Seq::empty()
    } else if is_tagged(cs.last(), tag) {
        with_tag(cs.drop_last(), tag).push(cs.last())
    } else {
        with_tag(cs.drop_last(), tag)
    }
}

/// The position of the first element of `cs` with the given tag, or
/// `cs.len()` where there is none.
pub open spec fn first_tagged(cs: Seq<XmlNode>, tag: Seq<char>) -> int
    decreases cs.len(),
{
    if cs.len() == 0 {
        0
    } else if is_tagged(cs[0], tag) {
        0
    } else {
        1 + first_tagged(cs.drop_first(), tag)
    }
}

/// `first_tagged` is exactly the position of the first match.
pub proof fn lemma_first_tagged(cs: Seq<XmlNode>, tag: Seq<char>, i: int)
    requires
        0 <= i < cs.len(),
        is_tagged(cs[i], tag),
        forall|j: int| 0 <= j < i ==> !is_tagged(cs[j], tag),
    ensures
        first_tagged(cs, tag) == i,
    decreases cs.len(),
{
    if i > 0 {
        lemma_first_tagged(cs.drop_first(), tag, i - 1);
    }
}

/// Where no element matches, `first_tagged` is the length.
pub proof fn lemma_first_tagged_none(cs: Seq<XmlNode>, tag: Seq<char>)
    requires
        forall|j: int| 0 <= j < cs.len() ==> !is_tagged(cs[j], tag),
    ensures
        first_tagged(cs, tag) == cs.len(),
    decreases cs.len(),
{
    if cs.len() > 0 {
        lemma_first_tagged_none(cs.drop_first(), tag);
    }
}

/// Relies on `str`'s `PartialEq`: two string slices are equal exactly when
/// their character sequences are equal.
#[verifier::external_body]
pub fn str_eq(a: &str, b: &str) -> (r: bool)
    ensures
        r == (a@ == b@),
{
    a == b
}

/// Whether `n` is an element whose tag is `tag`.
pub fn has_tag(n: &XmlNode, tag: &str) -> (r: bool)
    ensures
        r == is_tagged(*n, tag@),
{
    match n {
        XmlNode::Element { tag: t, .. } => str_eq(t.as_str(), tag),
        XmlNode::Text { .. } => false,
    }
}

/// The value of the named attribute of `n`, as `attr_of` gives it.
pub fn node_attribute(n: &XmlNode, name: &str) -> (r: Option<String>)
    ensures
        r is Some ==> attr_of(*n, name@) == Some(r.unwrap()@),
        r is None ==> attr_of(*n, name@) is None,
{
    match n {
        XmlNode::Text { .. } => None,
        XmlNode::Element { attrs, .. } => {
            assert(attr_of(*n, name@) == attr_lookup(attrs@, name@));
            let end = attrs.len();
            let mut i: usize = 0;
            proof {
                assert(attrs@.skip(0) =~= attrs@);
            }
            while i < end
                invariant
                    i <= end,
                    end == attrs@.len(),
                    attr_of(*n, name@) == attr_lookup(attrs@, name@),
                    attr_lookup(attrs@, name@) == attr_lookup(attrs@.skip(i as int), name@),
                decreases end - i,
            {
                proof {
                    assert(attrs@.skip(i as int).drop_first() =~= attrs@.skip(i + 1));
                    assert(attrs@.skip(i as int)[0] == attrs@[i as int]);
                }
                if str_eq(attrs[i].name.as_str(), name) {
                    assert(attr_lookup(attrs@.skip(i as int), name@) == Some(attrs@[i as int].value@));
                    let v = attrs[i].value.clone();
                    assert(v@ == attrs@[i as int].value@);
                    assert(attr_of(*n, name@) == Some(v@));
                    return Some(v);
                }
                i += 1;
            }
            proof {
                assert(attrs@.skip(end as int) =~= Seq::<Attr>::empty());
            }
            None
        },
    }
}

/// The text content of `n`, as `text_of` gives it.
pub fn node_text(n: &XmlNode) -> (r: Option<String>)
    ensures
        match r {
            Some(s) => text_of(*n) == Some(s@),
            None => text_of(*n) is None,
        },
{
    match n {
        XmlNode::Text { body } => Some(body.clone()),
        XmlNode::Element { children, .. } => {
            if children.len() > 0 {
                match &children[0] {
                    XmlNode::Text { body } => Some(body.clone()),
                    XmlNode::Element { .. } => None,
                }
            } else {
                None
            }
        },
    }
}

} // verus!
