//! The element tree: one node per XML element, with its attributes, its
//! children in document order and its leaf text.

use crate::text::str_equal;
use vstd::prelude::*;

verus! {

/// One XML element.
#[derive(Debug, PartialEq, Eq)]
pub struct XmlNode {
    /// The element's name, case-sensitive.
    pub tag: String,
    /// The attributes as (name, value), in document order.
    pub attributes: Vec<(String, String)>,
    /// The child elements, in document order.
    pub children: Vec<XmlNode>,
    /// The text found directly inside the element, if any.
    pub text: Option<String>,
}

/// The mathematical value of an [`XmlNode`].
pub struct Node {
    pub tag: Seq<char>,
    pub attributes: Seq<(Seq<char>, Seq<char>)>,
    pub children: Seq<Node>,
    pub text: Option<Seq<char>>,
}

/// The value of a list of attributes.
pub open spec fn attributes_view(attributes: Seq<(String, String)>) -> Seq<(Seq<char>, Seq<char>)> {
    attributes.map_values(|a: (String, String)| (a.0@, a.1@))
}

/// The value of an optional string.
pub open spec fn text_view(text: Option<String>) -> Option<Seq<char>> {
    match text {
        Some(t) => Some(t@),
        None => None,
    }
}

/// The values of a list of nodes.
pub open spec fn nodes_view(nodes: Seq<XmlNode>) -> Seq<Node> {
    nodes.map_values(|n: XmlNode| n@)
}

/// The values of a list of strings.
pub open spec fn strings_view(strings: Seq<String>) -> Seq<Seq<char>> {
    strings.map_values(|s: String| s@)
}

impl View for XmlNode {
    type V = Node;

    open spec fn view(&self) -> Node
        decreases self, self.children@.len() + 1,
    {
        Node {
            tag: self.tag@,
            attributes: attributes_view(self.attributes@),
            children: children_view(*self, self.children@.len()),
            text: text_view(self.text),
        }
    }
}

/// The values of the first `n` children of `node`.
pub open spec fn children_view(node: XmlNode, n: nat) -> Seq<Node>
    decreases node, n,
    when n <= node.children@.len()
{
    if n == 0 {
        Seq::empty()
    } else {
        children_view(node, (n - 1) as nat).push(node.children@[n - 1].view())
    }
}

proof fn lemma_children_prefix(node: XmlNode, n: nat)
    requires
        n <= node.children@.len(),
    ensures
        children_view(node, n) == nodes_view(node.children@.take(n as int)),
    decreases n,
{
    if n == 0 {
        assert(children_view(node, n) =~= nodes_view(node.children@.take(n as int)));
    } else {
        lemma_children_prefix(node, (n - 1) as nat);
        let before = node.children@.take(n - 1);
        let upto = node.children@.take(n as int);
        assert(children_view(node, n) == children_view(node, (n - 1) as nat).push(
            node.children@[n - 1]@,
        ));
        assert forall|i: int| 0 <= i < n implies #[trigger] nodes_view(upto)[i] == nodes_view(
            before,
        ).push(node.children@[n - 1]@)[i] by {
            if i < n - 1 {
                assert(upto[i] == before[i]);
            }
        }
        assert(nodes_view(before).push(node.children@[n - 1]@) =~= nodes_view(upto));
    }
}

/// The children of a node's value are the values of its children.
pub broadcast proof fn lemma_children_view(node: XmlNode)
    ensures
        (#[trigger] node@).children == nodes_view(node.children@),
{
    lemma_children_prefix(node, node.children@.len());
    assert(node.children@.take(node.children@.len() as int) =~= node.children@);
}

/// The shape of a node, which is read off its content and stored nowhere:
/// the same tag can be a list in one record and a leaf in another.
#[derive(Debug, Clone, Copy, PartialEq, Eq)]
pub enum Shape {
    /// Neither children nor text.
    Empty,
    /// Text and no children.
    Leaf,
    /// Children, at least one of them a list item.
    List,
    /// Children, none of them a list item.
    Composite,
}

impl Node {
    /// The shape of the node.
    pub open spec fn shape(self) -> Shape {
        if self.is_list() {
            Shape::List
        } else if self.children.len() > 0 {
            Shape::Composite
        } else if self.text is Some {
            Shape::Leaf
        } else {
            Shape::Empty
        }
    }

    /// A list item: an element named `li`.
    pub open spec fn is_li(self) -> bool {
        self.tag == "li"@
    }

    /// The node holds at least one list item, which makes it a list field.
    pub open spec fn is_list(self) -> bool {
        exists|i: int| 0 <= i < self.children.len() && (#[trigger] self.children[i]).is_li()
    }

    /// The text of the node, the empty string where it has none.
    pub open spec fn text_or_empty(self) -> Seq<char> {
        match self.text {
            Some(t) => t,
            None => Seq::empty(),
        }
    }

    /// Two list items are duplicates of one another when they hold the same
    /// text and the same attributes.
    pub open spec fn same_item(self, other: Node) -> bool {
        self.text_or_empty() == other.text_or_empty() && self.attributes == other.attributes
    }

}

/// A copy of a list of attributes.
pub fn clone_attributes(attributes: &Vec<(String, String)>) -> (copy: Vec<(String, String)>)
    ensures
        attributes_view(copy@) == attributes_view(attributes@),
{
    let mut copy: Vec<(String, String)> = Vec::new();
    let mut i: usize = 0;
    while i < attributes.len()
        invariant
            i <= attributes.len(),
            copy@.len() == i,
            forall|j: int| 0 <= j < i ==> copy@[j].0@ == attributes@[j].0@ && copy@[j].1@ == attributes@[j].1@,
        decreases attributes.len() - i,
    {
        copy.push((attributes[i].0.clone(), attributes[i].1.clone()));
        i += 1;
    }
    assert(attributes_view(copy@) =~= attributes_view(attributes@));
    copy
}

/// A copy of an optional string.
pub fn clone_text(text: &Option<String>) -> (copy: Option<String>)
    ensures
        text_view(copy) == text_view(*text),
{
    match text {
        Some(t) => Some(t.clone()),
        None => None,
    }
}

/// A copy of a node with all that is below it.
pub fn clone_node(node: &XmlNode) -> (copy: XmlNode)
    ensures
        copy@ == node@,
    decreases node,
{
    let mut children: Vec<XmlNode> = Vec::new();
    let mut i: usize = 0;
    while i < node.children.len()
        invariant
            i <= node.children.len(),
            children@.len() == i,
            forall|j: int| 0 <= j < i ==> children@[j]@ == node.children@[j]@,
        decreases node.children.len() - i,
    {
        let child = clone_node(&node.children[i]);
        children.push(child);
        i += 1;
    }
    let copy = XmlNode {
        tag: node.tag.clone(),
        attributes: clone_attributes(&node.attributes),
        children,
        text: clone_text(&node.text),
    };
    proof {
        lemma_children_view(copy);
        lemma_children_view(*node);
        assert(nodes_view(copy.children@) =~= nodes_view(node.children@));
    }
    copy
}

impl Clone for XmlNode {
    /// A copy of the node with all that is below it.
    fn clone(&self) -> (copy: XmlNode)
        ensures
            copy@ == self@,
    {
        clone_node(self)
    }
}

/// A copy of a list of nodes.
pub fn clone_nodes(nodes: &Vec<XmlNode>) -> (copy: Vec<XmlNode>)
    ensures
        nodes_view(copy@) == nodes_view(nodes@),
{
    let mut copy: Vec<XmlNode> = Vec::new();
    let mut i: usize = 0;
    while i < nodes.len()
        invariant
            i <= nodes.len(),
            copy@.len() == i,
            forall|j: int| 0 <= j < i ==> copy@[j]@ == nodes@[j]@,
        decreases nodes.len() - i,
    {
        copy.push(clone_node(&nodes[i]));
        i += 1;
    }
    assert(nodes_view(copy@) =~= nodes_view(nodes@));
    copy
}

/// Whether `value` is among `values`.
pub fn holds_string(values: &Vec<String>, value: &str) -> (found: bool)
    ensures
        found == strings_view(values@).contains(value@),
{
    let mut i: usize = 0;
    while i < values.len()
        invariant
            i <= values.len(),
            forall|j: int| 0 <= j < i ==> strings_view(values@)[j] != value@,
        decreases values.len() - i,
    {
        if str_equal(values[i].as_str(), value) {
            assert(strings_view(values@)[i as int] == value@);
            return true;
        }
        i += 1;
    }
    false
}

} // verus!
