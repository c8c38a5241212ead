//! Folding the nodes of a record and its ancestors into one tree, which
//! holds one node for each tag in the order in which the tags were first
//! met: list fields grow, every other field is replaced.

use crate::node::{clone_node, lemma_children_view, nodes_view, Node, Shape, XmlNode};
use crate::text::str_equal;
use vstd::prelude::*;

verus! {

/// Some node of `nodes` has the tag.
pub open spec fn has_tag(nodes: Seq<Node>, tag: Seq<char>) -> bool {
    exists|i: int| 0 <= i < nodes.len() && (#[trigger] nodes[i]).tag == tag
}

/// `i` is the place of the first node of `nodes` with the tag.
pub open spec fn is_first_with_tag(nodes: Seq<Node>, tag: Seq<char>, i: int) -> bool {
    &&& 0 <= i < nodes.len()
    &&& nodes[i].tag == tag
    &&& forall|j: int| 0 <= j < i ==> (#[trigger] nodes[j]).tag != tag
}

/// The place of the first node of `nodes` with the tag.
pub open spec fn first_with_tag(nodes: Seq<Node>, tag: Seq<char>) -> int {
    choose|i: int| is_first_with_tag(nodes, tag, i)
}

/// `node` in the place of the node with its tag, or behind all where there
/// is none.
pub open spec fn put_node(nodes: Seq<Node>, node: Node) -> Seq<Node> {
    if has_tag(nodes, node.tag) {
        nodes.update(first_with_tag(nodes, node.tag), node)
    } else {
        nodes.push(node)
    }
}

/// The nodes keyed by tag: of two with the same tag the later one stays, in
/// the place of the earlier one.
pub open spec fn by_tag(nodes: Seq<Node>) -> Seq<Node>
    decreases nodes.len(),
{
    if nodes.len() == 0 {
        Seq::empty()
    } else {
        put_node(by_tag(nodes.drop_last()), nodes.last())
    }
}

/// Some list item among `nodes` is a duplicate of `item`.
pub open spec fn has_item(nodes: Seq<Node>, item: Node) -> bool {
    exists|i: int|
        0 <= i < nodes.len() && (#[trigger] nodes[i]).is_li() && nodes[i].same_item(item)
}

/// A list item joins the children of `existing` unless a duplicate of it is
/// among them.
pub open spec fn add_item(existing: Node, item: Node) -> Node {
    if has_item(existing.children, item) {
        existing
    } else {
        Node { children: existing.children.push(item), ..existing }
    }
}

/// The list items among `nodes`, in their order.
pub open spec fn items_of(nodes: Seq<Node>) -> Seq<Node> {
    nodes.filter(|c: Node| c.is_li())
}

/// The nodes among `nodes` that are no list items, in their order.
pub open spec fn fields_of(nodes: Seq<Node>) -> Seq<Node> {
    nodes.filter(|c: Node| !c.is_li())
}

/// A child of a list field that is no list item is merged into the other
/// such children of `existing`, keyed by tag; the list items stay as they
/// are and come first.
pub open spec fn merge_field(existing: Node, field: Node) -> Node
    decreases field, field.children.len() + 2,
{
    Node {
        children: items_of(existing.children) + merge_node_spec(
            by_tag(fields_of(existing.children)),
            field,
        ),
        ..existing
    }
}

/// The children of `node` from the `k`-th on are merged into `existing`,
/// one after the other.
pub open spec fn merge_list(existing: Node, node: Node, k: nat) -> Node
    decreases node, node.children.len() - k,
{
    if k >= node.children.len() {
        existing
    } else {
        let child = node.children[k as int];
        let next = if child.is_li() {
            add_item(existing, child)
        } else {
            merge_field(existing, child)
        };
        merge_list(next, node, k + 1)
    }
}

/// One node is merged into the tree. A node with a new tag comes last.
/// Where the tag is there and the node is a list, its children are merged
/// into those of the node that is there. A node of any other shape replaces
/// the one that is there.
pub open spec fn merge_node_spec(merged: Seq<Node>, node: Node) -> Seq<Node>
    decreases node, node.children.len() + 1,
{
    if !has_tag(merged, node.tag) {
        merged.push(node)
    } else {
        let i = first_with_tag(merged, node.tag);
        match node.shape() {
            Shape::List => merged.update(i, merge_list(merged[i], node, 0)),
            _ => merged.update(i, node),
        }
    }
}

/// The nodes of one record are merged into the tree, in their order.
pub open spec fn merge_nodes_spec(merged: Seq<Node>, nodes: Seq<Node>) -> Seq<Node>
    decreases nodes.len(),
{
    if nodes.len() == 0 {
        merged
    } else {
        merge_node_spec(merge_nodes_spec(merged, nodes.drop_last()), nodes.last())
    }
}

/// No two nodes have the same tag.
pub open spec fn distinct_tags(nodes: Seq<Node>) -> bool {
    forall|i: int, j: int|
        0 <= i < j < nodes.len() ==> (#[trigger] nodes[i]).tag != (#[trigger] nodes[j]).tag
}

/// The first node with a tag is known by what it is: it has the tag, and no
/// node before it has.
pub proof fn lemma_first_with_tag(nodes: Seq<Node>, tag: Seq<char>, i: int)
    requires
        is_first_with_tag(nodes, tag, i),
    ensures
        has_tag(nodes, tag),
        first_with_tag(nodes, tag) == i,
{
    let c = first_with_tag(nodes, tag);
    assert(is_first_with_tag(nodes, tag, c));
    if c < i {
        assert(nodes[c].tag != tag);
    } else if i < c {
        assert(nodes[i].tag != tag);
    }
}

/// The place of the first node with the tag, if there is one.
fn find_tag(nodes: &Vec<XmlNode>, tag: &str) -> (found: Option<usize>)
    ensures
        match found {
            Some(i) => is_first_with_tag(nodes_view(nodes@), tag@, i as int),
            None => !has_tag(nodes_view(nodes@), tag@),
        },
{
    let mut i: usize = 0;
    while i < nodes.len()
        invariant
            i <= nodes.len(),
            forall|j: int| 0 <= j < i ==> (#[trigger] nodes_view(nodes@)[j]).tag != tag@,
        decreases nodes.len() - i,
    {
        if str_equal(nodes[i].tag.as_str(), tag) {
            return Some(i);
        }
        i += 1;
    }
    None
}

/// Puts a copy of `node` in the place of the node with its tag, or behind
/// all where there is none.
fn put(nodes: &mut Vec<XmlNode>, node: &XmlNode)
    ensures
        nodes_view(final(nodes)@) == put_node(nodes_view(old(nodes)@), node@),
{
    let ghost before = nodes_view(nodes@);
    match find_tag(nodes, node.tag.as_str()) {
        Some(i) => {
            proof {
                lemma_first_with_tag(before, node@.tag, i as int);
            }
            nodes.remove(i);
            nodes.insert(i, clone_node(node));
            assert(nodes_view(nodes@) =~= before.update(i as int, node@));
        },
        None => {
            nodes.push(clone_node(node));
            assert(nodes_view(nodes@) =~= before.push(node@));
        },
    }
}

/// Whether the node is a list item.
pub fn is_li(node: &XmlNode) -> (li: bool)
    ensures
        li == node@.is_li(),
{
    str_equal(node.tag.as_str(), "li")
}

/// Whether the node holds a list item.
pub fn has_li_children(node: &XmlNode) -> (list: bool)
    ensures
        list == node@.is_list(),
{
    broadcast use lemma_children_view;

    let mut i: usize = 0;
    while i < node.children.len()
        invariant
            i <= node.children.len(),
            node@.children == nodes_view(node.children@),
            forall|j: int| 0 <= j < i ==> !(#[trigger] node@.children[j]).is_li(),
        decreases node.children.len() - i,
    {
        if is_li(&node.children[i]) {
            assert(node@.children[i as int].is_li());
            return true;
        }
        i += 1;
    }
    false
}

/// The shape of a node.
pub fn shape(node: &XmlNode) -> (shape: Shape)
    ensures
        shape == node@.shape(),
{
    proof {
        lemma_children_view(*node);
    }
    if has_li_children(node) {
        Shape::List
    } else if node.children.len() > 0 {
        Shape::Composite
    } else if node.text.is_some() {
        Shape::Leaf
    } else {
        Shape::Empty
    }
}

/// Whether two lists of attributes hold the same names and values in the
/// same order.
fn same_attributes(a: &Vec<(String, String)>, b: &Vec<(String, String)>) -> (same: bool)
    ensures
        same == (crate::node::attributes_view(a@) == crate::node::attributes_view(b@)),
{
    let ghost va = crate::node::attributes_view(a@);
    let ghost vb = crate::node::attributes_view(b@);
    if a.len() != b.len() {
        assert(va.len() != vb.len());
        return false;
    }
    let mut i: usize = 0;
    while i < a.len()
        invariant
            i <= a.len(),
            a.len() == b.len(),
            va == crate::node::attributes_view(a@),
            vb == crate::node::attributes_view(b@),
            forall|j: int| 0 <= j < i ==> va[j] == vb[j],
        decreases a.len() - i,
    {
        if !str_equal(a[i].0.as_str(), b[i].0.as_str()) || !str_equal(
            a[i].1.as_str(),
            b[i].1.as_str(),
        ) {
            assert(va[i as int] != vb[i as int]);
            return false;
        }
        i += 1;
    }
    assert(va =~= vb);
    true
}

/// Whether two list items are duplicates of one another.
pub fn same_item(a: &XmlNode, b: &XmlNode) -> (same: bool)
    ensures
        same == a@.same_item(b@),
{
    proof {
        reveal_strlit("");
    }
    let x = match &a.text {
        Some(t) => t.as_str(),
        None => "",
    };
    let y = match &b.text {
        Some(t) => t.as_str(),
        None => "",
    };
    assert(x@ =~= a@.text_or_empty());
    assert(y@ =~= b@.text_or_empty());
    str_equal(x, y) && same_attributes(&a.attributes, &b.attributes)
}

/// Whether a duplicate of `item` is among the list items of `nodes`.
fn contains_item(nodes: &Vec<XmlNode>, item: &XmlNode) -> (found: bool)
    ensures
        found == has_item(nodes_view(nodes@), item@),
{
    let mut i: usize = 0;
    while i < nodes.len()
        invariant
            i <= nodes.len(),
            forall|j: int|
                0 <= j < i ==> !((#[trigger] nodes_view(nodes@)[j]).is_li() && nodes_view(
                    nodes@,
                )[j].same_item(item@)),
        decreases nodes.len() - i,
    {
        if is_li(&nodes[i]) && same_item(&nodes[i], item) {
            assert(nodes_view(nodes@)[i as int].is_li() && nodes_view(nodes@)[i as int].same_item(
                item@,
            ));
            return true;
        }
        i += 1;
    }
    false
}

/// Parts `nodes` into its list items and, keyed by tag, the rest.
fn split_children(nodes: Vec<XmlNode>) -> (parts: (Vec<XmlNode>, Vec<XmlNode>))
    ensures
        nodes_view(parts.0@) == items_of(nodes_view(nodes@)),
        nodes_view(parts.1@) == by_tag(fields_of(nodes_view(nodes@))),
{
    let ghost all = nodes_view(nodes@);
    let mut items: Vec<XmlNode> = Vec::new();
    let mut fields: Vec<XmlNode> = Vec::new();
    let mut i: usize = 0;
    proof {
        reveal(Seq::filter);
        assert(all.take(0) =~= Seq::empty());
        assert(nodes_view(items@) =~= Seq::empty());
        assert(nodes_view(fields@) =~= Seq::empty());
    }
    while i < nodes.len()
        invariant
            i <= nodes.len(),
            all == nodes_view(nodes@),
            nodes_view(items@) == items_of(all.take(i as int)),
            nodes_view(fields@) == by_tag(fields_of(all.take(i as int))),
        decreases nodes.len() - i,
    {
        proof {
            reveal(Seq::filter);
            assert(all.take(i + 1).drop_last() =~= all.take(i as int));
            assert(all.take(i + 1).last() == nodes@[i as int]@);
        }
        if is_li(&nodes[i]) {
            let ghost before = items@;
            items.push(clone_node(&nodes[i]));
            assert(nodes_view(items@) =~= nodes_view(before).push(nodes@[i as int]@));
        } else {
            let ghost kept = fields_of(all.take(i + 1));
            assert(kept.drop_last() =~= fields_of(all.take(i as int)));
            put(&mut fields, &nodes[i]);
        }
        i += 1;
    }
    assert(all.take(nodes.len() as int) =~= all);
    (items, fields)
}

/// Merges the children of `node` into `existing`, which has the same tag.
fn merge_children(existing: XmlNode, node: &XmlNode) -> (merged: XmlNode)
    ensures
        merged@ == merge_list(existing@, node@, 0),
    decreases node, 0nat,
{
    broadcast use lemma_children_view;

    let mut current = existing;
    let mut k: usize = 0;
    while k < node.children.len()
        invariant
            k <= node.children.len(),
            node@.children == nodes_view(node.children@),
            merge_list(current@, node@, k as nat) == merge_list(existing@, node@, 0),
        decreases node.children.len() - k,
    {
        let child = &node.children[k];
        assert(node@.children[k as int] == child@);
        let ghost was = current;
        proof {
            lemma_children_view(was);
        }
        if is_li(child) {
            if !contains_item(&current.children, child) {
                current.children.push(clone_node(child));
                proof {
                    lemma_children_view(current);
                    assert(nodes_view(current.children@) =~= nodes_view(was.children@).push(
                        child@,
                    ));
                }
            }
            assert(current@ == add_item(was@, child@));
        } else {
            let XmlNode { tag, attributes, children, text } = current;
            let (mut items, mut fields) = split_children(children);
            merge_node(&mut fields, child);
            let ghost front = items@;
            let ghost back = fields@;
            items.append(&mut fields);
            assert(items@ == front + back);
            assert(nodes_view(items@) =~= nodes_view(front) + nodes_view(back));
            current = XmlNode { tag, attributes, children: items, text };
            proof {
                lemma_children_view(current);
            }
            assert(current@ == merge_field(was@, child@));
        }
        k += 1;
    }
    current
}

/// Merges one node into the tree: list fields grow, every other field is
/// replaced, a node with a new tag comes last.
pub fn merge_node(merged: &mut Vec<XmlNode>, node: &XmlNode)
    ensures
        nodes_view(final(merged)@) == merge_node_spec(nodes_view(old(merged)@), node@),
    decreases node, 1nat,
{
    let ghost before = nodes_view(merged@);
    match find_tag(merged, node.tag.as_str()) {
        Some(i) => {
            proof {
                lemma_first_with_tag(before, node@.tag, i as int);
            }
            let existing = merged.remove(i);
            match shape(node) {
                Shape::List => {
                    let grown = merge_children(existing, node);
                    merged.insert(i, grown);
                    assert(nodes_view(merged@) =~= before.update(
                        i as int,
                        merge_list(before[i as int], node@, 0),
                    ));
                },
                _ => {
                    merged.insert(i, clone_node(node));
                    assert(nodes_view(merged@) =~= before.update(i as int, node@));
                },
            }
        },
        None => {
            merged.push(clone_node(node));
            assert(nodes_view(merged@) =~= before.push(node@));
        },
    }
}

/// Merges the nodes of one record into the tree, in their order.
pub fn merge_nodes(merged: &mut Vec<XmlNode>, nodes: &Vec<XmlNode>)
    ensures
        nodes_view(final(merged)@) == merge_nodes_spec(nodes_view(old(merged)@), nodes_view(nodes@)),
{
    let ghost start = nodes_view(merged@);
    let ghost all = nodes_view(nodes@);
    let mut i: usize = 0;
    assert(all.take(0) =~= Seq::empty());
    while i < nodes.len()
        invariant
            i <= nodes.len(),
            all == nodes_view(nodes@),
            nodes_view(merged@) == merge_nodes_spec(start, all.take(i as int)),
        decreases nodes.len() - i,
    {
        assert(all.take(i + 1).drop_last() =~= all.take(i as int));
        assert(all.take(i + 1).last() == nodes@[i as int]@);
        merge_node(merged, &nodes[i]);
        i += 1;
    }
    assert(all.take(nodes.len() as int) =~= all);
}

/// Merging the children of a node into another leaves the other's tag,
/// attributes and text as they are.
pub proof fn lemma_merge_list_keeps(existing: Node, node: Node, k: nat)
    ensures
        merge_list(existing, node, k).tag == existing.tag,
        merge_list(existing, node, k).attributes == existing.attributes,
        merge_list(existing, node, k).text == existing.text,
    decreases node.children.len() - k,
{
    if k < node.children.len() {
        let child = node.children[k as int];
        let next = if child.is_li() {
            add_item(existing, child)
        } else {
            merge_field(existing, child)
        };
        lemma_merge_list_keeps(next, node, k + 1);
    }
}

/// A merge changes no tag that is in the tree and adds at most the tag of
/// the node, behind all others.
proof fn lemma_merge_node_tags(merged: Seq<Node>, node: Node)
    ensures
        has_tag(merged, node.tag) ==> {
            &&& merge_node_spec(merged, node).len() == merged.len()
            &&& forall|i: int|
                0 <= i < merged.len() ==> (#[trigger] merge_node_spec(merged, node)[i]).tag
                    == merged[i].tag
        },
        !has_tag(merged, node.tag) ==> merge_node_spec(merged, node) == merged.push(node),
{
    if has_tag(merged, node.tag) {
        let i = first_with_tag(merged, node.tag);
        lemma_merge_list_keeps(merged[i], node, 0);
        let k = choose|k: int| 0 <= k < merged.len() && (#[trigger] merged[k]).tag == node.tag;
        lemma_has_first(merged, node.tag, k);
    }
}

/// Where a tag is in the tree, there is a first node with it.
proof fn lemma_has_first(nodes: Seq<Node>, tag: Seq<char>, k: int)
    requires
        0 <= k < nodes.len(),
        nodes[k].tag == tag,
    ensures
        is_first_with_tag(nodes, tag, first_with_tag(nodes, tag)),
    decreases k,
{
    if forall|j: int| 0 <= j < k ==> (#[trigger] nodes[j]).tag != tag {
        assert(is_first_with_tag(nodes, tag, k));
    } else {
        let j = choose|j: int| 0 <= j < k && (#[trigger] nodes[j]).tag == tag;
        lemma_has_first(nodes, tag, j);
    }
}

/// A merge into a tree without repeated tags leaves it without repeated
/// tags.
pub proof fn lemma_merge_node_distinct(merged: Seq<Node>, node: Node)
    requires
        distinct_tags(merged),
    ensures
        distinct_tags(merge_node_spec(merged, node)),
{
    let after = merge_node_spec(merged, node);
    lemma_merge_node_tags(merged, node);
    if has_tag(merged, node.tag) {
        assert forall|i: int, j: int| 0 <= i < j < after.len() implies (#[trigger] after[i]).tag != (
        #[trigger] after[j]).tag by {
            assert(after[i].tag == merged[i].tag);
            assert(after[j].tag == merged[j].tag);
        }
    } else {
        assert forall|i: int, j: int| 0 <= i < j < after.len() implies (#[trigger] after[i]).tag != (
        #[trigger] after[j]).tag by {
            assert(after[i] == merged[i]);
            if j < merged.len() {
                assert(after[j] == merged[j]);
            }
        }
    }
}

/// Putting a node into nodes without repeated tags leaves them without
/// repeated tags.
pub proof fn lemma_put_node_distinct(nodes: Seq<Node>, node: Node)
    requires
        distinct_tags(nodes),
    ensures
        distinct_tags(put_node(nodes, node)),
{
    let after = put_node(nodes, node);
    if has_tag(nodes, node.tag) {
        let k = choose|k: int| 0 <= k < nodes.len() && (#[trigger] nodes[k]).tag == node.tag;
        lemma_has_first(nodes, node.tag, k);
        assert forall|i: int, j: int| 0 <= i < j < after.len() implies (#[trigger] after[i]).tag != (
        #[trigger] after[j]).tag by {
            assert(after[i].tag == nodes[i].tag);
            assert(after[j].tag == nodes[j].tag);
        }
    } else {
        assert forall|i: int, j: int| 0 <= i < j < after.len() implies (#[trigger] after[i]).tag != (
        #[trigger] after[j]).tag by {
            assert(after[i] == nodes[i]);
            if j < nodes.len() {
                assert(after[j] == nodes[j]);
            }
        }
    }
}

/// Nodes keyed by tag hold no tag twice.
pub proof fn lemma_by_tag_distinct(nodes: Seq<Node>)
    ensures
        distinct_tags(by_tag(nodes)),
    decreases nodes.len(),
{
    if nodes.len() > 0 {
        lemma_by_tag_distinct(nodes.drop_last());
        lemma_put_node_distinct(by_tag(nodes.drop_last()), nodes.last());
    }
}

/// Merging the nodes of a record into a tree without repeated tags leaves
/// it without repeated tags.
pub proof fn lemma_merge_nodes_distinct(merged: Seq<Node>, nodes: Seq<Node>)
    requires
        distinct_tags(merged),
    ensures
        distinct_tags(merge_nodes_spec(merged, nodes)),
    decreases nodes.len(),
{
    if nodes.len() > 0 {
        lemma_merge_nodes_distinct(merged, nodes.drop_last());
        lemma_merge_node_distinct(merge_nodes_spec(merged, nodes.drop_last()), nodes.last());
    }
}

/// Merging a record alone gives the record's own nodes unchanged and in
/// their order, where no two of them have the same tag.
pub proof fn lemma_merge_alone(nodes: Seq<Node>)
    requires
        distinct_tags(nodes),
    ensures
        merge_nodes_spec(Seq::empty(), nodes) == nodes,
    decreases nodes.len(),
{
    if nodes.len() == 0 {
        assert(nodes =~= Seq::empty());
    } else {
        let before = nodes.drop_last();
        let last = nodes.last();
        assert(distinct_tags(before)) by {
            assert forall|i: int, j: int| 0 <= i < j < before.len() implies (
            #[trigger] before[i]).tag != (#[trigger] before[j]).tag by {
                assert(before[i] == nodes[i] && before[j] == nodes[j]);
            }
        }
        lemma_merge_alone(before);
        assert(!has_tag(before, last.tag)) by {
            if has_tag(before, last.tag) {
                let k = choose|k: int|
                    0 <= k < before.len() && (#[trigger] before[k]).tag == last.tag;
                assert(before[k] == nodes[k]);
                assert(nodes[k].tag != nodes[nodes.len() - 1].tag);
            }
        }
        assert(before.push(last) =~= nodes);
    }
}

/// A node that is no list replaces the node with its tag: after the merge
/// the node itself stands in that place, and every other place is as it
/// was. In a tree without repeated tags nothing of the node that was
/// replaced is left.
pub proof fn lemma_scalar_override(merged: Seq<Node>, node: Node)
    requires
        has_tag(merged, node.tag),
        node.shape() != Shape::List,
    ensures
        merge_node_spec(merged, node) == merged.update(first_with_tag(merged, node.tag), node),
        0 <= first_with_tag(merged, node.tag) < merged.len(),
        merged[first_with_tag(merged, node.tag)].tag == node.tag,
        distinct_tags(merged) ==> forall|i: int|
            0 <= i < merged.len() && (#[trigger] merge_node_spec(merged, node)[i]).tag == node.tag
                ==> merge_node_spec(merged, node)[i] == node,
{
    let k = choose|k: int| 0 <= k < merged.len() && (#[trigger] merged[k]).tag == node.tag;
    lemma_has_first(merged, node.tag, k);
    let p = first_with_tag(merged, node.tag);
    let after = merge_node_spec(merged, node);
    if distinct_tags(merged) {
        assert forall|i: int| 0 <= i < merged.len() && (#[trigger] after[i]).tag
            == node.tag implies after[i] == node by {
            if i != p {
                assert(after[i] == merged[i]);
                if i < p {
                    assert(merged[i].tag != merged[p].tag);
                } else {
                    assert(merged[p].tag != merged[i].tag);
                }
            }
        }
    }
}

/// No two list items among `nodes` are duplicates of one another.
pub open spec fn distinct_items(nodes: Seq<Node>) -> bool {
    forall|i: int, j: int|
        0 <= i < j < nodes.len() && (#[trigger] nodes[i]).is_li() && (#[trigger] nodes[j]).is_li()
            ==> !nodes[i].same_item(nodes[j])
}

/// No node of `nodes` is a list item.
pub open spec fn no_items(nodes: Seq<Node>) -> bool {
    forall|i: int| 0 <= i < nodes.len() ==> !(#[trigger] nodes[i]).is_li()
}

/// What the list items of `nodes` are: list items of `nodes`, all of them,
/// and without duplicates where `nodes` has none.
proof fn lemma_items_of(nodes: Seq<Node>)
    ensures
        forall|i: int|
            0 <= i < items_of(nodes).len() ==> (#[trigger] items_of(nodes)[i]).is_li()
                && nodes.contains(items_of(nodes)[i]),
        forall|i: int|
            0 <= i < nodes.len() && (#[trigger] nodes[i]).is_li() ==> items_of(nodes).contains(
                nodes[i],
            ),
        distinct_items(nodes) ==> distinct_items(items_of(nodes)),
        no_items(nodes) ==> items_of(nodes) == Seq::<Node>::empty(),
        (forall|i: int| 0 <= i < nodes.len() ==> (#[trigger] nodes[i]).is_li()) ==> items_of(nodes)
            == nodes,
    decreases nodes.len(),
{
    reveal(Seq::filter);
    if nodes.len() > 0 {
        let before = nodes.drop_last();
        let last = nodes.last();
        let kept = items_of(before);
        lemma_items_of(before);
        assert forall|i: int| 0 <= i < items_of(nodes).len() implies (#[trigger] items_of(
            nodes,
        )[i]).is_li() && nodes.contains(items_of(nodes)[i]) by {
            if i < kept.len() {
                assert(items_of(nodes)[i] == kept[i]);
                let a = choose|a: int| 0 <= a < before.len() && before[a] == kept[i];
                assert(nodes[a] == kept[i]);
            } else {
                assert(nodes[nodes.len() - 1] == last);
            }
        }
        assert forall|i: int| 0 <= i < nodes.len() && (#[trigger] nodes[i]).is_li() implies items_of(
            nodes,
        ).contains(nodes[i]) by {
            if i < before.len() {
                assert(before[i] == nodes[i]);
                let a = choose|a: int| 0 <= a < kept.len() && kept[a] == before[i];
                assert(items_of(nodes)[a] == nodes[i]);
            } else {
                assert(items_of(nodes)[kept.len() as int] == last);
            }
        }
        if distinct_items(nodes) {
            assert(distinct_items(before)) by {
                assert forall|i: int, j: int|
                    0 <= i < j < before.len() && (#[trigger] before[i]).is_li() && (
                    #[trigger] before[j]).is_li() implies !before[i].same_item(before[j]) by {
                    assert(before[i] == nodes[i] && before[j] == nodes[j]);
                }
            }
            assert forall|i: int, j: int|
                0 <= i < j < items_of(nodes).len() && (#[trigger] items_of(nodes)[i]).is_li() && (
                #[trigger] items_of(nodes)[j]).is_li() implies !items_of(nodes)[i].same_item(
                items_of(nodes)[j],
            ) by {
                if j < kept.len() {
                    assert(items_of(nodes)[i] == kept[i] && items_of(nodes)[j] == kept[j]);
                } else {
                    assert(items_of(nodes)[i] == kept[i]);
                    let a = choose|a: int| 0 <= a < before.len() && before[a] == kept[i];
                    assert(nodes[a] == kept[i]);
                    assert(nodes[nodes.len() - 1] == last);
                }
            }
        }
        if no_items(nodes) {
            assert(no_items(before)) by {
                assert forall|i: int| 0 <= i < before.len() implies !(#[trigger] before[i]).is_li() by {
                    assert(before[i] == nodes[i]);
                }
            }
            assert(!nodes[nodes.len() - 1].is_li());
        }
        if forall|i: int| 0 <= i < nodes.len() ==> (#[trigger] nodes[i]).is_li() {
            assert forall|i: int| 0 <= i < before.len() implies (#[trigger] before[i]).is_li() by {
                assert(before[i] == nodes[i]);
            }
            assert(nodes[nodes.len() - 1].is_li());
            assert(items_of(nodes) =~= nodes);
        }
    }
}

/// None of the nodes that are no list items is a list item.
proof fn lemma_fields_of(nodes: Seq<Node>)
    ensures
        no_items(fields_of(nodes)),
    decreases nodes.len(),
{
    reveal(Seq::filter);
    if nodes.len() > 0 {
        lemma_fields_of(nodes.drop_last());
        let kept = fields_of(nodes.drop_last());
        assert forall|i: int| 0 <= i < fields_of(nodes).len() implies !(#[trigger] fields_of(
            nodes,
        )[i]).is_li() by {
            if i < kept.len() {
                assert(fields_of(nodes)[i] == kept[i]);
            }
        }
    }
}

/// Keying nodes that are no list items by tag gives no list item.
proof fn lemma_by_tag_no_items(nodes: Seq<Node>)
    requires
        no_items(nodes),
    ensures
        no_items(by_tag(nodes)),
    decreases nodes.len(),
{
    if nodes.len() > 0 {
        let before = nodes.drop_last();
        assert(no_items(before)) by {
            assert forall|i: int| 0 <= i < before.len() implies !(#[trigger] before[i]).is_li() by {
                assert(before[i] == nodes[i]);
            }
        }
        lemma_by_tag_no_items(before);
        let keyed = by_tag(before);
        let last = nodes.last();
        assert(!nodes[nodes.len() - 1].is_li());
        let after = put_node(keyed, last);
        if has_tag(keyed, last.tag) {
            let k = choose|k: int| 0 <= k < keyed.len() && (#[trigger] keyed[k]).tag == last.tag;
            lemma_has_first(keyed, last.tag, k);
            assert forall|i: int| 0 <= i < after.len() implies !(#[trigger] after[i]).is_li() by {
                if i != first_with_tag(keyed, last.tag) {
                    assert(after[i] == keyed[i]);
                }
            }
        } else {
            assert forall|i: int| 0 <= i < after.len() implies !(#[trigger] after[i]).is_li() by {
                if i < keyed.len() {
                    assert(after[i] == keyed[i]);
                }
            }
        }
    }
}

/// Merging a node that is no list item into nodes that are no list items
/// gives no list item.
proof fn lemma_merge_node_no_items(merged: Seq<Node>, node: Node)
    requires
        no_items(merged),
        !node.is_li(),
    ensures
        no_items(merge_node_spec(merged, node)),
{
    let after = merge_node_spec(merged, node);
    lemma_merge_node_tags(merged, node);
    if has_tag(merged, node.tag) {
        assert forall|i: int| 0 <= i < after.len() implies !(#[trigger] after[i]).is_li() by {
            assert(after[i].tag == merged[i].tag);
            assert(!merged[i].is_li());
        }
    } else {
        assert forall|i: int| 0 <= i < after.len() implies !(#[trigger] after[i]).is_li() by {
            if i < merged.len() {
                assert(after[i] == merged[i]);
            }
        }
    }
}

/// One step of the merge of a list field: the list items that were there
/// stay in front in their order, the child is among the items if it is one,
/// and no duplicate comes in.
proof fn lemma_list_step(existing: Node, child: Node)
    ensures
        ({
            let next = if child.is_li() {
                add_item(existing, child)
            } else {
                merge_field(existing, child)
            };
            &&& items_of(existing.children).is_prefix_of(items_of(next.children))
            &&& child.is_li() ==> has_item(next.children, child)
            &&& forall|c: Node| has_item(existing.children, c) ==> has_item(next.children, c)
            &&& distinct_items(existing.children) ==> distinct_items(next.children)
        }),
{
    let old_items = items_of(existing.children);
    if child.is_li() {
        let next = add_item(existing, child);
        if has_item(existing.children, child) {
        } else {
            assert(items_of(next.children) == old_items.push(child)) by {
                reveal(Seq::filter);
                assert(next.children.drop_last() =~= existing.children);
            }
            assert(next.children[existing.children.len() as int].is_li()
                && next.children[existing.children.len() as int].same_item(child));
            assert forall|c: Node| has_item(existing.children, c) implies has_item(
                next.children,
                c,
            ) by {
                let i = choose|i: int|
                    0 <= i < existing.children.len() && (#[trigger] existing.children[i]).is_li()
                        && existing.children[i].same_item(c);
                assert(next.children[i] == existing.children[i]);
            }
            if distinct_items(existing.children) {
                assert forall|i: int, j: int|
                    0 <= i < j < next.children.len() && (#[trigger] next.children[i]).is_li() && (
                    #[trigger] next.children[j]).is_li() implies !next.children[i].same_item(
                    next.children[j],
                ) by {
                    assert(next.children[i] == existing.children[i]);
                    if j < existing.children.len() {
                        assert(next.children[j] == existing.children[j]);
                    }
                }
            }
        }
    } else {
        let next = merge_field(existing, child);
        let fields = merge_node_spec(by_tag(fields_of(existing.children)), child);
        assert(no_items(fields)) by {
            lemma_fields_of(existing.children);
            lemma_by_tag_no_items(fields_of(existing.children));
            lemma_merge_node_no_items(by_tag(fields_of(existing.children)), child);
        }
        lemma_items_of(existing.children);
        lemma_items_of(old_items);
        lemma_items_of(fields);
        Seq::filter_distributes_over_add(old_items, fields, |c: Node| c.is_li());
        assert(items_of(next.children) =~= old_items);
        assert forall|c: Node| has_item(existing.children, c) implies has_item(
            next.children,
            c,
        ) by {
            let i = choose|i: int|
                0 <= i < existing.children.len() && (#[trigger] existing.children[i]).is_li()
                    && existing.children[i].same_item(c);
            let a = choose|a: int| 0 <= a < old_items.len() && old_items[a] == existing.children[i];
            assert(next.children[a] == old_items[a]);
        }
        if distinct_items(existing.children) {
            assert forall|i: int, j: int|
                0 <= i < j < next.children.len() && (#[trigger] next.children[i]).is_li() && (
                #[trigger] next.children[j]).is_li() implies !next.children[i].same_item(
                next.children[j],
            ) by {
                if j >= old_items.len() {
                    assert(next.children[j] == fields[j - old_items.len()]);
                } else {
                    assert(next.children[i] == old_items[i]);
                    assert(next.children[j] == old_items[j]);
                }
            }
        }
    }
}

proof fn lemma_list_union_from(existing: Node, node: Node, k: nat)
    ensures
        items_of(existing.children).is_prefix_of(items_of(merge_list(existing, node, k).children)),
        forall|j: int|
            k <= j < node.children.len() && (#[trigger] node.children[j]).is_li() ==> has_item(
                merge_list(existing, node, k).children,
                node.children[j],
            ),
        forall|c: Node|
            has_item(existing.children, c) ==> has_item(merge_list(existing, node, k).children, c),
        distinct_items(existing.children) ==> distinct_items(
            merge_list(existing, node, k).children,
        ),
    decreases node.children.len() - k,
{
    if k < node.children.len() {
        let child = node.children[k as int];
        let next = if child.is_li() {
            add_item(existing, child)
        } else {
            merge_field(existing, child)
        };
        lemma_list_step(existing, child);
        lemma_list_union_from(next, node, k + 1);
        let result = merge_list(existing, node, k);
        assert(result == merge_list(next, node, k + 1));
        let a = items_of(existing.children);
        let b = items_of(next.children);
        let c = items_of(result.children);
        assert(a.is_prefix_of(c)) by {
            assert(a =~= b.subrange(0, a.len() as int));
            assert(b =~= c.subrange(0, b.len() as int));
            assert(a =~= c.subrange(0, a.len() as int));
        }
    } else {
        assert(items_of(existing.children) =~= items_of(existing.children).subrange(
            0,
            items_of(existing.children).len() as int,
        ));
    }
}

/// The merge of a list field is a union without duplicates. The list items
/// that the field had stay in front, in their order. Each list item of the
/// merged node is then among the items, or a duplicate of it is. Where the
/// field held no item twice, the result holds none twice, however often an
/// item stands in the two nodes.
pub proof fn lemma_list_union(existing: Node, node: Node)
    ensures
        items_of(existing.children).is_prefix_of(items_of(merge_list(existing, node, 0).children)),
        forall|j: int|
            0 <= j < node.children.len() && (#[trigger] node.children[j]).is_li() ==> has_item(
                merge_list(existing, node, 0).children,
                node.children[j],
            ),
        distinct_items(existing.children) ==> distinct_items(
            merge_list(existing, node, 0).children,
        ),
{
    lemma_list_union_from(existing, node, 0);
}

} // verus!
