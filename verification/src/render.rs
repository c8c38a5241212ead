//! The canonical text of a merged record: indented XML, two spaces a level.

use crate::node::{attributes_view, lemma_children_view, nodes_view, Node, XmlNode};
use crate::text::{escape, escaped, str_equal};
use vstd::prelude::*;
use vstd::string::StringExecFns;

verus! {

/// The attributes as they stand in a tag: each with a space before it, its
/// value escaped and in double quotes.
pub open spec fn attributes_text(attributes: Seq<(Seq<char>, Seq<char>)>) -> Seq<char>
    decreases attributes.len(),
{
    if attributes.len() == 0 {
        Seq::empty()
    } else {
        attributes_text(attributes.drop_last()) + " "@ + attributes.last().0 + "=\""@ + escaped(
            attributes.last().1,
        ) + "\""@
    }
}

/// The start of a node's tag: `<`, the name and the attributes.
pub open spec fn open_tag(node: Node) -> Seq<char> {
    "<"@ + node.tag + attributes_text(node.attributes)
}

/// The one line of a node without children: its text between its tags, or
/// a self-closing tag where it has no text.
pub open spec fn leaf_line(node: Node, indent: Seq<char>) -> Seq<char> {
    match node.text {
        Some(t) => indent + open_tag(node) + ">"@ + escaped(t) + "</"@ + node.tag + ">\n"@,
        None => indent + open_tag(node) + " />\n"@,
    }
}

/// The line of the opening tag of a node with children.
pub open spec fn opening_line(node: Node, indent: Seq<char>) -> Seq<char> {
    indent + open_tag(node) + ">\n"@
}

/// The line that holds the text of a node that also has children.
pub open spec fn stray_text(node: Node, indent: Seq<char>) -> Seq<char> {
    match node.text {
        Some(t) => indent + "  "@ + escaped(t) + "\n"@,
        None => Seq::empty(),
    }
}

/// The line of the closing tag of a node with children.
pub open spec fn closing_line(node: Node, indent: Seq<char>) -> Seq<char> {
    indent + "</"@ + node.tag + ">\n"@
}

/// The lines of a node. Without children it takes one line. With children
/// it takes a line for its opening tag, a line for its own text where it
/// has any, the lines of its children one level deeper, and a line for its
/// closing tag.
pub open spec fn render_node(node: Node, indent: Seq<char>) -> Seq<char>
    decreases node, node.children.len() + 1,
{
    if node.children.len() == 0 {
        leaf_line(node, indent)
    } else {
        opening_line(node, indent) + stray_text(node, indent) + render_children(
            node,
            node.children.len(),
            indent + "  "@,
        ) + closing_line(node, indent)
    }
}

/// The lines of the first `k` children of a node.
pub open spec fn render_children(node: Node, k: nat, indent: Seq<char>) -> Seq<char>
    decreases node, k,
    when k <= node.children.len()
{
    if k == 0 {
        Seq::empty()
    } else {
        render_children(node, (k - 1) as nat, indent) + render_node(
            node.children[k - 1],
            indent,
        )
    }
}

/// The lines of the nodes of a record, one level deep. A node named
/// `defName` is left out: the record's name stands in its place.
pub open spec fn render_fields(nodes: Seq<Node>) -> Seq<char>
    decreases nodes.len(),
{
    if nodes.len() == 0 {
        Seq::empty()
    } else if nodes.last().tag == "defName"@ {
        render_fields(nodes.drop_last())
    } else {
        render_fields(nodes.drop_last()) + render_node(nodes.last(), "  "@)
    }
}

/// The text of a record: the tag of its type around its name and its nodes.
pub open spec fn render_record(def_name: Seq<char>, def_type: Seq<char>, nodes: Seq<Node>) -> Seq<
    char,
> {
    "<"@ + def_type + ">\n"@ + "  <defName>"@ + escaped(def_name) + "</defName>\n"@
        + render_fields(nodes) + "</"@ + def_type + ">\n"@
}

/// Appends the attributes as they stand in a tag.
pub fn push_attributes(out: &mut String, attributes: &Vec<(String, String)>)
    ensures
        final(out)@ == old(out)@ + attributes_text(attributes_view(attributes@)),
{
    let ghost all = attributes_view(attributes@);
    let mut i: usize = 0;
    assert(all.take(0) =~= Seq::empty());
    assert(out@ =~= old(out)@ + attributes_text(all.take(0)));
    while i < attributes.len()
        invariant
            i <= attributes.len(),
            all == attributes_view(attributes@),
            out@ == old(out)@ + attributes_text(all.take(i as int)),
        decreases attributes.len() - i,
    {
        let ghost upto = all.take(i + 1);
        assert(upto.drop_last() =~= all.take(i as int));
        assert(upto.last() == all[i as int]);
        let value = escape(attributes[i].1.as_str());
        out.append(" ");
        out.append(attributes[i].0.as_str());
        out.append("=\"");
        out.append(value.as_str());
        out.append("\"");
        assert(out@ =~= old(out)@ + attributes_text(upto));
        i += 1;
    }
    assert(all.take(attributes.len() as int) =~= all);
}

/// Appends the start of a node's tag.
fn push_open_tag(xml: &mut String, node: &XmlNode)
    ensures
        final(xml)@ == old(xml)@ + open_tag(node@),
{
    xml.append("<");
    xml.append(node.tag.as_str());
    push_attributes(xml, &node.attributes);
    assert(xml@ =~= old(xml)@ + open_tag(node@));
}

/// Appends the one line of a node without children.
fn push_leaf_line(xml: &mut String, node: &XmlNode, indent: &str)
    ensures
        final(xml)@ == old(xml)@ + leaf_line(node@, indent@),
{
    xml.append(indent);
    push_open_tag(xml, node);
    match &node.text {
        Some(t) => {
            let text = escape(t.as_str());
            xml.append(">");
            xml.append(text.as_str());
            xml.append("</");
            xml.append(node.tag.as_str());
            xml.append(">\n");
        },
        None => {
            xml.append(" />\n");
        },
    }
    assert(xml@ =~= old(xml)@ + leaf_line(node@, indent@));
}

/// Appends the line of the opening tag of a node with children.
fn push_opening_line(xml: &mut String, node: &XmlNode, indent: &str)
    ensures
        final(xml)@ == old(xml)@ + opening_line(node@, indent@),
{
    xml.append(indent);
    push_open_tag(xml, node);
    xml.append(">\n");
    assert(xml@ =~= old(xml)@ + opening_line(node@, indent@));
}

/// Appends the line that holds the text of a node that also has children.
fn push_stray_text(xml: &mut String, node: &XmlNode, indent: &str)
    ensures
        final(xml)@ == old(xml)@ + stray_text(node@, indent@),
{
    match &node.text {
        Some(t) => {
            let text = escape(t.as_str());
            xml.append(indent);
            xml.append("  ");
            xml.append(text.as_str());
            xml.append("\n");
        },
        None => {},
    }
    assert(xml@ =~= old(xml)@ + stray_text(node@, indent@));
}

/// Appends the line of the closing tag of a node with children.
fn push_closing_line(xml: &mut String, node: &XmlNode, indent: &str)
    ensures
        final(xml)@ == old(xml)@ + closing_line(node@, indent@),
{
    xml.append(indent);
    xml.append("</");
    xml.append(node.tag.as_str());
    xml.append(">\n");
    assert(xml@ =~= old(xml)@ + closing_line(node@, indent@));
}

/// Appends the lines of a node, each line behind `indent`.
pub fn generate_node_xml(xml: &mut String, node: &XmlNode, indent: &str)
    ensures
        final(xml)@ == old(xml)@ + render_node(node@, indent@),
    decreases node,
{
    proof {
        lemma_children_view(*node);
    }
    if node.children.len() == 0 {
        push_leaf_line(xml, node, indent);
        return ;
    }
    let ghost start = xml@;
    push_opening_line(xml, node, indent);
    push_stray_text(xml, node, indent);
    let mut deeper = indent.to_owned();
    deeper.append("  ");
    let ghost head = xml@;
    let mut k: usize = 0;
    while k < node.children.len()
        invariant
            k <= node.children.len(),
            node@.children == nodes_view(node.children@),
            deeper@ == indent@ + "  "@,
            xml@ == head + render_children(node@, k as nat, deeper@),
        decreases node.children.len() - k,
    {
        let ghost before = xml@;
        generate_node_xml(xml, &node.children[k], deeper.as_str());
        assert(node@.children[k as int] == node.children@[k as int]@);
        assert(render_children(node@, (k + 1) as nat, deeper@) == render_children(
            node@,
            k as nat,
            deeper@,
        ) + render_node(node@.children[k as int], deeper@));
        assert(xml@ =~= head + render_children(node@, (k + 1) as nat, deeper@));
        k += 1;
    }
    let ghost body = xml@;
    push_closing_line(xml, node, indent);
    assert(xml@ =~= start + render_node(node@, indent@)) by {
        let a = opening_line(node@, indent@);
        let b = stray_text(node@, indent@);
        let c = render_children(node@, node@.children.len(), indent@ + "  "@);
        let d = closing_line(node@, indent@);
        assert(head == start + a + b);
        assert(body == head + c);
        assert(xml@ == body + d);
        assert(render_node(node@, indent@) == a + b + c + d);
        assert(start + a + b + c + d =~= start + (a + b + c + d));
    }
}

/// The text of a merged record: its type, its name, and each of its nodes
/// but `defName`.
pub fn generate_expanded_xml(def_name: &str, def_type: &str, nodes: &Vec<XmlNode>) -> (xml: String)
    ensures
        xml@ == render_record(def_name@, def_type@, nodes_view(nodes@)),
{
    let ghost all = nodes_view(nodes@);
    let mut xml = String::new();
    let name = escape(def_name);
    xml.append("<");
    xml.append(def_type);
    xml.append(">\n");
    xml.append("  <defName>");
    xml.append(name.as_str());
    xml.append("</defName>\n");
    let ghost head = xml@;
    assert(head =~= "<"@ + def_type@ + ">\n"@ + "  <defName>"@ + escaped(def_name@)
        + "</defName>\n"@);
    let mut i: usize = 0;
    assert(all.take(0) =~= Seq::empty());
    assert(xml@ =~= head + render_fields(all.take(0)));
    while i < nodes.len()
        invariant
            i <= nodes.len(),
            all == nodes_view(nodes@),
            xml@ == head + render_fields(all.take(i as int)),
        decreases nodes.len() - i,
    {
        let ghost upto = all.take(i + 1);
        assert(upto.drop_last() =~= all.take(i as int));
        assert(upto.last() == nodes@[i as int]@);
        if !str_equal(nodes[i].tag.as_str(), "defName") {
            generate_node_xml(&mut xml, &nodes[i], "  ");
        }
        assert(xml@ =~= head + render_fields(upto));
        i += 1;
    }
    assert(all.take(nodes.len() as int) =~= all);
    xml.append("</");
    xml.append(def_type);
    xml.append(">\n");
    assert(xml@ =~= render_record(def_name@, def_type@, all));
    xml
}

} // verus!
