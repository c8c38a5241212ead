use def_resolver::event::{decode_event, parse_events, RawEvent, XmlEvent};
use def_resolver::extract::{extract_defs, parse_def_data, DefData};
use def_resolver::index::DefIndex;
use def_resolver::inheritance::{expand_inheritance, merge_chain, resolve_chain, ResolveError};
use def_resolver::merge::{has_li_children, is_li, merge_node, merge_nodes, same_item, shape};
use def_resolver::node::{clone_node, Shape, XmlNode};
use def_resolver::render::{generate_expanded_xml, generate_node_xml};

fn leaf(tag: &str, text: &str) -> XmlNode {
    XmlNode {
        tag: tag.to_string(),
        attributes: vec![],
        children: vec![],
        text: Some(text.to_string()),
    }
}

fn empty(tag: &str) -> XmlNode {
    XmlNode { tag: tag.to_string(), attributes: vec![], children: vec![], text: None }
}

fn parent(tag: &str, children: Vec<XmlNode>) -> XmlNode {
    XmlNode { tag: tag.to_string(), attributes: vec![], children, text: None }
}

fn with_attr(mut node: XmlNode, key: &str, value: &str) -> XmlNode {
    node.attributes.push((key.to_string(), value.to_string()));
    node
}

fn def(name: &str, parent_name: Option<&str>, nodes: Vec<XmlNode>) -> DefData {
    DefData {
        def_name: name.to_string(),
        parent_name: parent_name.map(|p| p.to_string()),
        file_path: String::new(),
        is_abstract: false,
        def_type: "ThingDef".to_string(),
        raw_nodes: nodes,
    }
}

fn index_of(defs: Vec<DefData>) -> DefIndex {
    let mut index = DefIndex::new();
    index.insert_all(defs);
    index
}

fn start(name: &str, attributes: &[(&str, &str)]) -> XmlEvent {
    XmlEvent::Start {
        name: name.to_string(),
        attributes: attributes.iter().map(|(k, v)| (k.to_string(), v.to_string())).collect(),
    }
}

fn end(name: &str) -> XmlEvent {
    XmlEvent::End { name: name.to_string() }
}

fn text(t: &str) -> XmlEvent {
    XmlEvent::Text { text: Some(t.to_string()) }
}

const CORPUS: &str = r#"<?xml version="1.0" encoding="utf-8"?>
<Defs>
  <!-- a template -->
  <ThingDef Name="BaseThing" Abstract="True">
    <label>foo</label>
    <tags>
      <li>x</li>
    </tags>
  </ThingDef>
  <ThingDef ParentName="BaseThing">
    <defName>Steel</defName>
    <label>bar</label>
    <tags>
      <li>y</li>
      <li>x</li>
    </tags>
  </ThingDef>
</Defs>
"#;

#[test]
fn reader_yields_decoded_events() {
    let events = parse_events("<a k=\"v\" j='w &amp; z'><b/>  t &lt; u  </a>");
    assert_eq!(
        events,
        vec![
            start("a", &[("k", "v"), ("j", "w & z")]),
            XmlEvent::Empty { name: "b".to_string(), attributes: vec![] },
            text("t < u"),
            end("a"),
        ]
    );
}

#[test]
fn reader_skips_whitespace_between_elements() {
    let events = parse_events("<a>\n  <b>x</b>\n</a>");
    assert_eq!(events, vec![start("a", &[]), start("b", &[]), text("x"), end("b"), end("a")]);
}

#[test]
fn reader_reports_other_markup() {
    let events = parse_events("<?xml version=\"1.0\"?><!-- c --><a/>");
    assert_eq!(
        events,
        vec![
            XmlEvent::Other,
            XmlEvent::Other,
            XmlEvent::Empty { name: "a".to_string(), attributes: vec![] },
        ]
    );
}

#[test]
fn reader_stops_at_malformed_markup() {
    let events = parse_events("<a><b>x</b></c></a>");
    assert_eq!(events, vec![start("a", &[]), start("b", &[]), text("x"), end("b")]);
}

#[test]
fn reader_drops_malformed_attributes() {
    let events = parse_events("<a good=\"1\" bad=2 fine=\"3\"/>");
    assert_eq!(
        events,
        vec![XmlEvent::Empty {
            name: "a".to_string(),
            attributes: vec![
                ("good".to_string(), "1".to_string()),
                ("fine".to_string(), "3".to_string())
            ],
        }]
    );
}

#[test]
fn text_that_cannot_be_unescaped_is_none() {
    let event = decode_event(&RawEvent::Text("a &nosuch; b".to_string()));
    assert_eq!(event, XmlEvent::Text { text: None });
}

#[test]
fn attribute_that_cannot_be_unescaped_stays_raw() {
    let event = decode_event(&RawEvent::Start("a".to_string(), "a k=\"x &nosuch; y\"".to_string()));
    assert_eq!(event, start("a", &[("k", "x &nosuch; y")]));
}

#[test]
fn text_is_trimmed_after_unescaping() {
    let event = decode_event(&RawEvent::Text("&#32;&#9;x y&#10;".to_string()));
    assert_eq!(event, text("x y"));
}

#[test]
fn records_of_a_document() {
    let defs = parse_def_data(CORPUS, "Defs/Things.xml");
    assert_eq!(defs.len(), 2);
    assert_eq!(
        defs[0],
        DefData {
            def_name: "BaseThing".to_string(),
            parent_name: None,
            file_path: "Defs/Things.xml".to_string(),
            is_abstract: true,
            def_type: "ThingDef".to_string(),
            raw_nodes: vec![leaf("label", "foo"), parent("tags", vec![leaf("li", "x")])],
        }
    );
    assert_eq!(
        defs[1],
        DefData {
            def_name: "Steel".to_string(),
            parent_name: Some("BaseThing".to_string()),
            file_path: "Defs/Things.xml".to_string(),
            is_abstract: false,
            def_type: "ThingDef".to_string(),
            raw_nodes: vec![
                leaf("defName", "Steel"),
                leaf("label", "bar"),
                parent("tags", vec![leaf("li", "y"), leaf("li", "x")])
            ],
        }
    );
}

#[test]
fn record_without_name_is_dropped() {
    let defs = parse_def_data("<Defs><ThingDef><label>a</label></ThingDef></Defs>", "f");
    assert!(defs.is_empty());
}

#[test]
fn record_outside_wrapper_is_not_seen() {
    let defs = parse_def_data("<Other><ThingDef Name=\"A\"/><ThingDef Name=\"B\"></ThingDef></Other>", "f");
    assert!(defs.is_empty());
    let defs = parse_def_data("<Defs></Defs><ThingDef Name=\"B\"></ThingDef>", "f");
    assert!(defs.is_empty());
}

#[test]
fn name_attribute_wins_over_def_name_child() {
    let defs = parse_def_data(
        "<Defs><ThingDef Name=\"Base\"><defName>Child</defName></ThingDef></Defs>",
        "f",
    );
    assert_eq!(defs.len(), 1);
    assert_eq!(defs[0].def_name, "Base");
    assert_eq!(defs[0].raw_nodes, vec![leaf("defName", "Child")]);
}

#[test]
fn abstract_needs_the_value_true() {
    let defs = parse_def_data("<Defs><ThingDef Name=\"A\" Abstract=\"False\"></ThingDef></Defs>", "f");
    assert_eq!(defs.len(), 1);
    assert!(!defs[0].is_abstract);
}

#[test]
fn nested_def_shaped_tags_are_ordinary_nodes() {
    let defs = parse_def_data(
        "<Defs><RecipeDef><defName>R</defName><thingDef>Steel</thingDef><after/>\
         <inner><SubDef Name=\"no\"><x>1</x></SubDef></inner></RecipeDef></Defs>",
        "f",
    );
    assert_eq!(defs.len(), 1);
    assert_eq!(defs[0].def_name, "R");
    assert_eq!(defs[0].def_type, "RecipeDef");
    assert_eq!(
        defs[0].raw_nodes,
        vec![
            leaf("defName", "R"),
            leaf("thingDef", "Steel"),
            empty("after"),
            parent(
                "inner",
                vec![with_attr(parent("SubDef", vec![leaf("x", "1")]), "Name", "no")]
            ),
        ]
    );
}

#[test]
fn malformed_document_keeps_closed_records() {
    let defs = parse_def_data(
        "<Defs><ThingDef Name=\"A\"><a>1</a></ThingDef><ThingDef Name=\"B\"><a>1</b></ThingDef></Defs>",
        "f",
    );
    assert_eq!(defs.len(), 1);
    assert_eq!(defs[0].def_name, "A");
}

#[test]
fn extraction_from_given_events() {
    let events = vec![
        start("Defs", &[]),
        start("ThingDef", &[("ParentName", "P"), ("Abstract", "True"), ("Name", "N")]),
        start("a", &[("k", "v")]),
        text("t"),
        XmlEvent::Empty { name: "b".to_string(), attributes: vec![] },
        end("a"),
        XmlEvent::Text { text: None },
        XmlEvent::Other,
        end("ThingDef"),
        end("Defs"),
        start("ThingDef", &[("Name", "Late")]),
        end("ThingDef"),
    ];
    let defs = extract_defs(&events, "p.xml");
    assert_eq!(
        defs,
        vec![DefData {
            def_name: "N".to_string(),
            parent_name: Some("P".to_string()),
            file_path: "p.xml".to_string(),
            is_abstract: true,
            def_type: "ThingDef".to_string(),
            raw_nodes: vec![XmlNode {
                tag: "a".to_string(),
                attributes: vec![("k".to_string(), "v".to_string())],
                children: vec![empty("b")],
                text: Some("t".to_string()),
            }],
        }]
    );
}

#[test]
fn round_trip_shape() {
    let source = "<Defs><ThingDef><defName>Plain</defName><tags><li>one</li><li key=\"k\">two</li><li/></tags>\
                  <marker/><graphic kind=\"single\"><path>a/b</path></graphic><cost>5 &lt; 6</cost>\
                  </ThingDef></Defs>";
    let index = index_of(parse_def_data(source, "f"));
    let expansion = expand_inheritance(&index, "Plain").unwrap().unwrap();
    assert_eq!(expansion.chain, vec!["Plain".to_string()]);
    assert_eq!(
        expansion.xml,
        "<ThingDef>\n  <defName>Plain</defName>\n  <tags>\n    <li>one</li>\n    \
         <li key=\"k\">two</li>\n    <li />\n  </tags>\n  <marker />\n  <graphic kind=\"single\">\n    \
         <path>a/b</path>\n  </graphic>\n  <cost>5 &lt; 6</cost>\n</ThingDef>\n"
    );
    let again = parse_def_data(&format!("<Defs>{}</Defs>", expansion.xml), "f");
    assert_eq!(again.len(), 1);
    assert_eq!(again[0].raw_nodes, index.get("Plain").unwrap().raw_nodes);
}

#[test]
fn idempotent_merge() {
    let nodes = vec![
        parent("tags", vec![leaf("li", "x"), leaf("li", "y"), leaf("li", "x")]),
        leaf("label", "steel"),
        parent("graphic", vec![leaf("path", "a"), leaf("path", "b")]),
        empty("cost"),
    ];
    let mut merged = Vec::new();
    merge_nodes(&mut merged, &nodes);
    assert_eq!(merged, nodes);
}

#[test]
fn merge_alone_keeps_the_last_of_a_tag_in_the_place_of_the_first() {
    let nodes = vec![leaf("b", "1"), leaf("a", "2"), leaf("b", "3")];
    let mut merged = Vec::new();
    merge_nodes(&mut merged, &nodes);
    assert_eq!(merged, vec![leaf("b", "3"), leaf("a", "2")]);
}

#[test]
fn list_union_no_duplicates() {
    let mut merged = vec![parent("tags", vec![leaf("li", "x")])];
    merge_node(&mut merged, &parent("tags", vec![leaf("li", "y")]));
    assert_eq!(merged, vec![parent("tags", vec![leaf("li", "x"), leaf("li", "y")])]);
    merge_node(&mut merged, &parent("tags", vec![leaf("li", "y"), leaf("li", "x"), leaf("li", "y")]));
    assert_eq!(merged, vec![parent("tags", vec![leaf("li", "x"), leaf("li", "y")])]);
}

#[test]
fn list_items_differ_by_attributes() {
    let mut merged = vec![parent("tags", vec![leaf("li", "x")])];
    let other = with_attr(leaf("li", "x"), "Class", "A");
    merge_node(&mut merged, &parent("tags", vec![clone_node(&other), empty("li")]));
    assert_eq!(merged, vec![parent("tags", vec![leaf("li", "x"), other, empty("li")])]);
    assert!(same_item(&empty("li"), &leaf("li", "")));
    assert!(!same_item(&leaf("li", "x"), &with_attr(leaf("li", "x"), "Class", "A")));
}

#[test]
fn list_field_merges_its_other_children_by_tag_behind_its_items() {
    let mut merged = vec![parent(
        "comps",
        vec![leaf("zeta", "1"), leaf("li", "a"), leaf("alpha", "2"), leaf("li", "b")],
    )];
    merge_node(&mut merged, &parent("comps", vec![leaf("li", "c"), leaf("mid", "3"), leaf("alpha", "4")]));
    assert_eq!(
        merged,
        vec![parent(
            "comps",
            vec![
                leaf("li", "a"),
                leaf("li", "b"),
                leaf("li", "c"),
                leaf("zeta", "1"),
                leaf("alpha", "4"),
                leaf("mid", "3"),
            ]
        )]
    );
}

#[test]
fn scalar_override() {
    let mut merged = vec![leaf("label", "foo")];
    merge_node(&mut merged, &leaf("label", "bar"));
    assert_eq!(merged, vec![leaf("label", "bar")]);
}

#[test]
fn object_field_is_replaced_whole() {
    let mut merged = vec![with_attr(parent("graphic", vec![leaf("path", "a"), leaf("size", "2")]), "k", "v")];
    merge_node(&mut merged, &parent("graphic", vec![leaf("path", "b")]));
    assert_eq!(merged, vec![parent("graphic", vec![leaf("path", "b")])]);
    merge_node(&mut merged, &empty("graphic"));
    assert_eq!(merged, vec![empty("graphic")]);
}

#[test]
fn list_shape_is_judged_by_the_incoming_node() {
    let mut merged = vec![parent("tags", vec![leaf("li", "x")])];
    merge_node(&mut merged, &leaf("tags", "none"));
    assert_eq!(merged, vec![leaf("tags", "none")]);
    merge_node(&mut merged, &parent("tags", vec![leaf("li", "y")]));
    assert_eq!(
        merged,
        vec![XmlNode {
            tag: "tags".to_string(),
            attributes: vec![],
            children: vec![leaf("li", "y")],
            text: Some("none".to_string()),
        }]
    );
}

#[test]
fn new_tags_come_last() {
    let mut merged = Vec::new();
    for tag in ["b", "a", "B", "ab", "a", "é", "b", "z"] {
        merge_node(&mut merged, &empty(tag));
    }
    let tags: Vec<&str> = merged.iter().map(|n| n.tag.as_str()).collect();
    assert_eq!(tags, vec!["b", "a", "B", "ab", "é", "z"]);
}

#[test]
fn shape_predicates() {
    assert!(is_li(&empty("li")));
    assert!(!is_li(&empty("Li")));
    assert!(has_li_children(&parent("tags", vec![empty("a"), empty("li")])));
    assert!(!has_li_children(&parent("tags", vec![empty("a")])));
    assert!(!has_li_children(&parent("tags", vec![parent("a", vec![empty("li")])])));
    assert_eq!(shape(&empty("a")), Shape::Empty);
    assert_eq!(shape(&leaf("a", "t")), Shape::Leaf);
    assert_eq!(shape(&parent("a", vec![leaf("b", "t")])), Shape::Composite);
    assert_eq!(shape(&parent("a", vec![leaf("b", "t"), empty("li")])), Shape::List);
    let node = parent("a", vec![empty("li")]);
    assert_eq!(node.clone(), node);
}

#[test]
fn chain_ordering() {
    let index = index_of(vec![
        def("Leaf", Some("Mid"), vec![leaf("c", "leaf"), parent("tags", vec![leaf("li", "l")])]),
        def("Root", None, vec![leaf("a", "root"), leaf("c", "root"), parent("tags", vec![leaf("li", "r")])]),
        def("Mid", Some("Root"), vec![leaf("b", "mid"), leaf("c", "mid"), parent("tags", vec![leaf("li", "m")])]),
    ]);
    let chain = resolve_chain(&index, "Leaf").unwrap();
    assert_eq!(chain, vec!["Root".to_string(), "Mid".to_string(), "Leaf".to_string()]);
    let merged = merge_chain(&index, &chain);
    assert_eq!(
        merged,
        vec![
            leaf("a", "root"),
            leaf("c", "leaf"),
            parent("tags", vec![leaf("li", "r"), leaf("li", "m"), leaf("li", "l")]),
            leaf("b", "mid"),
        ]
    );
}

#[test]
fn missing_parent() {
    let index = index_of(vec![def("Orphan", Some("Nowhere"), vec![leaf("a", "1")])]);
    assert_eq!(resolve_chain(&index, "Orphan"), Ok(vec!["Orphan".to_string()]));
    let expansion = expand_inheritance(&index, "Orphan").unwrap().unwrap();
    assert_eq!(expansion.chain, vec!["Orphan".to_string()]);
    assert_eq!(expansion.xml, "<ThingDef>\n  <defName>Orphan</defName>\n  <a>1</a>\n</ThingDef>\n");
}

#[test]
fn chain_of_an_unknown_name_is_the_name() {
    let index = index_of(vec![def("A", None, vec![])]);
    assert_eq!(resolve_chain(&index, "B"), Ok(vec!["B".to_string()]));
    assert_eq!(expand_inheritance(&index, "B"), Ok(None));
}

#[test]
fn cycle_safety() {
    let index = index_of(vec![def("A", Some("B"), vec![]), def("B", Some("C"), vec![]), def("C", Some("A"), vec![])]);
    assert_eq!(resolve_chain(&index, "A"), Err(ResolveError::CycleDetected));
    assert_eq!(resolve_chain(&index, "C"), Err(ResolveError::CycleDetected));
    assert_eq!(expand_inheritance(&index, "B"), Err(ResolveError::CycleDetected));
    let own = index_of(vec![def("Self", Some("Self"), vec![])]);
    assert_eq!(resolve_chain(&own, "Self"), Err(ResolveError::CycleDetected));
}

#[test]
fn cycle_above_a_record_fails_too() {
    let index = index_of(vec![def("Leaf", Some("A"), vec![]), def("A", Some("B"), vec![]), def("B", Some("A"), vec![])]);
    assert_eq!(resolve_chain(&index, "Leaf"), Err(ResolveError::CycleDetected));
}

#[test]
fn index_keeps_the_later_record_of_a_name() {
    let mut index = DefIndex::new();
    assert_eq!(index.len(), 0);
    index.insert(def("A", None, vec![leaf("v", "1")]));
    index.insert(def("B", None, vec![]));
    index.insert(def("A", Some("B"), vec![leaf("v", "2")]));
    assert_eq!(index.len(), 2);
    assert_eq!(index.names(), vec!["A".to_string(), "B".to_string()]);
    assert_eq!(index.get("A"), Some(&def("A", Some("B"), vec![leaf("v", "2")])));
    assert!(index.contains("B"));
    assert!(!index.contains("a"));
    assert_eq!(index.get("C"), None);
}

#[test]
fn expansion_of_the_corpus() {
    let index = index_of(parse_def_data(CORPUS, "Defs/Things.xml"));
    let expansion = expand_inheritance(&index, "Steel").unwrap().unwrap();
    assert_eq!(expansion.chain, vec!["BaseThing".to_string(), "Steel".to_string()]);
    assert_eq!(
        expansion.xml,
        "<ThingDef>\n  <defName>Steel</defName>\n  <label>bar</label>\n  <tags>\n    <li>x</li>\n    \
         <li>y</li>\n  </tags>\n</ThingDef>\n"
    );
}

#[test]
fn rendering_rules() {
    let mut xml = String::from("head\n");
    generate_node_xml(&mut xml, &leaf("a", "t"), "");
    generate_node_xml(&mut xml, &with_attr(with_attr(leaf("a", "t"), "k", "v"), "j", "w"), "  ");
    generate_node_xml(&mut xml, &empty("e"), "    ");
    generate_node_xml(&mut xml, &with_attr(empty("e"), "k", "v"), "");
    let mut stray = parent("box", vec![with_attr(leaf("li", "1"), "k", "v"), empty("li"), parent("li", vec![leaf("x", "2")])]);
    stray.text = Some("stray".to_string());
    generate_node_xml(&mut xml, &stray, "  ");
    assert_eq!(
        xml,
        "head\n<a>t</a>\n  <a k=\"v\" j=\"w\">t</a>\n    <e />\n<e k=\"v\" />\n  <box>\n    stray\n    \
         <li k=\"v\">1</li>\n    <li />\n    <li>\n      <x>2</x>\n    </li>\n  </box>\n"
    );
}

#[test]
fn rendering_escapes_markup() {
    let node = with_attr(leaf("a", "1 < 2 & \"q\""), "k", "it's > \"x\"");
    let mut xml = String::new();
    generate_node_xml(&mut xml, &node, "");
    assert_eq!(
        xml,
        "<a k=\"it&apos;s &gt; &quot;x&quot;\">1 &lt; 2 &amp; &quot;q&quot;</a>\n"
    );
    let events = parse_events(&xml);
    assert_eq!(events, vec![start("a", &[("k", "it's > \"x\"")]), text("1 < 2 & \"q\""), end("a")]);
}

#[test]
fn record_text_leaves_out_the_def_name_node() {
    let nodes = vec![leaf("defName", "Other"), leaf("label", "l")];
    assert_eq!(
        generate_expanded_xml("A&B", "ThingDef", &nodes),
        "<ThingDef>\n  <defName>A&amp;B</defName>\n  <label>l</label>\n</ThingDef>\n"
    );
    assert_eq!(
        generate_expanded_xml("N", "T", &Vec::new()),
        "<T>\n  <defName>N</defName>\n</T>\n"
    );
}

#[test]
fn repeated_attribute_keeps_its_first_value() {
    let events = parse_events("<a k=\"1\" j=\"2\" k=\"3\"/>");
    assert_eq!(
        events,
        vec![XmlEvent::Empty {
            name: "a".to_string(),
            attributes: vec![("k".to_string(), "1".to_string()), ("j".to_string(), "2".to_string())],
        }]
    );
}

#[test]
fn comments_and_cdata_are_passed_over() {
    let defs = parse_def_data(
        "<Defs><!-- c --><ThingDef><defName>A</defName><!-- inside --><desc><![CDATA[<raw>]]></desc>\
         </ThingDef></Defs>",
        "f",
    );
    assert_eq!(defs.len(), 1);
    assert_eq!(defs[0].raw_nodes, vec![leaf("defName", "A"), empty("desc")]);
}

#[test]
fn record_that_is_an_empty_element_is_not_seen() {
    let defs = parse_def_data("<Defs><ThingDef Name=\"A\"/><ThingDef Name=\"B\"></ThingDef></Defs>", "f");
    assert_eq!(defs.len(), 1);
    assert_eq!(defs[0].def_name, "B");
    assert!(defs[0].raw_nodes.is_empty());
}

#[test]
fn last_name_and_parent_attribute_count() {
    let events = vec![
        start("Defs", &[]),
        start("XDef", &[("Name", "first"), ("ParentName", "older"), ("Name", "second"), ("ParentName", "newer")]),
        end("XDef"),
    ];
    let defs = extract_defs(&events, "");
    assert_eq!(defs.len(), 1);
    assert_eq!(defs[0].def_name, "second");
    assert_eq!(defs[0].parent_name, Some("newer".to_string()));
}

#[test]
fn first_def_name_text_names_the_record() {
    let defs = parse_def_data(
        "<Defs><ThingDef><a><defName>Deep</defName></a><defName>Top</defName><defName></defName></ThingDef></Defs>",
        "f",
    );
    assert_eq!(defs.len(), 1);
    assert_eq!(defs[0].def_name, "Deep");
}

#[test]
fn stray_text_stays_on_a_node_with_children() {
    let defs = parse_def_data("<Defs><ADef Name=\"A\"><box>loose<in>1</in>more</box></ADef></Defs>", "f");
    assert_eq!(
        defs[0].raw_nodes,
        vec![XmlNode {
            tag: "box".to_string(),
            attributes: vec![],
            children: vec![leaf("in", "1")],
            text: Some("more".to_string()),
        }]
    );
}

#[test]
fn text_directly_under_a_record_is_dropped() {
    let defs = parse_def_data("<Defs><ADef Name=\"A\">loose<a>1</a>tail</ADef></Defs>", "f");
    assert_eq!(defs[0].raw_nodes, vec![leaf("a", "1")]);
}

#[test]
fn records_of_several_wrappers_and_types() {
    let defs = parse_def_data(
        "<Defs><ADef Name=\"a\"/><BDef Name=\"b\"><x/></BDef></Defs><Defs><CDef><defName>c</defName></CDef></Defs>",
        "f",
    );
    let names: Vec<(&str, &str)> =
        defs.iter().map(|d| (d.def_type.as_str(), d.def_name.as_str())).collect();
    assert_eq!(names, vec![("BDef", "b"), ("CDef", "c")]);
}

#[test]
fn merge_of_an_empty_chain_is_empty() {
    let index = DefIndex::new();
    assert!(merge_chain(&index, &Vec::new()).is_empty());
    assert!(merge_chain(&index, &vec!["Nowhere".to_string()]).is_empty());
}

#[test]
fn chain_stops_at_a_record_without_parent() {
    let index = index_of(vec![def("A", None, vec![]), def("B", Some("A"), vec![])]);
    assert_eq!(resolve_chain(&index, "A"), Ok(vec!["A".to_string()]));
    assert_eq!(resolve_chain(&index, "B"), Ok(vec!["A".to_string(), "B".to_string()]));
}

#[test]
fn record_must_stand_directly_inside_the_wrapper() {
    let doc = "<Defs><Group><ThingDef Name=\"deep\"><a/></ThingDef><x><y/></x></Group>\
               <ThingDef Name=\"top\"><a/></ThingDef><Group/><ThingDef Name=\"next\"></ThingDef></Defs>";
    let defs = parse_def_data(doc, "f");
    let names: Vec<&str> = defs.iter().map(|d| d.def_name.as_str()).collect();
    assert_eq!(names, vec!["top", "next"]);
}

#[test]
fn wrapper_tag_inside_a_record_is_an_ordinary_node() {
    let doc = "<Defs><ADef Name=\"a\"><Defs><BDef Name=\"b\"/></Defs><tail/></ADef><CDef Name=\"c\"></CDef></Defs>";
    let defs = parse_def_data(doc, "f");
    assert_eq!(defs.len(), 2);
    assert_eq!(defs[0].def_name, "a");
    assert_eq!(
        defs[0].raw_nodes,
        vec![parent("Defs", vec![with_attr(empty("BDef"), "Name", "b")]), empty("tail")]
    );
    assert_eq!(defs[1].def_name, "c");
}
