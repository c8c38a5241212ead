use def_resolver::browser::{
    capture_entries, group_entries, parse_defs_from_file, BrowserStatus, DefBrowserTab, DefEntry,
    DefGroup,
};
use def_resolver::layout::format_xml;
use def_resolver::event::XmlEvent;

fn entry(def_type: &str, name: &str, content: &str) -> DefEntry {
    DefEntry {
        def_name: name.to_string(),
        file_path: "f.xml".to_string(),
        xml_content: content.to_string(),
        def_type: def_type.to_string(),
    }
}

#[test]
fn layout_of_nested_tags() {
    assert_eq!(
        format_xml("<ThingDef Name=\"A\"><defName>Steel</defName><stats><hp>10</hp><e /></stats></ThingDef>"),
        "<ThingDef Name=\"A\">\n  <defName>Steel</defName>\n  <stats>\n    <hp>10</hp>\n    <e />\n  </stats>\n</ThingDef>\n"
    );
}

#[test]
fn layout_edge_cases() {
    assert_eq!(format_xml(""), "");
    assert_eq!(format_xml("no tags at all"), "");
    assert_eq!(format_xml("<a>"), "<a>\n");
    assert_eq!(format_xml("<a"), "<a\n");
    assert_eq!(format_xml("</a>"), "</a>\n");
    assert_eq!(format_xml("<a></a>"), "<a>\n</a>\n");
    assert_eq!(format_xml("<a>  </a>"), "<a></a>\n");
    assert_eq!(format_xml("<a> t </a>tail<b/>"), "<a>t</a>\n<b/>\n");
    assert_eq!(format_xml("<a>text"), "<a>text");
    assert_eq!(format_xml("<a><b>t<c>u</c></b></a>"), "<a>\n  <b>t  <c>u</c>\n</b>\n</a>\n");
    assert_eq!(format_xml("</a></b><c>"), "</a>\n</b>\n<c>\n");
}

#[test]
fn entries_of_a_document() {
    let doc = "<Defs>\n  <ThingDef ParentName=\"Base\">\n    <defName> Steel </defName>\n    \
               <label>a &amp; b</label>\n    <tags>\n      <li>x</li>\n      <li Class=\"k\" />\n    </tags>\n  \
               </ThingDef>\n  <ThingDef Name=\"Base\" Abstract=\"True\"><label>none</label></ThingDef>\n  \
               <RecipeDef><defName>Make</defName><thingDef>Steel</thingDef></RecipeDef>\n</Defs>";
    let entries = parse_defs_from_file(doc, "Defs/a.xml");
    assert_eq!(entries.len(), 2);
    assert_eq!(
        entries[0],
        DefEntry {
            def_name: "Steel".to_string(),
            file_path: "Defs/a.xml".to_string(),
            xml_content: "<ThingDef ParentName=\"Base\">\n  <defName>Steel</defName>\n  \
                          <label>a &amp; b</label>\n  <tags>\n    <li>x</li>\n    <li Class=\"k\" />\n  \
                          </tags>\n</ThingDef>\n"
                .to_string(),
            def_type: "ThingDef".to_string(),
        }
    );
    assert_eq!(entries[1].def_name, "Make");
    assert_eq!(entries[1].def_type, "RecipeDef");
    assert_eq!(
        entries[1].xml_content,
        "<RecipeDef>\n  <defName>Make</defName>\n  <thingDef>Steel</thingDef>\n</RecipeDef>\n"
    );
}

#[test]
fn entries_from_given_events() {
    let events = vec![
        XmlEvent::Start { name: "Defs".to_string(), attributes: vec![] },
        XmlEvent::Start { name: "ADef".to_string(), attributes: vec![("k".to_string(), "<v>".to_string())] },
        XmlEvent::Start { name: "defName".to_string(), attributes: vec![] },
        XmlEvent::Text { text: Some("N".to_string()) },
        XmlEvent::End { name: "defName".to_string() },
        XmlEvent::Text { text: Some("loose".to_string()) },
        XmlEvent::End { name: "ADef".to_string() },
        XmlEvent::Start { name: "BDef".to_string(), attributes: vec![] },
        XmlEvent::End { name: "BDef".to_string() },
    ];
    let entries = capture_entries(&events, "p");
    assert_eq!(
        entries,
        vec![DefEntry {
            def_name: "N".to_string(),
            file_path: "p".to_string(),
            xml_content: "<ADef k=\"&lt;v&gt;\">\n  <defName>N</defName>\n</ADef>\n".to_string(),
            def_type: "ADef".to_string(),
        }]
    );
}

#[test]
fn groups_by_type_and_name() {
    let groups = group_entries(vec![
        entry("ThingDef", "b", "1"),
        entry("RecipeDef", "z", "2"),
        entry("ThingDef", "a", "3"),
        entry("ThingDef", "b", "4"),
        entry("BiomeDef", "m", "5"),
        entry("ThingDef", "B", "6"),
    ]);
    assert_eq!(
        groups,
        vec![
            DefGroup { def_type: "BiomeDef".to_string(), entries: vec![entry("BiomeDef", "m", "5")] },
            DefGroup { def_type: "RecipeDef".to_string(), entries: vec![entry("RecipeDef", "z", "2")] },
            DefGroup {
                def_type: "ThingDef".to_string(),
                entries: vec![
                    entry("ThingDef", "B", "6"),
                    entry("ThingDef", "a", "3"),
                    entry("ThingDef", "b", "1"),
                    entry("ThingDef", "b", "4"),
                ],
            },
        ]
    );
    assert!(group_entries(vec![]).is_empty());
}

#[test]
fn browser_page() {
    let mut tab = DefBrowserTab::new();
    assert_eq!(tab.status, BrowserStatus::Idle);
    assert!(!tab.sync_settings(""));
    assert!(tab.sync_settings("/data"));
    assert!(tab.initialized);
    assert_eq!(tab.base_directory, "/data");
    let stale = tab.scan_defs();
    let ticket = tab.scan_defs();
    assert!(tab.is_loading);
    assert_eq!(tab.status, BrowserStatus::Scanning);
    tab.files_found(4);
    assert_eq!(tab.status, BrowserStatus::Parsing { files: 4 });
    assert!(!tab.finish_scan(stale, vec![vec![entry("Old", "o", "0")]]));
    assert!(tab.defs.is_empty());
    assert!(tab.finish_scan(
        ticket,
        vec![vec![entry("T", "b", "1"), entry("S", "x", "2")], vec![], vec![entry("T", "a", "3")]]
    ));
    assert!(!tab.is_loading);
    assert_eq!(
        tab.status,
        BrowserStatus::Done { types: 2, total: 3, files_with_defs: 2, files_without_defs: 1 }
    );
    assert_eq!(tab.selected_entry(), None);
    tab.click_type("T");
    assert_eq!(tab.selected_def_type, Some("T".to_string()));
    assert_eq!(tab.selected_entry(), None);
    tab.select_entry(1);
    assert_eq!(tab.selected_entry(), Some(&entry("T", "b", "1")));
    tab.select_entry(2);
    assert_eq!(tab.selected_entry(), None);
    tab.click_type("S");
    assert_eq!(tab.selected_def_entry, None);
    tab.select_entry(0);
    assert_eq!(tab.selected_entry(), Some(&entry("S", "x", "2")));
    tab.click_type("S");
    assert_eq!(tab.selected_def_type, None);
    assert_eq!(tab.selected_def_entry, None);
    tab.click_type("Unknown");
    tab.select_entry(0);
    assert_eq!(tab.selected_entry(), None);
    assert!(tab.can_scan());
    tab.click_type("T");
    let next = tab.scan_defs();
    assert_eq!(tab.defs.len(), 2);
    assert_eq!(tab.selected_def_type, Some("T".to_string()));
    assert!(tab.finish_scan(next, vec![]));
    assert!(tab.defs.is_empty());
    assert_eq!(tab.selected_def_type, None);
    assert_eq!(
        tab.status,
        BrowserStatus::Done { types: 0, total: 0, files_with_defs: 0, files_without_defs: 0 }
    );
}

#[test]
fn entry_must_stand_directly_inside_the_wrapper() {
    let doc = "<Defs><Group><ADef><defName>deep</defName></ADef></Group><BDef><defName>top</defName>\
               <Defs><CDef><defName>inner</defName></CDef></Defs></BDef></Defs>";
    let entries = parse_defs_from_file(doc, "f");
    assert_eq!(entries.len(), 1);
    assert_eq!(entries[0].def_type, "BDef");
    assert_eq!(entries[0].def_name, "inner");
    assert_eq!(
        entries[0].xml_content,
        "<BDef>\n  <defName>top</defName>\n  <Defs>\n    <CDef>\n      <defName>inner</defName>\n    \
         </CDef>\n  </Defs>\n</BDef>\n"
    );
}
