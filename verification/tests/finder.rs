use def_resolver::finder::{comma_separated, SearchResult, SearchStatus, TagFinderTab};
use def_resolver::xml_parser::{collect_values, extract_tag_values, mark_events, TagMark};
use def_resolver::event::{parse_events, XmlEvent};

fn strings(values: &[&str]) -> Vec<String> {
    values.iter().map(|v| v.to_string()).collect()
}

#[test]
fn values_under_a_tag_and_its_list_items() {
    let doc = "<Defs><ThingDef><label>steel</label><tags><li>metal</li><li> hard </li><li>metal</li></tags>\
               <other><li>no</li></other></ThingDef><ThingDef><tags>single</tags></ThingDef></Defs>";
    assert_eq!(extract_tag_values(doc, "tags"), strings(&["metal", "hard", "single"]));
    assert_eq!(extract_tag_values(doc, "label"), strings(&["steel"]));
    assert_eq!(extract_tag_values(doc, "missing"), Vec::<String>::new());
}

#[test]
fn tag_is_matched_whatever_its_case() {
    let doc = "<a><Label>one</Label><x>out</x><LABEL>two</LABEL><label>one</label></a>";
    assert_eq!(extract_tag_values(doc, "label"), strings(&["one", "two"]));
    assert_eq!(extract_tag_values(doc, "LaBeL"), strings(&["one", "two"]));
}

#[test]
fn text_counts_directly_inside_the_tag_and_inside_its_list_items() {
    let doc = "<t>direct<sub>nested<deep>deeper</deep></sub><li>item<b>bold</b></li>tail</t>\
               <li>outside</li>after";
    assert_eq!(extract_tag_values(doc, "t"), strings(&["direct", "item", "bold", "tail"]));
    let doc = "<t><a><t>inner</t>lost</a>also lost</t>";
    assert_eq!(extract_tag_values(doc, "t"), strings(&["inner"]));
    let doc = "<t><a><li>far item</li></a><c/>near</t>";
    assert_eq!(extract_tag_values(doc, "t"), strings(&["far item", "near"]));
}

#[test]
fn list_item_flag_outlives_its_tag_only_until_an_item_ends() {
    let doc = "<t><li>a</t>b<li>c</li>d";
    let events = vec![
        XmlEvent::Start { name: "t".to_string(), attributes: vec![] },
        XmlEvent::Start { name: "li".to_string(), attributes: vec![] },
        XmlEvent::Text { text: Some("a".to_string()) },
        XmlEvent::End { name: "t".to_string() },
        XmlEvent::Text { text: Some("b".to_string()) },
        XmlEvent::Start { name: "li".to_string(), attributes: vec![] },
        XmlEvent::Text { text: Some("c".to_string()) },
        XmlEvent::End { name: "li".to_string() },
        XmlEvent::Text { text: Some("d".to_string()) },
    ];
    let marks = mark_events(&events, "T");
    assert_eq!(
        marks,
        vec![
            TagMark::EnterTarget,
            TagMark::EnterItem,
            TagMark::Text("a".to_string()),
            TagMark::LeaveTarget,
            TagMark::Text("b".to_string()),
            TagMark::EnterItem,
            TagMark::Text("c".to_string()),
            TagMark::LeaveItem,
            TagMark::Text("d".to_string()),
        ]
    );
    assert_eq!(collect_values(&marks), strings(&["a", "b", "c"]));
    let marks = vec![
        TagMark::EnterOther,
        TagMark::Text("before".to_string()),
        TagMark::EnterTarget,
        TagMark::LeaveOther,
        TagMark::Text("direct".to_string()),
        TagMark::EnterOther,
        TagMark::Text("nested".to_string()),
        TagMark::EnterItem,
        TagMark::LeaveOther,
        TagMark::Text("item".to_string()),
        TagMark::LeaveItem,
        TagMark::Text("again direct".to_string()),
    ];
    assert_eq!(collect_values(&marks), strings(&["direct", "item", "again direct"]));
    assert_eq!(parse_events(doc).len(), 3);
}

#[test]
fn empty_and_failed_text_is_no_value() {
    let events = vec![
        XmlEvent::Start { name: "t".to_string(), attributes: vec![] },
        XmlEvent::Text { text: Some(String::new()) },
        XmlEvent::Text { text: None },
        XmlEvent::Empty { name: "t".to_string(), attributes: vec![] },
        XmlEvent::Other,
        XmlEvent::Text { text: Some("v".to_string()) },
    ];
    assert_eq!(collect_values(&mark_events(&events, "t")), strings(&["v"]));
}

#[test]
fn search_result_is_sorted_and_unique() {
    let per_file = vec![strings(&["b", "a", "b"]), vec![], strings(&["c", "a", "B", "é", "ab"])];
    let result = SearchResult::collect(&per_file, 7);
    assert_eq!(result.values, strings(&["B", "a", "ab", "b", "c", "é"]));
    assert_eq!(result.xml_count, 7);
    let mut expected: Vec<String> = per_file.concat();
    expected.sort();
    expected.dedup();
    assert_eq!(result.values, expected);
    assert_eq!(SearchResult::collect(&Vec::new(), 0), SearchResult { values: vec![], xml_count: 0 });
}

#[test]
fn search_is_refused_in_the_order_of_the_checks() {
    let mut tab = TagFinderTab::new();
    assert_eq!(tab.status, SearchStatus::Idle);
    assert!(tab.search_xml_files(false).is_none());
    assert_eq!(tab.status, SearchStatus::MissingTagName);
    tab.tag_name = "tags".to_string();
    assert!(tab.search_xml_files(false).is_none());
    assert_eq!(tab.status, SearchStatus::MissingPath);
    tab.search_path = "/data".to_string();
    assert!(tab.search_xml_files(false).is_none());
    assert_eq!(tab.status, SearchStatus::PathNotFound);
    assert!(!tab.is_searching);
    let request = tab.search_xml_files(true).unwrap();
    assert_eq!(request.tag_name, "tags");
    assert_eq!(request.path, "/data");
    assert_eq!(request.ticket, 4);
    assert_eq!(tab.status, SearchStatus::Searching);
    assert!(tab.is_searching);
    assert!(tab.is_current(request.ticket));
}

#[test]
fn scan_cancellation() {
    let mut tab = TagFinderTab::new();
    tab.tag_name = "tags".to_string();
    tab.search_path = "/data".to_string();
    let first = tab.search_xml_files(true).unwrap();
    let second = tab.search_xml_files(true).unwrap();
    assert!(!tab.is_current(first.ticket));
    assert!(tab.is_current(second.ticket));
    let stale = SearchResult { values: strings(&["stale"]), xml_count: 1 };
    assert!(!tab.check_search_results(first.ticket, stale));
    assert!(tab.results.is_empty());
    assert_eq!(tab.status, SearchStatus::Searching);
    assert!(tab.is_searching);
    let fresh = SearchResult { values: strings(&["a", "b"]), xml_count: 3 };
    assert!(tab.check_search_results(second.ticket, fresh.clone()));
    assert_eq!(tab.results, strings(&["a", "b"]));
    assert_eq!(tab.status, SearchStatus::Done { xml_count: 3, unique: 2 });
    assert!(!tab.is_searching);
    assert!(!tab.check_search_results(second.ticket, fresh));
}

#[test]
fn refused_search_cancels_the_one_before() {
    let mut tab = TagFinderTab::new();
    tab.tag_name = "tags".to_string();
    tab.search_path = "/data".to_string();
    let first = tab.search_xml_files(true).unwrap();
    tab.tag_name = String::new();
    assert!(tab.search_xml_files(true).is_none());
    assert!(!tab.check_search_results(first.ticket, SearchResult { values: strings(&["x"]), xml_count: 1 }));
    assert!(tab.results.is_empty());
    assert_eq!(tab.status, SearchStatus::MissingTagName);
}

#[test]
fn new_search_clears_old_results() {
    let mut tab = TagFinderTab::new();
    tab.tag_name = "tags".to_string();
    tab.search_path = "/data".to_string();
    let first = tab.search_xml_files(true).unwrap();
    assert!(tab.check_search_results(first.ticket, SearchResult { values: strings(&["x"]), xml_count: 1 }));
    assert_eq!(tab.results, strings(&["x"]));
    assert!(tab.can_search());
    tab.search_xml_files(true).unwrap();
    assert!(tab.results.is_empty());
    assert_eq!(tab.current_ticket(), 2);
}

#[test]
fn settings_and_typing_ask_for_searches() {
    let mut tab = TagFinderTab::new();
    assert!(!tab.sync_settings(""));
    assert!(!tab.initialized);
    assert!(!tab.sync_settings("/data"));
    assert!(tab.initialized);
    assert_eq!(tab.search_path, "/data");
    assert_eq!(tab.last_search_path, "/data");
    tab.tag_name = "tags".to_string();
    assert!(!tab.sync_settings("/data"));
    assert!(tab.sync_settings("/other"));
    assert!(!tab.sync_settings(""));
    assert_eq!(tab.search_path, "");
    assert!(!tab.tag_name_edited());
    assert_eq!(tab.last_tag_name, "tags");
    tab.sync_settings("/data");
    assert!(!tab.tag_name_edited());
    tab.tag_name = "label".to_string();
    assert!(tab.tag_name_edited());
    tab.tag_name = String::new();
    assert!(!tab.tag_name_edited());
    assert_eq!(tab.last_tag_name, "");
}

#[test]
fn shown_line_of_values() {
    assert_eq!(comma_separated(&strings(&[]), 100), "");
    assert_eq!(comma_separated(&strings(&["a"]), 100), "a");
    assert_eq!(comma_separated(&strings(&["a", "b", "c"]), 100), "a, b, c");
    assert_eq!(comma_separated(&strings(&["a", "b", "c"]), 3), "a, b, c");
    assert_eq!(comma_separated(&strings(&["a", "b", "c"]), 2), "a, b, ...");
    assert_eq!(comma_separated(&strings(&["a", "b", "c"]), 0), ", ...");
    let many: Vec<String> = (0..150).map(|i| format!("v{}", i)).collect();
    let line = comma_separated(&many, 100);
    assert!(line.starts_with("v0, v1, "));
    assert!(line.ends_with("v99, ..."));
}

#[test]
fn turnstile_hears_the_newest_scan_once() {
    let mut turnstile = def_resolver::scan::Turnstile::new();
    assert!(turnstile.can_begin());
    assert!(!turnstile.is_current(0));
    assert!(!turnstile.arrive(0));
    let first = turnstile.begin();
    assert_eq!(first, 1);
    assert_eq!(turnstile.current_ticket(), 1);
    assert!(turnstile.is_current(first));
    turnstile.cancel();
    assert!(!turnstile.is_current(first));
    assert!(!turnstile.is_current(turnstile.current_ticket()));
    let second = turnstile.begin();
    assert_eq!(second, 3);
    assert!(!turnstile.arrive(first));
    assert!(turnstile.arrive(second));
    assert!(!turnstile.arrive(second));
}
