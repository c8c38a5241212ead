use def_resolver::extract::DefData;
use def_resolver::inheritance::{InheritanceStatus, InheritanceTab, ResolveError};
use def_resolver::node::XmlNode;
use def_resolver::settings::{AppSettings, SettingsStatus, SettingsTab};

fn def(name: &str, parent_name: Option<&str>, label: &str) -> DefData {
    DefData {
        def_name: name.to_string(),
        parent_name: parent_name.map(|p| p.to_string()),
        file_path: String::new(),
        is_abstract: name.starts_with("Base"),
        def_type: "ThingDef".to_string(),
        raw_nodes: vec![XmlNode {
            tag: "label".to_string(),
            attributes: vec![],
            children: vec![],
            text: Some(label.to_string()),
        }],
    }
}

#[test]
fn settings_default_is_empty() {
    assert_eq!(AppSettings::default().base_path, "");
    let settings = AppSettings { base_path: "/data".to_string() };
    assert_eq!(settings.duplicate(), settings);
}

#[test]
fn settings_page() {
    let mut tab = SettingsTab::new(AppSettings { base_path: "/data".to_string() });
    assert_eq!(tab.settings.base_path, "/data");
    assert_eq!(tab.status, SettingsStatus::Idle);
    assert!(!tab.set_base_path("/data".to_string()));
    assert_eq!(tab.status, SettingsStatus::Idle);
    assert!(tab.set_base_path("/other".to_string()));
    assert_eq!(tab.settings.base_path, "/other");
    assert_eq!(tab.status, SettingsStatus::Saved);
    tab.reset();
    assert_eq!(tab.settings, AppSettings::default());
    assert_eq!(tab.status, SettingsStatus::Reset);
    tab.save();
    assert_eq!(tab.status, SettingsStatus::Saved);
    assert_eq!(tab.settings.base_path, "");
}

#[test]
fn inheritance_page_scans_and_shows() {
    let mut tab = InheritanceTab::default();
    assert_eq!(tab.status, InheritanceStatus::Idle);
    assert!(tab.can_scan());
    let ticket = tab.scan_all_defs();
    assert!(tab.is_current(ticket));
    assert!(tab.is_loading);
    assert_eq!(tab.status, InheritanceStatus::Scanning);
    tab.files_found(2);
    assert_eq!(tab.status, InheritanceStatus::Parsing { files: 2 });
    let published = tab.finish_scan(
        ticket,
        vec![
            vec![def("SteelWall", Some("Wall"), "first"), def("Wall", Some("BaseWall"), "wall")],
            vec![def("BaseWall", None, "base")],
            vec![def("SteelWall", Some("Wall"), "second"), def("Loop", Some("Loop"), "loop")],
            vec![],
            vec![],
        ],
    );
    assert!(published);
    assert!(!tab.is_current(ticket));
    assert!(!tab.is_loading);
    assert_eq!(
        tab.status,
        InheritanceStatus::Done { defs: 4, types: 1, files_with_defs: 3, files_without_defs: 2 }
    );
    assert_eq!(tab.filtered_defs(), vec!["SteelWall".to_string(), "Wall".to_string(), "Loop".to_string()]);
    tab.search_query = "WALL".to_string();
    assert_eq!(tab.filtered_defs(), vec!["SteelWall".to_string(), "Wall".to_string()]);
    tab.search_query = "lw".to_string();
    assert_eq!(tab.filtered_defs(), vec!["SteelWall".to_string()]);
    tab.search_query = "none".to_string();
    assert!(tab.filtered_defs().is_empty());

    tab.select("SteelWall");
    assert_eq!(tab.selected_def_name, "SteelWall");
    assert_eq!(
        tab.inheritance_chain,
        vec!["BaseWall".to_string(), "Wall".to_string(), "SteelWall".to_string()]
    );
    assert_eq!(tab.all_defs.names().len(), 4);
    assert!(tab.all_defs.records()[2].is_abstract);
    assert_eq!(tab.expanded_xml, "<ThingDef>\n  <defName>SteelWall</defName>\n  <label>second</label>\n</ThingDef>\n");
    assert_eq!(tab.failure, None);

    tab.select("Loop");
    assert_eq!(tab.failure, Some(ResolveError::CycleDetected));
    assert!(tab.inheritance_chain.is_empty());
    assert_eq!(tab.expanded_xml, "");

    tab.select("Unknown");
    assert_eq!(tab.failure, None);
    assert!(tab.inheritance_chain.is_empty());
    assert_eq!(tab.expanded_xml, "");

    tab.select("Wall");
    assert!(!tab.expanded_xml.is_empty());
    tab.select("BaseWall");
    assert_eq!(tab.selected_def_name, "BaseWall");
    assert_eq!(tab.failure, None);
    assert!(tab.inheritance_chain.is_empty());
    assert_eq!(tab.expanded_xml, "");

    tab.select("Wall");
    tab.query_changed();
    assert_eq!(tab.selected_def_name, "");
    assert!(tab.inheritance_chain.is_empty());
    assert_eq!(tab.expanded_xml, "");

    tab.selected_def_name = "Wall".to_string();
    tab.expand_inheritance();
    assert_eq!(tab.inheritance_chain, vec!["BaseWall".to_string(), "Wall".to_string()]);
    let next = tab.scan_all_defs();
    assert_eq!(tab.all_defs.len(), 4);
    assert_eq!(tab.selected_def_name, "Wall");
    let mut other = def("Other", None, "x");
    other.def_type = "RecipeDef".to_string();
    let mut third = def("Third", None, "y");
    third.def_type = "ThingDef".to_string();
    assert!(tab.finish_scan(next, vec![vec![def("Only", None, "o"), other], vec![third]]));
    assert_eq!(
        tab.status,
        InheritanceStatus::Done { defs: 3, types: 2, files_with_defs: 2, files_without_defs: 0 }
    );
    assert_eq!(tab.all_defs.types(), vec!["ThingDef".to_string(), "RecipeDef".to_string()]);
    let last = tab.scan_all_defs();
    assert!(tab.finish_scan(last, vec![vec![def("Only", None, "o")]]));
    assert_eq!(tab.all_defs.names(), vec!["Only".to_string()]);
    assert_eq!(tab.selected_def_name, "");
    assert!(tab.inheritance_chain.is_empty());
    assert_eq!(tab.expanded_xml, "");
}

#[test]
fn superseded_scan_never_reaches_the_index() {
    let mut tab = InheritanceTab::default();
    let first = tab.scan_all_defs();
    let second = tab.scan_all_defs();
    assert!(!tab.is_current(first));
    assert!(!tab.finish_scan(first, vec![vec![def("Stale", None, "s")]]));
    assert_eq!(tab.all_defs.len(), 0);
    assert!(!tab.all_defs.contains("Stale"));
    assert!(tab.is_loading);
    assert_eq!(tab.status, InheritanceStatus::Scanning);
    assert!(tab.finish_scan(second, vec![vec![def("Fresh", None, "f")]]));
    assert_eq!(tab.all_defs.names(), vec!["Fresh".to_string()]);
    assert!(!tab.finish_scan(first, vec![vec![def("Stale", None, "s")]]));
    assert!(!tab.finish_scan(second, vec![vec![def("Again", None, "a")]]));
    assert_eq!(tab.all_defs.names(), vec!["Fresh".to_string()]);
}
