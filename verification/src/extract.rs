//! From the events of one document to its definition records.

use crate::event::{events_view, parse_events, xml_events, EventView, XmlEvent};
use crate::node::{
    attributes_view, clone_attributes, clone_nodes, clone_text, lemma_children_view, nodes_view,
    text_view, Node, XmlNode,
};
use crate::text::{ends_with, str_equal};
use vstd::prelude::*;

verus! {

/// One top-level definition.
#[derive(Debug, Clone, PartialEq, Eq)]
pub struct DefData {
    /// The key of the record: its `Name` attribute, or else the text of its
    /// `defName` child.
    pub def_name: String,
    /// The record that this one inherits from, by its name.
    pub parent_name: Option<String>,
    /// Where the record was read from.
    pub file_path: String,
    /// A template, which stands only as an ancestor of other records.
    pub is_abstract: bool,
    /// The tag of the record's root element.
    pub def_type: String,
    /// The children of the root element, in document order.
    pub raw_nodes: Vec<XmlNode>,
}

/// The mathematical value of a [`DefData`].
pub struct DefView {
    pub def_name: Seq<char>,
    pub parent_name: Option<Seq<char>>,
    pub file_path: Seq<char>,
    pub is_abstract: bool,
    pub def_type: Seq<char>,
    pub raw_nodes: Seq<Node>,
}

impl View for DefData {
    type V = DefView;

    open spec fn view(&self) -> DefView {
        DefView {
            def_name: self.def_name@,
            parent_name: text_view(self.parent_name),
            file_path: self.file_path@,
            is_abstract: self.is_abstract,
            def_type: self.def_type@,
            raw_nodes: nodes_view(self.raw_nodes@),
        }
    }
}

/// The values of a list of records.
pub open spec fn defs_view(defs: Seq<DefData>) -> Seq<DefView> {
    defs.map_values(|d: DefData| d@)
}

/// A copy of a record.
pub fn clone_def(def: &DefData) -> (copy: DefData)
    ensures
        copy@ == def@,
{
    DefData {
        def_name: def.def_name.clone(),
        parent_name: clone_text(&def.parent_name),
        file_path: def.file_path.clone(),
        is_abstract: def.is_abstract,
        def_type: def.def_type.clone(),
        raw_nodes: clone_nodes(&def.raw_nodes),
    }
}

/// The value that the last attribute named `key` holds.
pub open spec fn last_value(attributes: Seq<(Seq<char>, Seq<char>)>, key: Seq<char>) -> Option<
    Seq<char>,
>
    decreases attributes.len(),
{
    if attributes.len() == 0 {
        None
    } else if attributes.last().0 == key {
        Some(attributes.last().1)
    } else {
        last_value(attributes.drop_last(), key)
    }
}

/// Whether the attributes mark a record as abstract: `Abstract="True"`.
pub open spec fn marks_abstract(attributes: Seq<(Seq<char>, Seq<char>)>) -> bool {
    exists|i: int|
        0 <= i < attributes.len() && (#[trigger] attributes[i]).0 == "Abstract"@ && attributes[i].1
            == "True"@
}

/// The parent that the attributes of a record's root name: the value of the
/// last `ParentName`.
pub open spec fn named_parent(attributes: Seq<(Seq<char>, Seq<char>)>) -> Option<Seq<char>> {
    last_value(attributes, "ParentName"@)
}

/// The name that the attributes of a record's root give it.
pub open spec fn named_by_attribute(attributes: Seq<(Seq<char>, Seq<char>)>) -> Option<
    Seq<char>,
> {
    last_value(attributes, "Name"@)
}

/// A tag that is shaped like a definition: it ends in `Def`.
pub open spec fn def_shaped(name: Seq<char>) -> bool {
    "Def"@.is_suffix_of(name)
}

/// What the extractor knows in the middle of a document.
pub struct ExtractState {
    /// The wrapper element `Defs` has been entered and not left.
    pub inside_defs: bool,
    /// How many elements are open inside the wrapper and outside any record:
    /// 0 directly inside the wrapper.
    pub skipped: nat,
    /// How many elements of the current record are open, its root included;
    /// 0 outside a record.
    pub depth: nat,
    /// The tag of the current record's root.
    pub def_type: Seq<char>,
    /// The name of the current record, once it is known.
    pub def_name: Option<Seq<char>>,
    /// The parent that the current record names.
    pub parent_name: Option<Seq<char>>,
    /// Whether the current record is abstract.
    pub is_abstract: bool,
    /// The open elements below the record's root, outermost first, each with
    /// the children it has got so far.
    pub stack: Seq<Node>,
    /// The finished children of the record's root.
    pub roots: Seq<Node>,
    /// The records that are complete.
    pub records: Seq<DefView>,
}

/// The state before the first event.
pub open spec fn initial_state() -> ExtractState {
    ExtractState {
        inside_defs: false,
        skipped: 0,
        depth: 0,
        def_type: Seq::empty(),
        def_name: None,
        parent_name: None,
        is_abstract: false,
        stack: Seq::empty(),
        roots: Seq::empty(),
        records: Seq::empty(),
    }
}

/// A node that has just been opened.
pub open spec fn fresh_node(name: Seq<char>, attributes: Seq<(Seq<char>, Seq<char>)>) -> Node {
    Node { tag: name, attributes, children: Seq::empty(), text: None }
}

/// `child` as one more child of `parent`.
pub open spec fn with_child(parent: Node, child: Node) -> Node {
    Node { children: parent.children.push(child), ..parent }
}

/// A finished node goes to the element that is open around it, or to the
/// record's root where none is.
pub open spec fn attach(s: ExtractState, node: Node) -> ExtractState {
    if s.stack.len() > 0 {
        ExtractState {
            stack: s.stack.drop_last().push(with_child(s.stack.last(), node)),
            ..s
        }
    } else {
        ExtractState { roots: s.roots.push(node), ..s }
    }
}

/// The start of an element. Inside a record it opens an ordinary node,
/// whatever its name. Outside, `Defs` opens the wrapper, and a tag shaped
/// like a definition that stands directly inside the wrapper opens a record.
/// Any other element inside the wrapper is passed over with all that is in
/// it.
pub open spec fn on_start(
    s: ExtractState,
    name: Seq<char>,
    attributes: Seq<(Seq<char>, Seq<char>)>,
) -> ExtractState {
    if s.depth > 0 {
        ExtractState {
            depth: s.depth + 1,
            stack: s.stack.push(fresh_node(name, attributes)),
            ..s
        }
    } else if name == "Defs"@ {
        ExtractState { inside_defs: true, skipped: 0, ..s }
    } else if s.inside_defs && s.skipped == 0 && def_shaped(name) {
        ExtractState {
            depth: 1,
            def_type: name,
            def_name: named_by_attribute(attributes),
            parent_name: named_parent(attributes),
            is_abstract: marks_abstract(attributes),
            stack: Seq::empty(),
            roots: Seq::empty(),
            ..s
        }
    } else if s.inside_defs {
        ExtractState { skipped: s.skipped + 1, ..s }
    } else {
        s
    }
}

/// An element without content, inside a record: a finished node.
pub open spec fn on_empty(
    s: ExtractState,
    name: Seq<char>,
    attributes: Seq<(Seq<char>, Seq<char>)>,
) -> ExtractState {
    if s.depth > 0 {
        attach(s, fresh_node(name, attributes))
    } else {
        s
    }
}

/// Text inside an open node of a record becomes the node's text, unless it
/// is empty or could not be unescaped. In a node named `defName` it also
/// names the record, unless the record has a name already.
pub open spec fn on_text(s: ExtractState, text: Option<Seq<char>>) -> ExtractState {
    if s.depth > 0 && s.stack.len() > 0 && text is Some && text->0.len() > 0 {
        let open = s.stack.last();
        ExtractState {
            def_name: if open.tag == "defName"@ && s.def_name is None {
                text
            } else {
                s.def_name
            },
            stack: s.stack.drop_last().push(Node { text, ..open }),
            ..s
        }
    } else {
        s
    }
}

/// The record that is complete when its root is closed.
pub open spec fn finished_record(s: ExtractState, name: Seq<char>, path: Seq<char>) -> DefView {
    DefView {
        def_name: name,
        parent_name: s.parent_name,
        file_path: path,
        is_abstract: s.is_abstract,
        def_type: s.def_type,
        raw_nodes: s.roots,
    }
}

/// The end of an element. At depth 1 a tag shaped like a definition closes
/// the record, which is kept if it has a name. Any other end inside a record
/// closes the innermost open node. Outside a record, `Defs` closes the
/// wrapper, and any other end closes an element that was passed over.
pub open spec fn on_end(s: ExtractState, name: Seq<char>, path: Seq<char>) -> ExtractState {
    if s.depth == 1 && def_shaped(name) {
        ExtractState {
            depth: 0,
            records: match s.def_name {
                Some(n) => s.records.push(finished_record(s, n, path)),
                None => s.records,
            },
            ..s
        }
    } else if s.depth > 0 {
        let lower = ExtractState { depth: (s.depth - 1) as nat, ..s };
        if s.stack.len() > 0 {
            attach(ExtractState { stack: s.stack.drop_last(), ..lower }, s.stack.last())
        } else {
            lower
        }
    } else if name == "Defs"@ {
        ExtractState { inside_defs: false, skipped: 0, ..s }
    } else if s.inside_defs && s.skipped > 0 {
        ExtractState { skipped: (s.skipped - 1) as nat, ..s }
    } else {
        s
    }
}

/// The state after one more event of the document at `path`.
pub open spec fn step(s: ExtractState, event: EventView, path: Seq<char>) -> ExtractState {
    match event {
        EventView::Start { name, attributes } => on_start(s, name, attributes),
        EventView::Empty { name, attributes } => on_empty(s, name, attributes),
        EventView::Text { text } => on_text(s, text),
        EventView::End { name } => on_end(s, name, path),
        EventView::Other => s,
    }
}

/// The state after a run of events.
pub open spec fn run(s: ExtractState, events: Seq<EventView>, path: Seq<char>) -> ExtractState
    decreases events.len(),
{
    if events.len() == 0 {
        s
    } else {
        step(run(s, events.drop_last(), path), events.last(), path)
    }
}

/// The records of a document, given by its events.
pub open spec fn extracted(events: Seq<EventView>, path: Seq<char>) -> Seq<DefView> {
    run(initial_state(), events, path).records
}

/// The extractor at work on one document.
struct Extractor {
    inside_defs: bool,
    skipped: usize,
    depth: usize,
    def_type: String,
    def_name: Option<String>,
    parent_name: Option<String>,
    is_abstract: bool,
    stack: Vec<XmlNode>,
    roots: Vec<XmlNode>,
    records: Vec<DefData>,
}

impl View for Extractor {
    type V = ExtractState;

    closed spec fn view(&self) -> ExtractState {
        ExtractState {
            inside_defs: self.inside_defs,
            skipped: self.skipped as nat,
            depth: self.depth as nat,
            def_type: self.def_type@,
            def_name: text_view(self.def_name),
            parent_name: text_view(self.parent_name),
            is_abstract: self.is_abstract,
            stack: nodes_view(self.stack@),
            roots: nodes_view(self.roots@),
            records: defs_view(self.records@),
        }
    }
}

/// Looks through the attributes of a record's root.
fn read_root_attributes(attributes: &Vec<(String, String)>) -> (found: (
    bool,
    Option<String>,
    Option<String>,
))
    ensures
        found.0 == marks_abstract(attributes_view(attributes@)),
        text_view(found.1) == named_parent(attributes_view(attributes@)),
        text_view(found.2) == named_by_attribute(attributes_view(attributes@)),
{
    let ghost all = attributes_view(attributes@);
    let mut is_abstract = false;
    let mut parent: Option<String> = None;
    let mut name: Option<String> = None;
    let mut i: usize = 0;
    assert(all.take(0) =~= Seq::empty());
    while i < attributes.len()
        invariant
            i <= attributes.len(),
            all == attributes_view(attributes@),
            is_abstract == marks_abstract(all.take(i as int)),
            text_view(parent) == last_value(all.take(i as int), "ParentName"@),
            text_view(name) == last_value(all.take(i as int), "Name"@),
        decreases attributes.len() - i,
    {
        let ghost before = all.take(i as int);
        let ghost upto = all.take(i + 1);
        assert(upto.drop_last() =~= before);
        assert(upto.last() == all[i as int]);
        let key = attributes[i].0.as_str();
        let value = &attributes[i].1;
        let abstract_here = str_equal(key, "Abstract") && str_equal(value.as_str(), "True");
        proof {
            if marks_abstract(before) {
                let k = choose|k: int|
                    0 <= k < before.len() && (#[trigger] before[k]).0 == "Abstract"@ && before[k].1
                        == "True"@;
                assert(upto[k] == before[k]);
            }
            if abstract_here {
                assert(upto[i as int].0 == "Abstract"@ && upto[i as int].1 == "True"@);
            }
            if marks_abstract(upto) {
                let k = choose|k: int|
                    0 <= k < upto.len() && (#[trigger] upto[k]).0 == "Abstract"@ && upto[k].1
                        == "True"@;
                if k < i {
                    assert(before[k] == upto[k]);
                }
            }
        }
        if abstract_here {
            is_abstract = true;
        }
        if str_equal(key, "ParentName") {
            parent = Some(value.clone());
        }
        if str_equal(key, "Name") {
            name = Some(value.clone());
        }
        i += 1;
    }
    assert(all.take(attributes.len() as int) =~= all);
    (is_abstract, parent, name)
}

impl Extractor {
    fn new() -> (e: Extractor)
        ensures
            e@ == initial_state(),
    {
        let e = Extractor {
            inside_defs: false,
            skipped: 0,
            depth: 0,
            def_type: String::new(),
            def_name: None,
            parent_name: None,
            is_abstract: false,
            stack: Vec::new(),
            roots: Vec::new(),
            records: Vec::new(),
        };
        assert(e@.stack =~= Seq::empty());
        assert(e@.roots =~= Seq::empty());
        assert(e@.records =~= Seq::empty());
        e
    }

    fn attach(&mut self, node: XmlNode)
        ensures
            final(self)@ == attach(old(self)@, node@),
    {
        broadcast use lemma_children_view;

        let ghost before = self.stack@;
        match self.stack.pop() {
            Some(mut parent) => {
                let ghost was = parent;
                parent.children.push(node);
                assert(nodes_view(parent.children@) =~= nodes_view(was.children@).push(node@));
                assert(parent@ == with_child(was@, node@));
                self.stack.push(parent);
                assert(nodes_view(self.stack@) =~= nodes_view(before).drop_last().push(
                    with_child(nodes_view(before).last(), node@),
                ));
            },
            None => {
                let ghost roots = self.roots@;
                self.roots.push(node);
                assert(nodes_view(self.roots@) =~= nodes_view(roots).push(node@));
                assert(nodes_view(self.stack@) =~= nodes_view(before));
            },
        }
    }

    fn on_start(&mut self, name: &String, attributes: &Vec<(String, String)>)
        requires
            old(self).depth < usize::MAX,
            old(self).skipped < usize::MAX,
        ensures
            final(self)@ == on_start(old(self)@, name@, attributes_view(attributes@)),
            final(self).depth + final(self).skipped <= old(self).depth + old(self).skipped + 1,
    {
        if self.depth > 0 {
            let ghost before = self.stack@;
            let node = XmlNode {
                tag: name.clone(),
                attributes: clone_attributes(attributes),
                children: Vec::new(),
                text: None,
            };
            proof {
                lemma_children_view(node);
                assert(node@.children =~= Seq::empty());
            }
            self.depth = self.depth + 1;
            self.stack.push(node);
            assert(nodes_view(self.stack@) =~= nodes_view(before).push(node@));
        } else if str_equal(name.as_str(), "Defs") {
            self.inside_defs = true;
            self.skipped = 0;
        } else if self.inside_defs && self.skipped == 0 && ends_with(name.as_str(), "Def") {
            let found = read_root_attributes(attributes);
            self.depth = 1;
            self.def_type = name.clone();
            self.is_abstract = found.0;
            self.parent_name = found.1;
            self.def_name = found.2;
            self.stack = Vec::new();
            self.roots = Vec::new();
            assert(nodes_view(self.stack@) =~= Seq::empty());
            assert(nodes_view(self.roots@) =~= Seq::empty());
        } else if self.inside_defs {
            self.skipped = self.skipped + 1;
        }
    }

    fn on_empty(&mut self, name: &String, attributes: &Vec<(String, String)>)
        ensures
            final(self)@ == on_empty(old(self)@, name@, attributes_view(attributes@)),
    {
        if self.depth > 0 {
            let node = XmlNode {
                tag: name.clone(),
                attributes: clone_attributes(attributes),
                children: Vec::new(),
                text: None,
            };
            proof {
                lemma_children_view(node);
                assert(node@.children =~= Seq::empty());
            }
            self.attach(node);
        }
    }

    fn on_text(&mut self, text: &Option<String>)
        ensures
            final(self)@ == on_text(old(self)@, text_view(*text)),
    {
        broadcast use lemma_children_view;

        if self.depth == 0 {
            return ;
        }
        let t = match text {
            Some(t) => t,
            None => {
                return ;
            },
        };
        if t.as_str().is_empty() {
            return ;
        }
        let ghost before = self.stack@;
        match self.stack.pop() {
            Some(mut open) => {
                let ghost was = open;
                if str_equal(open.tag.as_str(), "defName") && self.def_name.is_none() {
                    self.def_name = Some(t.clone());
                }
                open.text = Some(t.clone());
                assert(open@ == Node { text: text_view(*text), ..was@ });
                self.stack.push(open);
                assert(nodes_view(self.stack@) =~= nodes_view(before).drop_last().push(
                    Node { text: text_view(*text), ..nodes_view(before).last() },
                ));
            },
            None => {
                assert(nodes_view(self.stack@) =~= nodes_view(before));
            },
        }
    }

    fn on_end(&mut self, name: &String, path: &str)
        ensures
            final(self)@ == on_end(old(self)@, name@, path@),
            final(self).depth + final(self).skipped <= old(self).depth + old(self).skipped,
    {
        if self.depth == 1 && ends_with(name.as_str(), "Def") {
            self.depth = 0;
            let ghost before = self.records@;
            let ghost s = old(self)@;
            match &self.def_name {
                Some(n) => {
                    let record = DefData {
                        def_name: n.clone(),
                        parent_name: clone_text(&self.parent_name),
                        file_path: path.to_owned(),
                        is_abstract: self.is_abstract,
                        def_type: self.def_type.clone(),
                        raw_nodes: clone_nodes(&self.roots),
                    };
                    assert(record@ == finished_record(s, n@, path@));
                    self.records.push(record);
                    assert(defs_view(self.records@) =~= defs_view(before).push(record@));
                },
                None => {},
            }
        } else if self.depth > 0 {
            self.depth = self.depth - 1;
            let ghost before = self.stack@;
            match self.stack.pop() {
                Some(done) => {
                    assert(nodes_view(self.stack@) =~= nodes_view(before).drop_last());
                    assert(done@ == nodes_view(before).last());
                    self.attach(done);
                },
                None => {
                    assert(nodes_view(self.stack@) =~= nodes_view(before));
                },
            }
        } else if str_equal(name.as_str(), "Defs") {
            self.inside_defs = false;
            self.skipped = 0;
        } else if self.inside_defs && self.skipped > 0 {
            self.skipped = self.skipped - 1;
        }
    }

    fn step(&mut self, event: &XmlEvent, path: &str)
        requires
            old(self).depth < usize::MAX,
            old(self).skipped < usize::MAX,
        ensures
            final(self)@ == step(old(self)@, event@, path@),
            final(self).depth + final(self).skipped <= old(self).depth + old(self).skipped + 1,
    {
        match event {
            XmlEvent::Start { name, attributes } => self.on_start(name, attributes),
            XmlEvent::Empty { name, attributes } => self.on_empty(name, attributes),
            XmlEvent::Text { text } => self.on_text(text),
            XmlEvent::End { name } => self.on_end(name, path),
            XmlEvent::Other => {},
        }
    }
}

/// The definition records among the events of one document, in the order in
/// which they are closed. `file_path` is noted in each.
pub fn extract_defs(events: &Vec<XmlEvent>, file_path: &str) -> (defs: Vec<DefData>)
    ensures
        defs_view(defs@) == extracted(events_view(events@), file_path@),
{
    let ghost all = events_view(events@);
    let mut state = Extractor::new();
    let mut i: usize = 0;
    assert(all.take(0) =~= Seq::empty());
    while i < events.len()
        invariant
            i <= events.len(),
            all == events_view(events@),
            state.depth + state.skipped <= i,
            state@ == run(initial_state(), all.take(i as int), file_path@),
        decreases events.len() - i,
    {
        assert(all.take(i + 1).drop_last() =~= all.take(i as int));
        assert(all.take(i + 1).last() == events@[i as int]@);
        state.step(&events[i], file_path);
        i += 1;
    }
    assert(all.take(events.len() as int) =~= all);
    state.records
}

/// The definition records of one XML document. A malformed document gives
/// the records that were complete before the place where it is malformed.
pub fn parse_def_data(content: &str, file_path: &str) -> (defs: Vec<DefData>)
    ensures
        defs_view(defs@) == extracted(xml_events(content@), file_path@),
{
    let events = parse_events(content);
    extract_defs(&events, file_path)
}

} // verus!
