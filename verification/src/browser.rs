//! The browser of definitions: the records of a document with their text
//! laid out, and the records grouped by type.

use crate::event::{events_view, parse_events, xml_events, EventView, XmlEvent};
use crate::extract::def_shaped;
use crate::node::{attributes_view, text_view};
use crate::render::{attributes_text, push_attributes};
use crate::scan::{
    admits, after_arrival, after_begin, all_of, barren, fruitful, Turnstile, TurnstileView,
};
use crate::layout::{format_xml, format_xml_spec};
use crate::text::{
    ends_with, escape, escaped, is_less, lemma_str_less_total_order, str_equal, str_less,
};
use vstd::prelude::*;
use vstd::string::StringExecFns;

verus! {

/// One definition as the browser lists it.
#[derive(Debug, Clone, PartialEq, Eq)]
pub struct DefEntry {
    /// The text of the record's `defName`.
    pub def_name: String,
    /// Where the record was read from.
    pub file_path: String,
    /// The text of the record, laid out one tag a line.
    pub xml_content: String,
    /// The tag of the record's root element.
    pub def_type: String,
}

/// The mathematical value of a [`DefEntry`].
pub struct EntryView {
    pub def_name: Seq<char>,
    pub file_path: Seq<char>,
    pub xml_content: Seq<char>,
    pub def_type: Seq<char>,
}

impl View for DefEntry {
    type V = EntryView;

    open spec fn view(&self) -> EntryView {
        EntryView {
            def_name: self.def_name@,
            file_path: self.file_path@,
            xml_content: self.xml_content@,
            def_type: self.def_type@,
        }
    }
}

/// The values of a list of entries.
pub open spec fn entries_view(entries: Seq<DefEntry>) -> Seq<EntryView> {
    entries.map_values(|e: DefEntry| e@)
}

/// What the browser knows in the middle of a document.
pub struct CaptureState {
    /// The wrapper element `Defs` has been entered and not left.
    pub inside_defs: bool,
    /// How many elements are open inside the wrapper and outside any record:
    /// 0 directly inside the wrapper.
    pub skipped: nat,
    /// How many elements of the current record are open, its root included.
    pub depth: nat,
    /// A `defName` has been entered and not left.
    pub inside_defname: bool,
    /// The text of the current record is being taken down.
    pub capturing: bool,
    /// The tag of the current record's root.
    pub def_type: Option<Seq<char>>,
    /// The name of the current record, once it is known.
    pub def_name: Option<Seq<char>>,
    /// The text of the current record as far as it was taken down.
    pub captured: Seq<char>,
    /// The records that are complete.
    pub entries: Seq<EntryView>,
}

/// The state before the first event.
pub open spec fn capture_start() -> CaptureState {
    CaptureState {
        inside_defs: false,
        skipped: 0,
        depth: 0,
        inside_defname: false,
        capturing: false,
        def_type: None,
        def_name: None,
        captured: Seq::empty(),
        entries: Seq::empty(),
    }
}

/// An opening tag as it is taken down.
pub open spec fn start_text(name: Seq<char>, attributes: Seq<(Seq<char>, Seq<char>)>) -> Seq<
    char,
> {
    "<"@ + name + attributes_text(attributes) + ">"@
}

/// A tag without content as it is taken down.
pub open spec fn empty_text(name: Seq<char>, attributes: Seq<(Seq<char>, Seq<char>)>) -> Seq<
    char,
> {
    "<"@ + name + attributes_text(attributes) + " />"@
}

/// A closing tag as it is taken down.
pub open spec fn end_text(name: Seq<char>) -> Seq<char> {
    "</"@ + name + ">"@
}

/// The start of an element. Inside a record it is taken down, whatever its
/// name. Outside, `Defs` opens the wrapper, and a tag shaped like a
/// definition that stands directly inside the wrapper opens a record. Any
/// other element inside the wrapper is passed over with all that is in it.
pub open spec fn capture_on_start(
    s: CaptureState,
    name: Seq<char>,
    attributes: Seq<(Seq<char>, Seq<char>)>,
) -> CaptureState {
    if s.depth > 0 {
        CaptureState {
            depth: s.depth + 1,
            inside_defname: s.inside_defname || name == "defName"@,
            captured: if s.capturing {
                s.captured + start_text(name, attributes)
            } else {
                s.captured
            },
            ..s
        }
    } else if name == "Defs"@ {
        CaptureState { inside_defs: true, skipped: 0, ..s }
    } else if s.inside_defs && s.skipped == 0 && def_shaped(name) {
        CaptureState {
            depth: 1,
            capturing: true,
            def_type: Some(name),
            def_name: None,
            captured: start_text(name, attributes),
            ..s
        }
    } else if s.inside_defs {
        CaptureState { skipped: s.skipped + 1, ..s }
    } else {
        s
    }
}

/// An element without content.
pub open spec fn capture_on_empty(
    s: CaptureState,
    name: Seq<char>,
    attributes: Seq<(Seq<char>, Seq<char>)>,
) -> CaptureState {
    if s.capturing && s.depth > 0 {
        CaptureState { captured: s.captured + empty_text(name, attributes), ..s }
    } else {
        s
    }
}

/// Text: inside a `defName` it names the record, and inside a record it is
/// taken down unless it is empty.
pub open spec fn capture_on_text(s: CaptureState, text: Option<Seq<char>>) -> CaptureState {
    match text {
        Some(t) => CaptureState {
            def_name: if s.inside_defname {
                Some(t)
            } else {
                s.def_name
            },
            captured: if s.capturing && t.len() > 0 {
                s.captured + escaped(t)
            } else {
                s.captured
            },
            ..s
        },
        None => s,
    }
}

/// The end of an element. The end of the record's root, a tag shaped like a
/// definition, completes the record, which is kept if it has a type and a
/// name. Outside a record, `Defs` closes the wrapper, and any other end
/// closes an element that was passed over.
pub open spec fn capture_on_end(s: CaptureState, name: Seq<char>, path: Seq<char>) -> CaptureState {
    let left = CaptureState { inside_defname: s.inside_defname && name != "defName"@, ..s };
    if left.depth > 0 {
        let text = if left.capturing {
            left.captured + end_text(name)
        } else {
            left.captured
        };
        let lower = CaptureState { depth: (left.depth - 1) as nat, captured: text, ..left };
        if lower.depth == 0 && def_shaped(name) {
            CaptureState {
                capturing: false,
                def_type: None,
                def_name: None,
                entries: if lower.def_type is Some && lower.def_name is Some {
                    lower.entries.push(
                        EntryView {
                            def_name: lower.def_name->0,
                            file_path: path,
                            xml_content: format_xml_spec(text),
                            def_type: lower.def_type->0,
                        },
                    )
                } else {
                    lower.entries
                },
                ..lower
            }
        } else {
            lower
        }
    } else if name == "Defs"@ {
        CaptureState { inside_defs: false, skipped: 0, ..left }
    } else if left.inside_defs && left.skipped > 0 {
        CaptureState { skipped: (left.skipped - 1) as nat, ..left }
    } else {
        left
    }
}

/// The state after one more event of the document at `path`.
pub open spec fn capture_step(s: CaptureState, event: EventView, path: Seq<char>) -> CaptureState {
    match event {
        EventView::Start { name, attributes } => capture_on_start(s, name, attributes),
        EventView::Empty { name, attributes } => capture_on_empty(s, name, attributes),
        EventView::Text { text } => capture_on_text(s, text),
        EventView::End { name } => capture_on_end(s, name, path),
        EventView::Other => s,
    }
}

/// The state after a run of events.
pub open spec fn capture_run(events: Seq<EventView>, path: Seq<char>) -> CaptureState
    decreases events.len(),
{
    if events.len() == 0 {
        capture_start()
    } else {
        capture_step(capture_run(events.drop_last(), path), events.last(), path)
    }
}

/// The entries of a document, given by its events.
pub open spec fn captured_entries(events: Seq<EventView>, path: Seq<char>) -> Seq<EntryView> {
    capture_run(events, path).entries
}

/// The browser at work on one document.
struct Capture {
    inside_defs: bool,
    skipped: usize,
    depth: usize,
    inside_defname: bool,
    capturing: bool,
    def_type: Option<String>,
    def_name: Option<String>,
    captured: String,
    entries: Vec<DefEntry>,
}

impl View for Capture {
    type V = CaptureState;

    closed spec fn view(&self) -> CaptureState {
        CaptureState {
            inside_defs: self.inside_defs,
            skipped: self.skipped as nat,
            depth: self.depth as nat,
            inside_defname: self.inside_defname,
            capturing: self.capturing,
            def_type: text_view(self.def_type),
            def_name: text_view(self.def_name),
            captured: self.captured@,
            entries: entries_view(self.entries@),
        }
    }
}

impl Capture {
    fn new() -> (c: Capture)
        ensures
            c@ == capture_start(),
    {
        let c = Capture {
            inside_defs: false,
            skipped: 0,
            depth: 0,
            inside_defname: false,
            capturing: false,
            def_type: None,
            def_name: None,
            captured: String::new(),
            entries: Vec::new(),
        };
        assert(c@.entries =~= Seq::empty());
        c
    }

    fn on_start(&mut self, name: &String, attributes: &Vec<(String, String)>)
        requires
            old(self).depth < usize::MAX,
            old(self).skipped < usize::MAX,
        ensures
            final(self)@ == capture_on_start(old(self)@, name@, attributes_view(attributes@)),
            final(self).depth + final(self).skipped <= old(self).depth + old(self).skipped + 1,
    {
        if self.depth > 0 {
            if str_equal(name.as_str(), "defName") {
                self.inside_defname = true;
            }
            self.depth = self.depth + 1;
            if self.capturing {
                let ghost before = self.captured@;
                self.captured.append("<");
                self.captured.append(name.as_str());
                push_attributes(&mut self.captured, attributes);
                self.captured.append(">");
                assert(self.captured@ =~= before + start_text(name@, attributes_view(attributes@)));
            }
        } else if str_equal(name.as_str(), "Defs") {
            self.inside_defs = true;
            self.skipped = 0;
        } else if self.inside_defs && self.skipped == 0 && ends_with(name.as_str(), "Def") {
            self.depth = 1;
            self.capturing = true;
            self.def_type = Some(name.clone());
            self.def_name = None;
            let mut text = String::new();
            text.append("<");
            text.append(name.as_str());
            push_attributes(&mut text, attributes);
            text.append(">");
            assert(text@ =~= start_text(name@, attributes_view(attributes@)));
            self.captured = text;
        } else if self.inside_defs {
            self.skipped = self.skipped + 1;
        }
    }

    fn on_empty(&mut self, name: &String, attributes: &Vec<(String, String)>)
        ensures
            final(self)@ == capture_on_empty(old(self)@, name@, attributes_view(attributes@)),
    {
        if self.capturing && self.depth > 0 {
            let ghost before = self.captured@;
            self.captured.append("<");
            self.captured.append(name.as_str());
            push_attributes(&mut self.captured, attributes);
            self.captured.append(" />");
            assert(self.captured@ =~= before + empty_text(name@, attributes_view(attributes@)));
        }
    }

    fn on_text(&mut self, text: &Option<String>)
        ensures
            final(self)@ == capture_on_text(old(self)@, text_view(*text)),
    {
        match text {
            Some(t) => {
                if self.inside_defname {
                    self.def_name = Some(t.clone());
                }
                if self.capturing && !t.as_str().is_empty() {
                    let safe = escape(t.as_str());
                    self.captured.append(safe.as_str());
                }
            },
            None => {},
        }
    }

    fn on_end(&mut self, name: &String, path: &str)
        ensures
            final(self)@ == capture_on_end(old(self)@, name@, path@),
            final(self).depth + final(self).skipped <= old(self).depth + old(self).skipped,
    {
        if str_equal(name.as_str(), "defName") {
            self.inside_defname = false;
        }
        if self.depth > 0 {
            if self.capturing {
                let ghost before = self.captured@;
                self.captured.append("</");
                self.captured.append(name.as_str());
                self.captured.append(">");
                assert(self.captured@ =~= before + end_text(name@));
            }
            self.depth = self.depth - 1;
            if self.depth == 0 && ends_with(name.as_str(), "Def") {
                let ghost before = self.entries@;
                match (&self.def_type, &self.def_name) {
                    (Some(def_type), Some(def_name)) => {
                        let entry = DefEntry {
                            def_name: def_name.clone(),
                            file_path: path.to_owned(),
                            xml_content: format_xml(self.captured.as_str()),
                            def_type: def_type.clone(),
                        };
                        self.entries.push(entry);
                        assert(entries_view(self.entries@) =~= entries_view(before).push(entry@));
                    },
                    _ => {},
                }
                self.def_type = None;
                self.def_name = None;
                self.capturing = false;
            }
        } else if str_equal(name.as_str(), "Defs") {
            self.inside_defs = false;
            self.skipped = 0;
        } else if self.inside_defs && self.skipped > 0 {
            self.skipped = self.skipped - 1;
        }
    }

    fn step(&mut self, event: &XmlEvent, path: &str)
        requires
            old(self).depth < usize::MAX,
            old(self).skipped < usize::MAX,
        ensures
            final(self)@ == capture_step(old(self)@, event@, path@),
            final(self).depth + final(self).skipped <= old(self).depth + old(self).skipped + 1,
    {
        match event {
            XmlEvent::Start { name, attributes } => self.on_start(name, attributes),
            XmlEvent::Empty { name, attributes } => self.on_empty(name, attributes),
            XmlEvent::Text { text } => self.on_text(text),
            XmlEvent::End { name } => self.on_end(name, path),
            XmlEvent::Other => {},
        }
    }
}

/// The entries among the events of one document, in the order in which they
/// are closed. `file_path` is noted in each.
pub fn capture_entries(events: &Vec<XmlEvent>, file_path: &str) -> (entries: Vec<DefEntry>)
    ensures
        entries_view(entries@) == captured_entries(events_view(events@), file_path@),
{
    let ghost all = events_view(events@);
    let mut state = Capture::new();
    let mut i: usize = 0;
    assert(all.take(0) =~= Seq::empty());
    while i < events.len()
        invariant
            i <= events.len(),
            all == events_view(events@),
            state.depth + state.skipped <= i,
            state@ == capture_run(all.take(i as int), file_path@),
        decreases events.len() - i,
    {
        assert(all.take(i + 1).drop_last() =~= all.take(i as int));
        assert(all.take(i + 1).last() == events@[i as int]@);
        state.step(&events[i], file_path);
        i += 1;
    }
    assert(all.take(events.len() as int) =~= all);
    state.entries
}

/// The entries of one XML document, each with its text laid out. A
/// malformed document gives the entries that were complete before the place
/// where it is malformed.
pub fn parse_defs_from_file(content: &str, file_path: &str) -> (entries: Vec<DefEntry>)
    ensures
        entries_view(entries@) == captured_entries(xml_events(content@), file_path@),
{
    let events = parse_events(content);
    capture_entries(&events, file_path)
}

/// The entries of one type.
#[derive(Debug, Clone, PartialEq, Eq)]
pub struct DefGroup {
    /// The type that the entries share.
    pub def_type: String,
    /// The entries, in the order of their names.
    pub entries: Vec<DefEntry>,
}

/// The mathematical value of a [`DefGroup`].
pub struct GroupView {
    pub def_type: Seq<char>,
    pub entries: Seq<EntryView>,
}

impl View for DefGroup {
    type V = GroupView;

    open spec fn view(&self) -> GroupView {
        GroupView { def_type: self.def_type@, entries: entries_view(self.entries@) }
    }
}

/// The values of a list of groups.
pub open spec fn groups_view(groups: Seq<DefGroup>) -> Seq<GroupView> {
    groups.map_values(|g: DefGroup| g@)
}

/// `i` is where an entry with the name joins the entries: behind every
/// entry whose name does not come after its own, so that entries of one
/// name stay in the order in which they came.
pub open spec fn is_entry_place(entries: Seq<EntryView>, name: Seq<char>, i: int) -> bool {
    &&& 0 <= i <= entries.len()
    &&& i < entries.len() ==> str_less(name, entries[i].def_name)
    &&& forall|j: int| 0 <= j < i ==> !str_less(name, (#[trigger] entries[j]).def_name)
}

/// The place where an entry with the name joins the entries.
pub open spec fn entry_place(entries: Seq<EntryView>, name: Seq<char>) -> int {
    choose|i: int| is_entry_place(entries, name, i)
}

/// `i` is the place of the group of the type.
pub open spec fn is_group_of(groups: Seq<GroupView>, def_type: Seq<char>, i: int) -> bool {
    &&& 0 <= i < groups.len()
    &&& groups[i].def_type == def_type
    &&& forall|j: int| 0 <= j < i ==> (#[trigger] groups[j]).def_type != def_type
}

/// There is a group of the type.
pub open spec fn has_group(groups: Seq<GroupView>, def_type: Seq<char>) -> bool {
    exists|i: int| 0 <= i < groups.len() && (#[trigger] groups[i]).def_type == def_type
}

/// The place of the group of the type.
pub open spec fn group_of(groups: Seq<GroupView>, def_type: Seq<char>) -> int {
    choose|i: int| is_group_of(groups, def_type, i)
}

/// `i` is where a group of a new type is put in: before the first group
/// whose type comes after it.
pub open spec fn is_group_place(groups: Seq<GroupView>, def_type: Seq<char>, i: int) -> bool {
    &&& 0 <= i <= groups.len()
    &&& i < groups.len() ==> str_less(def_type, groups[i].def_type)
    &&& forall|j: int| 0 <= j < i ==> !str_less(def_type, (#[trigger] groups[j]).def_type)
}

/// The place where a group of a new type is put in.
pub open spec fn group_place(groups: Seq<GroupView>, def_type: Seq<char>) -> int {
    choose|i: int| is_group_place(groups, def_type, i)
}

/// One more entry: it joins the group of its type, or starts that group.
pub open spec fn with_entry(groups: Seq<GroupView>, entry: EntryView) -> Seq<GroupView> {
    if has_group(groups, entry.def_type) {
        let i = group_of(groups, entry.def_type);
        groups.update(
            i,
            GroupView {
                def_type: groups[i].def_type,
                entries: groups[i].entries.insert(
                    entry_place(groups[i].entries, entry.def_name),
                    entry,
                ),
            },
        )
    } else {
        groups.insert(
            group_place(groups, entry.def_type),
            GroupView { def_type: entry.def_type, entries: seq![entry] },
        )
    }
}

/// The entries by type: the types in their order, and in each group the
/// entries in the order of their names, those of one name in the order in
/// which they came.
pub open spec fn grouped(entries: Seq<EntryView>) -> Seq<GroupView>
    decreases entries.len(),
{
    if entries.len() == 0 {
        Seq::empty()
    } else {
        with_entry(grouped(entries.drop_last()), entries.last())
    }
}

/// The place where an entry joins its group is known by what it is.
pub proof fn lemma_entry_place(entries: Seq<EntryView>, name: Seq<char>, i: int)
    requires
        is_entry_place(entries, name, i),
    ensures
        entry_place(entries, name) == i,
{
    let c = entry_place(entries, name);
    assert(is_entry_place(entries, name, c));
    if c < i {
        assert(!str_less(name, entries[c].def_name));
    } else if i < c {
        assert(!str_less(name, entries[i].def_name));
    }
}

/// The group of a type is known by what it is: the first of that type.
pub proof fn lemma_group_of(groups: Seq<GroupView>, def_type: Seq<char>, i: int)
    requires
        is_group_of(groups, def_type, i),
    ensures
        has_group(groups, def_type),
        group_of(groups, def_type) == i,
{
    let c = group_of(groups, def_type);
    assert(is_group_of(groups, def_type, c));
    if c < i {
        assert(groups[c].def_type != def_type);
    } else if i < c {
        assert(groups[i].def_type != def_type);
    }
}

/// The place where a group of a new type is put in is known by what it is.
pub proof fn lemma_group_place(groups: Seq<GroupView>, def_type: Seq<char>, i: int)
    requires
        is_group_place(groups, def_type, i),
    ensures
        group_place(groups, def_type) == i,
{
    let c = group_place(groups, def_type);
    assert(is_group_place(groups, def_type, c));
    if c < i {
        assert(!str_less(def_type, groups[c].def_type));
    } else if i < c {
        assert(!str_less(def_type, groups[i].def_type));
    }
}

/// The groups are in order: their types rise strictly, each holds entries of
/// its type and at least one, and in each the names of the entries never
/// fall.
pub open spec fn groups_in_order(groups: Seq<GroupView>) -> bool {
    &&& forall|i: int, j: int|
        0 <= i < j < groups.len() ==> str_less(
            (#[trigger] groups[i]).def_type,
            (#[trigger] groups[j]).def_type,
        )
    &&& forall|g: int| 0 <= g < groups.len() ==> entries_in_order(#[trigger] groups[g])
}

/// The entries of a group are of its type, at least one, and their names
/// never fall.
pub open spec fn entries_in_order(group: GroupView) -> bool {
    &&& group.entries.len() > 0
    &&& forall|i: int|
        0 <= i < group.entries.len() ==> (#[trigger] group.entries[i]).def_type == group.def_type
    &&& forall|i: int, j: int|
        0 <= i < j < group.entries.len() ==> !str_less(
            (#[trigger] group.entries[j]).def_name,
            (#[trigger] group.entries[i]).def_name,
        )
}

proof fn lemma_has_group_of(groups: Seq<GroupView>, def_type: Seq<char>, k: int)
    requires
        0 <= k < groups.len(),
        groups[k].def_type == def_type,
    ensures
        is_group_of(groups, def_type, group_of(groups, def_type)),
    decreases k,
{
    if forall|j: int| 0 <= j < k ==> (#[trigger] groups[j]).def_type != def_type {
        assert(is_group_of(groups, def_type, k));
    } else {
        let j = choose|j: int| 0 <= j < k && (#[trigger] groups[j]).def_type == def_type;
        lemma_has_group_of(groups, def_type, j);
    }
}

proof fn lemma_has_group_place(groups: Seq<GroupView>, def_type: Seq<char>, k: int)
    requires
        0 <= k <= groups.len(),
        forall|j: int| 0 <= j < k ==> !str_less(def_type, (#[trigger] groups[j]).def_type),
    ensures
        is_group_place(groups, def_type, group_place(groups, def_type)),
    decreases groups.len() - k,
{
    if k == groups.len() || str_less(def_type, groups[k].def_type) {
        assert(is_group_place(groups, def_type, k));
    } else {
        lemma_has_group_place(groups, def_type, k + 1);
    }
}

proof fn lemma_has_entry_place(entries: Seq<EntryView>, name: Seq<char>, k: int)
    requires
        0 <= k <= entries.len(),
        forall|j: int| 0 <= j < k ==> !str_less(name, (#[trigger] entries[j]).def_name),
    ensures
        is_entry_place(entries, name, entry_place(entries, name)),
    decreases entries.len() - k,
{
    if k == entries.len() || str_less(name, entries[k].def_name) {
        assert(is_entry_place(entries, name, k));
    } else {
        lemma_has_entry_place(entries, name, k + 1);
    }
}

/// One more entry leaves the groups in order.
pub proof fn lemma_with_entry_in_order(groups: Seq<GroupView>, entry: EntryView)
    requires
        groups_in_order(groups),
    ensures
        groups_in_order(with_entry(groups, entry)),
{
    let after = with_entry(groups, entry);
    if has_group(groups, entry.def_type) {
        let k = choose|k: int|
            0 <= k < groups.len() && (#[trigger] groups[k]).def_type == entry.def_type;
        lemma_has_group_of(groups, entry.def_type, k);
        let g = group_of(groups, entry.def_type);
        let old_entries = groups[g].entries;
        lemma_has_entry_place(old_entries, entry.def_name, 0);
        let p = entry_place(old_entries, entry.def_name);
        let new_entries = old_entries.insert(p, entry);
        assert(entries_in_order(groups[g]));
        assert(entries_in_order(after[g])) by {
            assert forall|i: int| 0 <= i < new_entries.len() implies (#[trigger] new_entries[i]).def_type
                == groups[g].def_type by {
                if i < p {
                    assert(new_entries[i] == old_entries[i]);
                } else if i > p {
                    assert(new_entries[i] == old_entries[i - 1]);
                }
            }
            assert forall|i: int, j: int| 0 <= i < j < new_entries.len() implies !str_less(
                (#[trigger] new_entries[j]).def_name,
                (#[trigger] new_entries[i]).def_name,
            ) by {
                let a = if i < p { i } else { i - 1 };
                let b = if j < p { j } else { j - 1 };
                if i == p {
                    assert(new_entries[j] == old_entries[b]);
                    assert(str_less(entry.def_name, old_entries[p].def_name));
                    if b > p {
                        assert(!str_less(old_entries[b].def_name, old_entries[p].def_name));
                        lemma_str_less_total_order(
                            old_entries[b].def_name,
                            entry.def_name,
                            old_entries[p].def_name,
                        );
                    } else {
                        lemma_str_less_total_order(
                            entry.def_name,
                            old_entries[p].def_name,
                            entry.def_name,
                        );
                    }
                } else if j == p {
                    assert(new_entries[i] == old_entries[a]);
                    assert(!str_less(entry.def_name, old_entries[a].def_name));
                } else {
                    assert(new_entries[i] == old_entries[a]);
                    assert(new_entries[j] == old_entries[b]);
                }
            }
        }
        assert forall|x: int| 0 <= x < after.len() implies entries_in_order(#[trigger] after[x]) by {
            if x != g {
                assert(after[x] == groups[x]);
            }
        }
        assert forall|i: int, j: int| 0 <= i < j < after.len() implies str_less(
            (#[trigger] after[i]).def_type,
            (#[trigger] after[j]).def_type,
        ) by {
            assert(after[i].def_type == groups[i].def_type);
            assert(after[j].def_type == groups[j].def_type);
        }
    } else {
        lemma_has_group_place(groups, entry.def_type, 0);
        let p = group_place(groups, entry.def_type);
        let fresh = GroupView { def_type: entry.def_type, entries: seq![entry] };
        assert(entries_in_order(fresh));
        assert forall|x: int| 0 <= x < after.len() implies entries_in_order(#[trigger] after[x]) by {
            if x < p {
                assert(after[x] == groups[x]);
            } else if x > p {
                assert(after[x] == groups[x - 1]);
            }
        }
        assert forall|i: int, j: int| 0 <= i < j < after.len() implies str_less(
            (#[trigger] after[i]).def_type,
            (#[trigger] after[j]).def_type,
        ) by {
            let a = if i < p { i } else { i - 1 };
            let b = if j < p { j } else { j - 1 };
            if i == p {
                assert(after[j] == groups[b]);
                if b > p {
                    lemma_str_less_total_order(
                        entry.def_type,
                        groups[p].def_type,
                        groups[b].def_type,
                    );
                }
            } else if j == p {
                assert(after[i] == groups[a]);
                assert(!str_less(entry.def_type, groups[a].def_type));
                assert(groups[a].def_type != entry.def_type);
                lemma_str_less_total_order(entry.def_type, groups[a].def_type, entry.def_type);
            } else {
                assert(after[i] == groups[a]);
                assert(after[j] == groups[b]);
            }
        }
    }
}

/// Entries by type are in order.
pub proof fn lemma_grouped_in_order(entries: Seq<EntryView>)
    ensures
        groups_in_order(grouped(entries)),
    decreases entries.len(),
{
    if entries.len() > 0 {
        lemma_grouped_in_order(entries.drop_last());
        lemma_with_entry_in_order(grouped(entries.drop_last()), entries.last());
    }
}

/// The place of the group of the type, if there is one.
fn find_group(groups: &Vec<DefGroup>, def_type: &str) -> (found: Option<usize>)
    ensures
        match found {
            Some(g) => g < groups@.len() && is_group_of(groups_view(groups@), def_type@, g as int)
                && group_of(groups_view(groups@), def_type@) == g && has_group(
                groups_view(groups@),
                def_type@,
            ),
            None => !has_group(groups_view(groups@), def_type@),
        },
{
    let ghost all = groups_view(groups@);
    let mut g: usize = 0;
    while g < groups.len()
        invariant
            g <= groups.len(),
            all == groups_view(groups@),
            forall|j: int| 0 <= j < g ==> (#[trigger] all[j]).def_type != def_type@,
        decreases groups.len() - g,
    {
        if str_equal(groups[g].def_type.as_str(), def_type) {
            proof {
                assert(all[g as int] == groups@[g as int]@);
                lemma_group_of(all, def_type@, g as int);
            }
            return Some(g);
        }
        g += 1;
    }
    None
}

/// Puts an entry into the group of its type, or starts that group.
fn add_entry(groups: &mut Vec<DefGroup>, entry: DefEntry)
    ensures
        groups_view(final(groups)@) == with_entry(groups_view(old(groups)@), entry@),
{
    let ghost before = groups_view(groups@);
    if let Some(g) = find_group(groups, entry.def_type.as_str()) {
        assert(before[g as int] == groups@[g as int]@);
        let mut group = groups.remove(g);
        let ghost was = entries_view(group.entries@);
        let mut i: usize = 0;
        while i < group.entries.len() && !is_less(
            entry.def_name.as_str(),
            group.entries[i].def_name.as_str(),
        )
            invariant
                i <= group.entries.len(),
                was == entries_view(group.entries@),
                forall|j: int|
                    0 <= j < i ==> !str_less(entry@.def_name, (#[trigger] was[j]).def_name),
            decreases group.entries.len() - i,
        {
            assert(was[i as int] == group.entries@[i as int]@);
            i += 1;
        }
        proof {
            if i < group.entries.len() {
                assert(was[i as int] == group.entries@[i as int]@);
            }
            lemma_entry_place(was, entry@.def_name, i as int);
        }
        group.entries.insert(i, entry);
        assert(entries_view(group.entries@) =~= was.insert(i as int, entry@));
        groups.insert(g, group);
        assert(groups_view(groups@) =~= with_entry(before, entry@));
    } else {
        let mut p: usize = 0;
        while p < groups.len() && !is_less(entry.def_type.as_str(), groups[p].def_type.as_str())
            invariant
                p <= groups.len(),
                before == groups_view(groups@),
                forall|j: int|
                    0 <= j < p ==> !str_less(entry@.def_type, (#[trigger] before[j]).def_type),
            decreases groups.len() - p,
        {
            assert(before[p as int] == groups@[p as int]@);
            p += 1;
        }
        proof {
            if p < groups.len() {
                assert(before[p as int] == groups@[p as int]@);
            }
            lemma_group_place(before, entry@.def_type, p as int);
        }
        let mut entries: Vec<DefEntry> = Vec::new();
        let def_type = entry.def_type.clone();
        entries.push(entry);
        assert(entries_view(entries@) =~= seq![entry@]);
        groups.insert(p, DefGroup { def_type, entries });
        assert(groups_view(groups@) =~= with_entry(before, entry@));
    }
}

/// The entries by type.
pub fn group_entries(entries: Vec<DefEntry>) -> (groups: Vec<DefGroup>)
    ensures
        groups_view(groups@) == grouped(entries_view(entries@)),
        groups_in_order(groups_view(groups@)),
{
    proof {
        lemma_grouped_in_order(entries_view(entries@));
    }
    let ghost all = entries_view(entries@);
    let mut groups: Vec<DefGroup> = Vec::new();
    assert(all.take(0) =~= Seq::empty());
    assert(groups_view(groups@) =~= Seq::empty());
    for entry in it: entries
        invariant
            it.seq() == entries@,
            all == entries_view(entries@),
            groups_view(groups@) == grouped(all.take(it.index() as int)),
    {
        assert(all.take(it.index() + 1).drop_last() =~= all.take(it.index() as int));
        assert(all.take(it.index() + 1).last() == entry@);
        add_entry(&mut groups, entry);
    }
    assert(all.take(entries@.len() as int) =~= all);
    groups
}

/// The values of the entries of the files of a scan.
pub open spec fn file_entries_view(per_file: Seq<Vec<DefEntry>>) -> Seq<Seq<EntryView>> {
    per_file.map_values(|f: Vec<DefEntry>| entries_view(f@))
}

/// The entries of the files as one list, and the number of files that gave
/// entries.
fn gather_entries(per_file: Vec<Vec<DefEntry>>) -> (gathered: (Vec<DefEntry>, usize))
    ensures
        entries_view(gathered.0@) == all_of(file_entries_view(per_file@)),
        gathered.1 == fruitful(file_entries_view(per_file@)),
        gathered.1 <= per_file@.len(),
{
    let ghost files = file_entries_view(per_file@);
    let count = per_file.len();
    let mut flat: Vec<DefEntry> = Vec::new();
    let mut with_defs: usize = 0;
    assert(files.take(0) =~= Seq::empty());
    assert(entries_view(flat@) =~= Seq::empty());
    for file in it: per_file
        invariant
            it.seq() == per_file@,
            per_file@.len() == count,
            files == file_entries_view(per_file@),
            with_defs == fruitful(files.take(it.index() as int)),
            with_defs <= it.index(),
            entries_view(flat@) == all_of(files.take(it.index() as int)),
    {
        let ghost upto = files.take(it.index() + 1);
        assert(upto.drop_last() =~= files.take(it.index() as int));
        assert(upto.last() == entries_view(file@));
        if file.len() > 0 {
            with_defs += 1;
        }
        let ghost before = flat@;
        let mut file = file;
        flat.append(&mut file);
        assert(entries_view(flat@) =~= entries_view(before) + upto.last());
    }
    assert(files.take(count as int) =~= files);
    (flat, with_defs)
}

/// What the browser says of itself.
#[derive(Debug, Clone, Copy, PartialEq, Eq)]
pub enum BrowserStatus {
    /// Nothing was scanned yet.
    Idle,
    /// A scan has begun.
    Scanning,
    /// So many files were found and are being read.
    Parsing { files: usize },
    /// The last scan found so many types and so many definitions in all,
    /// in so many files, and none in so many others.
    Done { types: usize, total: usize, files_with_defs: usize, files_without_defs: usize },
}

/// The browser of definitions by type.
#[derive(Debug, Clone, PartialEq, Eq)]
pub struct DefBrowserTab {
    /// The directory that is scanned.
    pub base_directory: String,
    /// The definitions of the last scan, by type.
    pub defs: Vec<DefGroup>,
    /// The type whose entries are shown.
    pub selected_def_type: Option<String>,
    /// The place, in the group of that type, of the entry that is shown.
    pub selected_def_entry: Option<usize>,
    /// A scan is under way.
    pub is_loading: bool,
    /// What the browser says of itself.
    pub status: BrowserStatus,
    /// The settings were read at least once.
    pub initialized: bool,
    /// The turnstile through which the entries of scans reach the browser.
    turnstile: Turnstile,
}

/// The mathematical value of a [`DefBrowserTab`].
pub struct BrowserView {
    pub base_directory: Seq<char>,
    pub defs: Seq<GroupView>,
    pub selected_def_type: Option<Seq<char>>,
    pub selected_def_entry: Option<usize>,
    pub is_loading: bool,
    pub status: BrowserStatus,
    pub initialized: bool,
    pub turnstile: TurnstileView,
}

impl View for DefBrowserTab {
    type V = BrowserView;

    closed spec fn view(&self) -> BrowserView {
        BrowserView {
            base_directory: self.base_directory@,
            defs: groups_view(self.defs@),
            selected_def_type: text_view(self.selected_def_type),
            selected_def_entry: self.selected_def_entry,
            is_loading: self.is_loading,
            status: self.status,
            initialized: self.initialized,
            turnstile: self.turnstile@,
        }
    }
}

/// The browser after the settings were looked at: where their directory is
/// not the one of the browser, the browser takes it.
pub open spec fn browser_after_settings(s: BrowserView, base_path: Seq<char>) -> BrowserView {
    if base_path != s.base_directory {
        BrowserView { base_directory: base_path, initialized: true, ..s }
    } else {
        s
    }
}

/// The browser after a scan has begun: whatever scan was under way is shut
/// out. What the last scan found stays as it is until the new scan
/// publishes its own.
pub open spec fn browser_after_scan_begins(s: BrowserView) -> BrowserView {
    BrowserView {
        is_loading: true,
        status: BrowserStatus::Scanning,
        turnstile: after_begin(s.turnstile),
        ..s
    }
}

/// The browser after a scan has ended with the entries of each file. The
/// scan that the browser waits for publishes them whole, in the place of
/// what was there: they are shown by type, nothing is selected any more, and
/// the browser says how many files gave entries and how many gave none. Any
/// other scan changes nothing.
pub open spec fn browser_after_scan_ends(
    s: BrowserView,
    ticket: nat,
    per_file: Seq<Seq<EntryView>>,
) -> BrowserView {
    if admits(s.turnstile, ticket) {
        BrowserView {
            defs: grouped(all_of(per_file)),
            selected_def_type: None,
            selected_def_entry: None,
            status: BrowserStatus::Done {
                types: grouped(all_of(per_file)).len() as usize,
                total: all_of(per_file).len() as usize,
                files_with_defs: fruitful(per_file) as usize,
                files_without_defs: barren(per_file) as usize,
            },
            is_loading: false,
            turnstile: after_arrival(s.turnstile, ticket),
            ..s
        }
    } else {
        s
    }
}

/// The browser after a type was clicked: the type is selected, or no longer
/// selected if it was. Either way no entry is selected.
pub open spec fn browser_after_click(s: BrowserView, def_type: Seq<char>) -> BrowserView {
    BrowserView {
        selected_def_type: if s.selected_def_type == Some(def_type) {
            None
        } else {
            Some(def_type)
        },
        selected_def_entry: None,
        ..s
    }
}

/// The entry that the browser shows: the selected one of the group of the
/// selected type, where both are there.
pub open spec fn shown_entry(s: BrowserView) -> Option<EntryView> {
    match (s.selected_def_type, s.selected_def_entry) {
        (Some(def_type), Some(index)) => if has_group(s.defs, def_type) && index < s.defs[group_of(
            s.defs,
            def_type,
        )].entries.len() {
            Some(s.defs[group_of(s.defs, def_type)].entries[index as int])
        } else {
            None
        },
        _ => None,
    }
}

/// A scan that begins while another is under way keeps the entries of the
/// other from the browser for good: when the other ends, the browser stays
/// as it is.
pub proof fn lemma_superseded_scan_shows_nothing(s: BrowserView, per_file: Seq<Seq<EntryView>>)
    ensures
        ({
            let first = browser_after_scan_begins(s);
            let second = browser_after_scan_begins(first);
            browser_after_scan_ends(second, first.turnstile.generation, per_file) == second
        }),
{
}

impl DefBrowserTab {
    /// A browser that has scanned nothing and shows nothing.
    pub fn new() -> (tab: DefBrowserTab)
        ensures
            tab@ == (BrowserView {
                base_directory: Seq::empty(),
                defs: Seq::empty(),
                selected_def_type: None,
                selected_def_entry: None,
                is_loading: false,
                status: BrowserStatus::Idle,
                initialized: false,
                turnstile: TurnstileView { generation: 0, waiting: false },
            }),
    {
        let tab = DefBrowserTab {
            base_directory: String::new(),
            defs: Vec::new(),
            selected_def_type: None,
            selected_def_entry: None,
            is_loading: false,
            status: BrowserStatus::Idle,
            initialized: false,
            turnstile: Turnstile::new(),
        };
        assert(groups_view(tab.defs@) =~= Seq::empty());
        tab
    }

    /// Whether one more scan can begin: the tickets have not run out.
    pub fn can_scan(&self) -> (can: bool)
        ensures
            can == (self@.turnstile.generation < u64::MAX),
    {
        self.turnstile.can_begin()
    }

    /// Whether the scan with this ticket is still waited for. A scan asks
    /// this between two files and gives up when it is not.
    pub fn is_current(&self, ticket: u64) -> (current: bool)
        ensures
            current == admits(self@.turnstile, ticket as nat),
    {
        self.turnstile.is_current(ticket)
    }

    /// The settings are looked at. The result says whether the browser took
    /// a new directory from them.
    pub fn sync_settings(&mut self, base_path: &str) -> (changed: bool)
        ensures
            changed == (base_path@ != old(self)@.base_directory),
            final(self)@ == browser_after_settings(old(self)@, base_path@),
    {
        if str_equal(base_path, self.base_directory.as_str()) {
            false
        } else {
            self.base_directory = base_path.to_owned();
            self.initialized = true;
            true
        }
    }

    /// A scan begins and takes its ticket.
    pub fn scan_defs(&mut self) -> (ticket: u64)
        requires
            old(self)@.turnstile.generation < u64::MAX,
        ensures
            final(self)@ == browser_after_scan_begins(old(self)@),
            ticket == final(self)@.turnstile.generation,
    {
        self.is_loading = true;
        self.status = BrowserStatus::Scanning;
        self.turnstile.begin()
    }

    /// The files to read are counted.
    pub fn files_found(&mut self, files: usize)
        ensures
            final(self)@ == (BrowserView { status: BrowserStatus::Parsing { files }, ..old(self)@ }),
    {
        self.status = BrowserStatus::Parsing { files };
    }

    /// A scan ends with the entries of each file, an empty list for a file
    /// that could not be read. The result says whether they were published.
    pub fn finish_scan(&mut self, ticket: u64, per_file: Vec<Vec<DefEntry>>) -> (published: bool)
        ensures
            published == admits(old(self)@.turnstile, ticket as nat),
            final(self)@ == browser_after_scan_ends(
                old(self)@,
                ticket as nat,
                file_entries_view(per_file@),
            ),
    {
        if !self.turnstile.arrive(ticket) {
            return false;
        }
        let count = per_file.len();
        let (entries, with_defs) = gather_entries(per_file);
        let total = entries.len();
        self.defs = group_entries(entries);
        self.selected_def_type = None;
        self.selected_def_entry = None;
        self.status = BrowserStatus::Done {
            types: self.defs.len(),
            total,
            files_with_defs: with_defs,
            files_without_defs: count - with_defs,
        };
        self.is_loading = false;
        true
    }

    /// A type is clicked.
    pub fn click_type(&mut self, def_type: &str)
        ensures
            final(self)@ == browser_after_click(old(self)@, def_type@),
    {
        let was_selected = match &self.selected_def_type {
            Some(selected) => str_equal(selected.as_str(), def_type),
            None => false,
        };
        if was_selected {
            self.selected_def_type = None;
        } else {
            self.selected_def_type = Some(def_type.to_owned());
        }
        self.selected_def_entry = None;
    }

    /// An entry of the selected type is clicked.
    pub fn select_entry(&mut self, index: usize)
        ensures
            final(self)@ == (BrowserView { selected_def_entry: Some(index), ..old(self)@ }),
    {
        self.selected_def_entry = Some(index);
    }

    /// The entry that is shown.
    pub fn selected_entry(&self) -> (shown: Option<&DefEntry>)
        ensures
            match shown {
                Some(entry) => shown_entry(self@) == Some(entry@),
                None => shown_entry(self@) is None,
            },
    {
        let def_type = match &self.selected_def_type {
            Some(t) => t,
            None => {
                return None;
            },
        };
        let index = match self.selected_def_entry {
            Some(i) => i,
            None => {
                return None;
            },
        };
        match find_group(&self.defs, def_type.as_str()) {
            Some(g) => {
                assert(groups_view(self.defs@)[g as int] == self.defs@[g as int]@);
                if index < self.defs[g].entries.len() {
                    assert(entries_view(self.defs@[g as int].entries@)[index as int]
                        == self.defs@[g as int].entries@[index as int]@);
                    Some(&self.defs[g].entries[index])
                } else {
                    None
                }
            },
            None => None,
        }
    }
}

} // verus!
