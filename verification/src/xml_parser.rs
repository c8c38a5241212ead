//! The values that a document gives for one tag: the text directly inside
//! an element of that name, and the text of the list items below it.

use crate::event::{events_view, parse_events, xml_events, EventView, XmlEvent};
use crate::node::{holds_string, strings_view};
use crate::text::{lowercase, str_equal, to_lowercase};
use vstd::prelude::*;

verus! {

/// What an event means to the search for one tag.
#[derive(Debug, Clone, PartialEq, Eq)]
pub enum TagMark {
    /// The searched tag is entered.
    EnterTarget,
    /// A list item is entered.
    EnterItem,
    /// Another element is entered.
    EnterOther,
    /// The searched tag is left.
    LeaveTarget,
    /// A list item is left.
    LeaveItem,
    /// Another element is left.
    LeaveOther,
    /// Text, trimmed and not empty.
    Text(String),
    /// Anything else.
    Other,
}

/// The mathematical value of a [`TagMark`].
pub enum MarkView {
    EnterTarget,
    EnterItem,
    EnterOther,
    LeaveTarget,
    LeaveItem,
    LeaveOther,
    Text(Seq<char>),
    Other,
}

impl View for TagMark {
    type V = MarkView;

    open spec fn view(&self) -> MarkView {
        match self {
            TagMark::EnterTarget => MarkView::EnterTarget,
            TagMark::EnterItem => MarkView::EnterItem,
            TagMark::EnterOther => MarkView::EnterOther,
            TagMark::LeaveTarget => MarkView::LeaveTarget,
            TagMark::LeaveItem => MarkView::LeaveItem,
            TagMark::LeaveOther => MarkView::LeaveOther,
            TagMark::Text(t) => MarkView::Text(t@),
            TagMark::Other => MarkView::Other,
        }
    }
}

/// The values of a list of marks.
pub open spec fn marks_view(marks: Seq<TagMark>) -> Seq<MarkView> {
    marks.map_values(|m: TagMark| m@)
}

/// Whether a tag is the searched one: the two agree once both are in
/// lowercase.
pub open spec fn is_target(name: Seq<char>, tag_name: Seq<char>) -> bool {
    lowercase(name) == lowercase(tag_name)
}

/// What an event means to the search for `tag_name`.
pub open spec fn mark_of(event: EventView, tag_name: Seq<char>) -> MarkView {
    match event {
        EventView::Start { name, attributes } => if is_target(name, tag_name) {
            MarkView::EnterTarget
        } else if name == "li"@ {
            MarkView::EnterItem
        } else {
            MarkView::EnterOther
        },
        EventView::End { name } => if is_target(name, tag_name) {
            MarkView::LeaveTarget
        } else if name == "li"@ {
            MarkView::LeaveItem
        } else {
            MarkView::LeaveOther
        },
        EventView::Text { text } => match text {
            Some(t) => if t.len() > 0 {
                MarkView::Text(t)
            } else {
                MarkView::Other
            },
            None => MarkView::Other,
        },
        _ => MarkView::Other,
    }
}

/// The marks of a run of events.
pub open spec fn marks_of(events: Seq<EventView>, tag_name: Seq<char>) -> Seq<MarkView> {
    events.map_values(|e: EventView| mark_of(e, tag_name))
}

/// What the search knows in the middle of a document.
pub struct SearchState {
    /// The searched tag has been entered and not left.
    pub inside_target: bool,
    /// A list item below the searched tag has been entered and not left.
    pub inside_item: bool,
    /// How many elements have been entered and not left since the searched
    /// tag was entered: 0 directly inside it.
    pub depth: nat,
    /// The values found, each once, in the order in which they were first
    /// found.
    pub values: Seq<Seq<char>>,
}

/// A value joins those found unless it is among them.
pub open spec fn with_value(values: Seq<Seq<char>>, value: Seq<char>) -> Seq<Seq<char>> {
    if values.contains(value) {
        values
    } else {
        values.push(value)
    }
}

/// One level down, inside the searched tag.
pub open spec fn deeper(s: SearchState) -> SearchState {
    if s.inside_target {
        SearchState { depth: s.depth + 1, ..s }
    } else {
        s
    }
}

/// One level up, inside the searched tag and as far as there is one.
pub open spec fn higher(s: SearchState) -> SearchState {
    if s.inside_target && s.depth > 0 {
        SearchState { depth: (s.depth - 1) as nat, ..s }
    } else {
        s
    }
}

/// The state after one more mark. Entering the searched tag sets the first
/// flag, entering a list item inside it the second. Leaving either clears
/// its flag. Text is a value where it stands directly inside the searched
/// tag, or while the flag of the list items is set.
pub open spec fn search_step(s: SearchState, mark: MarkView) -> SearchState {
    match mark {
        MarkView::EnterTarget => SearchState { inside_target: true, depth: 0, ..s },
        MarkView::EnterItem => if s.inside_target {
            SearchState { inside_item: true, ..deeper(s) }
        } else {
            s
        },
        MarkView::EnterOther => deeper(s),
        MarkView::LeaveTarget => SearchState { inside_target: false, ..s },
        MarkView::LeaveItem => SearchState { inside_item: false, ..higher(s) },
        MarkView::LeaveOther => higher(s),
        MarkView::Text(t) => if s.inside_item || (s.inside_target && s.depth == 0) {
            SearchState { values: with_value(s.values, t), ..s }
        } else {
            s
        },
        MarkView::Other => s,
    }
}

/// The state after a run of marks.
pub open spec fn search_run(marks: Seq<MarkView>) -> SearchState
    decreases marks.len(),
{
    if marks.len() == 0 {
        SearchState { inside_target: false, inside_item: false, depth: 0, values: Seq::empty() }
    } else {
        search_step(search_run(marks.drop_last()), marks.last())
    }
}

/// The values that a run of marks gives.
pub open spec fn found_values(marks: Seq<MarkView>) -> Seq<Seq<char>> {
    search_run(marks).values
}

/// The search never holds a value twice.
pub proof fn lemma_values_distinct(marks: Seq<MarkView>)
    ensures
        found_values(marks).no_duplicates(),
    decreases marks.len(),
{
    if marks.len() > 0 {
        lemma_values_distinct(marks.drop_last());
    }
}

/// The values that a run of marks gives: each text that stands directly
/// inside the searched tag or inside a list item below it, once, in the
/// order in which it is first met.
pub fn collect_values(marks: &Vec<TagMark>) -> (values: Vec<String>)
    ensures
        strings_view(values@) == found_values(marks_view(marks@)),
{
    let ghost all = marks_view(marks@);
    let mut inside_target = false;
    let mut inside_item = false;
    let mut depth: usize = 0;
    let mut values: Vec<String> = Vec::new();
    let mut i: usize = 0;
    assert(all.take(0) =~= Seq::empty());
    assert(strings_view(values@) =~= Seq::empty());
    while i < marks.len()
        invariant
            i <= marks.len(),
            all == marks_view(marks@),
            depth <= i,
            search_run(all.take(i as int)) == (SearchState {
                inside_target,
                inside_item,
                depth: depth as nat,
                values: strings_view(values@),
            }),
        decreases marks.len() - i,
    {
        assert(all.take(i + 1).drop_last() =~= all.take(i as int));
        assert(all.take(i + 1).last() == marks@[i as int]@);
        match &marks[i] {
            TagMark::EnterTarget => {
                inside_target = true;
                depth = 0;
            },
            TagMark::EnterItem => {
                if inside_target {
                    inside_item = true;
                    depth += 1;
                }
            },
            TagMark::EnterOther => {
                if inside_target {
                    depth += 1;
                }
            },
            TagMark::LeaveTarget => {
                inside_target = false;
            },
            TagMark::LeaveItem => {
                inside_item = false;
                if inside_target && depth > 0 {
                    depth -= 1;
                }
            },
            TagMark::LeaveOther => {
                if inside_target && depth > 0 {
                    depth -= 1;
                }
            },
            TagMark::Text(t) => {
                if (inside_item || (inside_target && depth == 0)) && !holds_string(
                    &values,
                    t.as_str(),
                ) {
                    let ghost before = strings_view(values@);
                    values.push(t.clone());
                    assert(strings_view(values@) =~= before.push(t@));
                }
            },
            TagMark::Other => {},
        }
        i += 1;
    }
    assert(all.take(marks.len() as int) =~= all);
    values
}

/// What each event means to the search for `tag_name`.
pub fn mark_events(events: &Vec<XmlEvent>, tag_name: &str) -> (marks: Vec<TagMark>)
    ensures
        marks_view(marks@) == marks_of(events_view(events@), tag_name@),
{
    let target = to_lowercase(tag_name);
    let mut marks: Vec<TagMark> = Vec::new();
    let mut i: usize = 0;
    while i < events.len()
        invariant
            i <= events.len(),
            target@ == lowercase(tag_name@),
            marks@.len() == i,
            forall|j: int| 0 <= j < i ==> (#[trigger] marks@[j])@ == mark_of(events@[j]@, tag_name@),
        decreases events.len() - i,
    {
        let mark = match &events[i] {
            XmlEvent::Start { name, attributes } => {
                if str_equal(to_lowercase(name.as_str()).as_str(), target.as_str()) {
                    TagMark::EnterTarget
                } else if str_equal(name.as_str(), "li") {
                    TagMark::EnterItem
                } else {
                    TagMark::EnterOther
                }
            },
            XmlEvent::End { name } => {
                if str_equal(to_lowercase(name.as_str()).as_str(), target.as_str()) {
                    TagMark::LeaveTarget
                } else if str_equal(name.as_str(), "li") {
                    TagMark::LeaveItem
                } else {
                    TagMark::LeaveOther
                }
            },
            XmlEvent::Text { text } => match text {
                Some(t) => if !t.as_str().is_empty() {
                    TagMark::Text(t.clone())
                } else {
                    TagMark::Other
                },
                None => TagMark::Other,
            },
            _ => TagMark::Other,
        };
        marks.push(mark);
        i += 1;
    }
    assert(marks_view(marks@) =~= marks_of(events_view(events@), tag_name@));
    marks
}

/// The values that a document gives for `tag_name`: the trimmed texts that
/// stand directly inside an element of that name, whatever the case of its
/// letters, or inside a list item below it, each once. A malformed document
/// gives what was found before the place where it is malformed.
pub fn extract_tag_values(content: &str, tag_name: &str) -> (values: Vec<String>)
    ensures
        strings_view(values@) == found_values(marks_of(xml_events(content@), tag_name@)),
        strings_view(values@).no_duplicates(),
{
    let events = parse_events(content);
    let marks = mark_events(&events, tag_name);
    proof {
        lemma_values_distinct(marks_view(marks@));
    }
    collect_values(&marks)
}

} // verus!
