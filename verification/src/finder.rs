//! The search for the values of one tag over a corpus: what a search
//! returns, and the state of the page that starts searches and shows what
//! they found.

use crate::node::strings_view;
use crate::scan::{admits, after_arrival, after_begin, after_cancel, TurnstileView, Turnstile};
use crate::text::{is_less, lemma_str_less_total_order, str_equal, str_less};
use vstd::prelude::*;
use vstd::string::StringExecFns;

verus! {

/// The values come in strictly rising order, so that none stands twice.
pub open spec fn strictly_sorted(values: Seq<Seq<char>>) -> bool {
    forall|i: int, j: int|
        0 <= i < j < values.len() ==> str_less(#[trigger] values[i], #[trigger] values[j])
}

/// The values that stand in any of the lists.
pub open spec fn values_of(lists: Seq<Seq<Seq<char>>>) -> Set<Seq<char>> {
    Set::new(
        |v: Seq<char>|
            exists|f: int, i: int|
                0 <= f < lists.len() && 0 <= i < lists[f].len() && #[trigger] lists[f][i] == v,
    )
}

/// The values of lists of strings.
pub open spec fn lists_view(lists: Seq<Vec<String>>) -> Seq<Seq<Seq<char>>> {
    lists.map_values(|l: Vec<String>| strings_view(l@))
}

/// A list in strictly rising order is known by the values that stand in it:
/// two such lists of the same values are the same list.
pub proof fn lemma_sorted_by_values(a: Seq<Seq<char>>, b: Seq<Seq<char>>)
    requires
        strictly_sorted(a),
        strictly_sorted(b),
        a.to_set() == b.to_set(),
    ensures
        a == b,
    decreases a.len(),
{
    if a.len() == 0 {
        if b.len() > 0 {
            assert(b.to_set().contains(b[0]));
            assert(a.to_set().contains(b[0]));
        }
        assert(a =~= b);
    } else if b.len() == 0 {
        assert(a.to_set().contains(a[0]));
        assert(b.to_set().contains(a[0]));
    } else {
        assert(a.to_set().contains(a[0]));
        assert(b.to_set().contains(a[0]));
        let j = choose|j: int| 0 <= j < b.len() && b[j] == a[0];
        assert(b.to_set().contains(b[0]));
        assert(a.to_set().contains(b[0]));
        let i = choose|i: int| 0 <= i < a.len() && a[i] == b[0];
        lemma_str_less_total_order(a[0], b[0], a[0]);
        if i > 0 {
            assert(str_less(a[0], a[i]));
        }
        if j > 0 {
            assert(str_less(b[0], b[j]));
        }
        assert(a[0] == b[0]);
        let ta = a.drop_first();
        let tb = b.drop_first();
        assert(strictly_sorted(ta)) by {
            assert forall|x: int, y: int| 0 <= x < y < ta.len() implies str_less(
                #[trigger] ta[x],
                #[trigger] ta[y],
            ) by {
                assert(ta[x] == a[x + 1] && ta[y] == a[y + 1]);
            }
        }
        assert(strictly_sorted(tb)) by {
            assert forall|x: int, y: int| 0 <= x < y < tb.len() implies str_less(
                #[trigger] tb[x],
                #[trigger] tb[y],
            ) by {
                assert(tb[x] == b[x + 1] && tb[y] == b[y + 1]);
            }
        }
        assert(ta.to_set() =~= tb.to_set()) by {
            assert forall|v: Seq<char>| ta.to_set().contains(v) <==> tb.to_set().contains(v) by {
                lemma_str_less_total_order(a[0], v, a[0]);
                if ta.to_set().contains(v) {
                    let x = choose|x: int| 0 <= x < ta.len() && ta[x] == v;
                    assert(a[x + 1] == v);
                    assert(str_less(a[0], a[x + 1]));
                    assert(a.to_set().contains(v));
                    assert(b.to_set().contains(v));
                    let y = choose|y: int| 0 <= y < b.len() && b[y] == v;
                    assert(y > 0);
                    assert(tb[y - 1] == v);
                }
                if tb.to_set().contains(v) {
                    let y = choose|y: int| 0 <= y < tb.len() && tb[y] == v;
                    assert(b[y + 1] == v);
                    assert(str_less(b[0], b[y + 1]));
                    assert(b.to_set().contains(v));
                    assert(a.to_set().contains(v));
                    let x = choose|x: int| 0 <= x < a.len() && a[x] == v;
                    assert(x > 0);
                    assert(ta[x - 1] == v);
                }
            }
        }
        lemma_sorted_by_values(ta, tb);
        assert(a =~= seq![a[0]] + ta);
        assert(b =~= seq![b[0]] + tb);
    }
}

/// What one search found.
#[derive(Debug, Clone, PartialEq, Eq)]
pub struct SearchResult {
    /// The values, each once, in the order of strings.
    pub values: Vec<String>,
    /// The number of files that were looked through.
    pub xml_count: usize,
}

/// Puts a value into a sorted list, unless it is there.
fn insert_value(values: &mut Vec<String>, value: &str)
    requires
        strictly_sorted(strings_view(old(values)@)),
    ensures
        strictly_sorted(strings_view(final(values)@)),
        strings_view(final(values)@).to_set() == strings_view(old(values)@).to_set().insert(value@),
{
    let ghost before = strings_view(values@);
    let mut i: usize = 0;
    while i < values.len() && is_less(values[i].as_str(), value)
        invariant
            i <= values.len(),
            before == strings_view(values@),
            forall|j: int| 0 <= j < i ==> str_less(#[trigger] before[j], value@),
        decreases values.len() - i,
    {
        assert(before[i as int] == values@[i as int]@);
        i += 1;
    }
    if i < values.len() && str_equal(values[i].as_str(), value) {
        assert(before[i as int] == value@);
        assert(before.to_set() =~= before.to_set().insert(value@));
        return ;
    }
    values.insert(i, value.to_owned());
    let ghost after = strings_view(values@);
    proof {
        assert(after =~= before.insert(i as int, value@));
        if i < before.len() {
            assert(before[i as int] == old(values)@[i as int]@);
            lemma_str_less_total_order(before[i as int], value@, value@);
        }
        assert forall|a: int, b: int| 0 <= a < b < after.len() implies str_less(
            #[trigger] after[a],
            #[trigger] after[b],
        ) by {
            let x = if a < i { a } else { a - 1 };
            let y = if b < i { b } else { b - 1 };
            if a == i {
                assert(after[b] == before[y]);
                if y > i {
                    lemma_str_less_total_order(value@, before[i as int], before[y]);
                }
            } else if b == i {
                assert(after[a] == before[x]);
            } else {
                assert(after[a] == before[x]);
                assert(after[b] == before[y]);
            }
        }
        assert forall|v: Seq<char>| after.to_set().contains(v) <==> before.to_set().insert(
            value@,
        ).contains(v) by {
            if after.to_set().contains(v) {
                let k = choose|k: int| 0 <= k < after.len() && after[k] == v;
                if k < i {
                    assert(before[k] == v);
                } else if k > i {
                    assert(before[k - 1] == v);
                }
            }
            if before.to_set().contains(v) {
                let k = choose|k: int| 0 <= k < before.len() && before[k] == v;
                if k < i {
                    assert(after[k] == v);
                } else {
                    assert(after[k + 1] == v);
                }
            }
            if v == value@ {
                assert(after[i as int] == v);
            }
        }
        assert(after.to_set() =~= before.to_set().insert(value@));
    }
}

impl SearchResult {
    /// What a search found, from what it found in each file: every value
    /// once, in the order of strings, and the number of files.
    pub fn collect(per_file: &Vec<Vec<String>>, xml_count: usize) -> (result: SearchResult)
        ensures
            result.xml_count == xml_count,
            strictly_sorted(strings_view(result.values@)),
            strings_view(result.values@).to_set() == values_of(lists_view(per_file@)),
    {
        let ghost lists = lists_view(per_file@);
        let mut values: Vec<String> = Vec::new();
        let mut f: usize = 0;
        assert(strings_view(values@).to_set() =~= values_of(lists.take(0)));
        while f < per_file.len()
            invariant
                f <= per_file.len(),
                lists == lists_view(per_file@),
                strictly_sorted(strings_view(values@)),
                strings_view(values@).to_set() == values_of(lists.take(f as int)),
            decreases per_file.len() - f,
        {
            let file = &per_file[f];
            let ghost start = strings_view(values@).to_set();
            let ghost list = strings_view(file@);
            assert(lists[f as int] == list);
            let mut i: usize = 0;
            while i < file.len()
                invariant
                    i <= file.len(),
                    list == strings_view(file@),
                    strictly_sorted(strings_view(values@)),
                    strings_view(values@).to_set() == start.union(list.take(i as int).to_set()),
                decreases file.len() - i,
            {
                insert_value(&mut values, file[i].as_str());
                proof {
                    let sofar = list.take(i as int);
                    let upto = list.take(i + 1);
                    assert(list[i as int] == file@[i as int]@);
                    assert(upto =~= sofar.push(list[i as int]));
                    assert(upto.to_set() =~= sofar.to_set().insert(list[i as int])) by {
                        assert forall|v: Seq<char>|
                            upto.to_set().contains(v) <==> sofar.to_set().insert(
                                list[i as int],
                            ).contains(v) by {
                            if upto.to_set().contains(v) {
                                let k = choose|k: int| 0 <= k < upto.len() && upto[k] == v;
                                if k < i {
                                    assert(sofar[k] == v);
                                }
                            }
                            if sofar.to_set().contains(v) {
                                let k = choose|k: int| 0 <= k < sofar.len() && sofar[k] == v;
                                assert(upto[k] == v);
                            }
                            if v == list[i as int] {
                                assert(upto[i as int] == v);
                            }
                        }
                    }
                    assert(strings_view(values@).to_set() =~= start.union(upto.to_set()));
                }
                i += 1;
            }
            proof {
                assert(list.take(file.len() as int) =~= list);
                let done = lists.take(f as int);
                let more = lists.take(f + 1);
                assert(start.union(list.to_set()) =~= values_of(more)) by {
                    assert forall|v: Seq<char>|
                        start.union(list.to_set()).contains(v) <==> values_of(more).contains(v) by {
                        if start.contains(v) {
                            let (g, k) = choose|g: int, k: int|
                                0 <= g < done.len() && 0 <= k < done[g].len() && #[trigger] done[g][k]
                                    == v;
                            assert(more[g][k] == v);
                        }
                        if list.to_set().contains(v) {
                            let k = choose|k: int| 0 <= k < list.len() && list[k] == v;
                            assert(more[f as int][k] == v);
                        }
                        if values_of(more).contains(v) {
                            let (g, k) = choose|g: int, k: int|
                                0 <= g < more.len() && 0 <= k < more[g].len() && #[trigger] more[g][k]
                                    == v;
                            if g < f {
                                assert(done[g][k] == v);
                            } else {
                                assert(list[k] == v);
                            }
                        }
                    }
                }
            }
            f += 1;
        }
        assert(lists.take(per_file.len() as int) =~= lists);
        SearchResult { values, xml_count }
    }
}

/// What the page for the search says of itself.
#[derive(Debug, Clone, Copy, PartialEq, Eq)]
pub enum SearchStatus {
    /// Nothing was searched yet.
    Idle,
    /// A search is under way.
    Searching,
    /// No search was started: the name of the tag is empty.
    MissingTagName,
    /// No search was started: no directory is chosen.
    MissingPath,
    /// No search was started: the directory does not exist.
    PathNotFound,
    /// The last search looked through `xml_count` files and found `unique`
    /// values.
    Done { xml_count: usize, unique: usize },
}

/// What a search is started with. The ticket tells the search that the page
/// waits for from the ones before it.
#[derive(Debug, Clone, PartialEq, Eq)]
pub struct SearchRequest {
    pub ticket: u64,
    pub tag_name: String,
    pub path: String,
}

/// The page that searches the corpus for the values of one tag.
#[derive(Debug, Clone, PartialEq, Eq)]
pub struct TagFinderTab {
    /// The name of the tag as it is typed in.
    pub tag_name: String,
    /// The directory that is searched.
    pub search_path: String,
    /// The values that the last finished search found.
    pub results: Vec<String>,
    /// What the page says of itself.
    pub status: SearchStatus,
    /// A search is under way.
    pub is_searching: bool,
    /// The name of the tag when a search was last asked for by typing.
    pub last_tag_name: String,
    /// The directory as the settings last gave it.
    pub last_search_path: String,
    /// The settings were read at least once.
    pub initialized: bool,
    /// The turnstile through which the results of searches reach the page.
    turnstile: Turnstile,
}

/// The mathematical value of a [`TagFinderTab`].
pub struct FinderView {
    pub tag_name: Seq<char>,
    pub search_path: Seq<char>,
    pub results: Seq<Seq<char>>,
    pub status: SearchStatus,
    pub is_searching: bool,
    pub last_tag_name: Seq<char>,
    pub last_search_path: Seq<char>,
    pub initialized: bool,
    pub turnstile: TurnstileView,
}

impl View for TagFinderTab {
    type V = FinderView;

    closed spec fn view(&self) -> FinderView {
        FinderView {
            tag_name: self.tag_name@,
            search_path: self.search_path@,
            results: strings_view(self.results@),
            status: self.status,
            is_searching: self.is_searching,
            last_tag_name: self.last_tag_name@,
            last_search_path: self.last_search_path@,
            initialized: self.initialized,
            turnstile: self.turnstile@,
        }
    }
}

/// Why a search cannot start, if it cannot: the checks come in this order.
pub open spec fn refusal(s: FinderView, path_exists: bool) -> Option<SearchStatus> {
    if s.tag_name.len() == 0 {
        Some(SearchStatus::MissingTagName)
    } else if s.search_path.len() == 0 {
        Some(SearchStatus::MissingPath)
    } else if !path_exists {
        Some(SearchStatus::PathNotFound)
    } else {
        None
    }
}

/// The page after a search was asked for. Whatever search was under way is
/// shut out, and the old results are gone. The new search is under way
/// unless it is refused.
pub open spec fn after_request(s: FinderView, path_exists: bool) -> FinderView {
    FinderView {
        turnstile: if refusal(s, path_exists) is None {
            after_begin(s.turnstile)
        } else {
            after_cancel(s.turnstile)
        },
        results: Seq::empty(),
        status: match refusal(s, path_exists) {
            Some(why) => why,
            None => SearchStatus::Searching,
        },
        is_searching: refusal(s, path_exists) is None,
        ..s
    }
}

/// The page after a search handed in what it found. Only the search that
/// the turnstile lets through is heard.
pub open spec fn after_result(
    s: FinderView,
    ticket: nat,
    values: Seq<Seq<char>>,
    xml_count: usize,
) -> FinderView {
    if admits(s.turnstile, ticket) {
        FinderView {
            turnstile: after_arrival(s.turnstile, ticket),
            results: values,
            status: SearchStatus::Done { xml_count, unique: values.len() as usize },
            is_searching: false,
            ..s
        }
    } else {
        s
    }
}

/// The page after the settings were looked at.
pub open spec fn after_settings(s: FinderView, base_path: Seq<char>) -> FinderView {
    if base_path != s.search_path {
        FinderView {
            search_path: base_path,
            last_search_path: base_path,
            initialized: true,
            ..s
        }
    } else {
        s
    }
}

/// A new request for a search makes the page deaf to the search before it:
/// what that one hands in afterwards changes nothing, be the new search
/// refused or not.
pub proof fn lemma_new_search_supersedes(
    s: FinderView,
    first_exists: bool,
    second_exists: bool,
    values: Seq<Seq<char>>,
    xml_count: usize,
)
    ensures
        ({
            let first = after_request(s, first_exists);
            let second = after_request(first, second_exists);
            after_result(second, first.turnstile.generation, values, xml_count) == second
        }),
{
}

/// The page after one request for a search for each entry of `exists`.
pub open spec fn after_requests(s: FinderView, exists: Seq<bool>) -> FinderView
    decreases exists.len(),
{
    if exists.len() == 0 {
        s
    } else {
        after_request(after_requests(s, exists.drop_last()), exists.last())
    }
}

/// Each request for a search takes one ticket.
pub proof fn lemma_requests_take_tickets(s: FinderView, exists: Seq<bool>)
    ensures
        after_requests(s, exists).turnstile.generation == s.turnstile.generation + exists.len(),
    decreases exists.len(),
{
    if exists.len() > 0 {
        lemma_requests_take_tickets(s, exists.drop_last());
    }
}

/// However many requests follow a search, the page never hears that search
/// again.
pub proof fn lemma_superseded_forever(
    s: FinderView,
    ticket: nat,
    exists: Seq<bool>,
    values: Seq<Seq<char>>,
    xml_count: usize,
)
    requires
        ticket <= s.turnstile.generation,
        exists.len() > 0,
    ensures
        after_result(after_requests(s, exists), ticket, values, xml_count) == after_requests(
            s,
            exists,
        ),
{
    lemma_requests_take_tickets(s, exists);
}

impl TagFinderTab {
    /// A page on which nothing was typed or searched yet.
    pub fn new() -> (tab: TagFinderTab)
        ensures
            tab@ == (FinderView {
                tag_name: Seq::empty(),
                search_path: Seq::empty(),
                results: Seq::empty(),
                status: SearchStatus::Idle,
                is_searching: false,
                last_tag_name: Seq::empty(),
                last_search_path: Seq::empty(),
                initialized: false,
                turnstile: TurnstileView { generation: 0, waiting: false },
            }),
    {
        let tab = TagFinderTab {
            tag_name: String::new(),
            search_path: String::new(),
            results: Vec::new(),
            status: SearchStatus::Idle,
            is_searching: false,
            last_tag_name: String::new(),
            last_search_path: String::new(),
            initialized: false,
            turnstile: Turnstile::new(),
        };
        assert(strings_view(tab.results@) =~= Seq::empty());
        tab
    }

    /// Whether one more search can be asked for: the tickets have not run
    /// out.
    pub fn can_search(&self) -> (can: bool)
        ensures
            can == (self@.turnstile.generation < u64::MAX),
    {
        self.turnstile.can_begin()
    }

    /// The newest ticket.
    pub fn current_ticket(&self) -> (ticket: u64)
        ensures
            ticket == self@.turnstile.generation,
    {
        self.turnstile.current_ticket()
    }

    /// Whether the search with this ticket is still waited for. A search
    /// asks this between two files and gives up when it is not.
    pub fn is_current(&self, ticket: u64) -> (current: bool)
        ensures
            current == admits(self@.turnstile, ticket as nat),
    {
        self.turnstile.is_current(ticket)
    }

    /// A search is asked for. `path_exists` says whether the directory of
    /// the page exists. The result is what the search is to be started with,
    /// or `None` where it is refused.
    pub fn search_xml_files(&mut self, path_exists: bool) -> (request: Option<SearchRequest>)
        requires
            old(self)@.turnstile.generation < u64::MAX,
        ensures
            final(self)@ == after_request(old(self)@, path_exists),
            match request {
                Some(r) => {
                    &&& refusal(old(self)@, path_exists) is None
                    &&& r.ticket == final(self)@.turnstile.generation
                    &&& r.tag_name@ == old(self)@.tag_name
                    &&& r.path@ == old(self)@.search_path
                },
                None => refusal(old(self)@, path_exists) is Some,
            },
    {
        self.results = Vec::new();
        assert(strings_view(self.results@) =~= Seq::empty());
        if self.tag_name.as_str().is_empty() {
            self.turnstile.cancel();
            self.status = SearchStatus::MissingTagName;
            self.is_searching = false;
            return None;
        }
        if self.search_path.as_str().is_empty() {
            self.turnstile.cancel();
            self.status = SearchStatus::MissingPath;
            self.is_searching = false;
            return None;
        }
        if !path_exists {
            self.turnstile.cancel();
            self.status = SearchStatus::PathNotFound;
            self.is_searching = false;
            return None;
        }
        let ticket = self.turnstile.begin();
        self.status = SearchStatus::Searching;
        self.is_searching = true;
        Some(
            SearchRequest {
                ticket,
                tag_name: self.tag_name.clone(),
                path: self.search_path.clone(),
            },
        )
    }

    /// A search hands in what it found. The result says whether it was
    /// heard: only the search that the page waits for is.
    pub fn check_search_results(&mut self, ticket: u64, result: SearchResult) -> (heard: bool)
        ensures
            final(self)@ == after_result(
                old(self)@,
                ticket as nat,
                strings_view(result.values@),
                result.xml_count,
            ),
            heard == admits(old(self)@.turnstile, ticket as nat),
    {
        if self.turnstile.arrive(ticket) {
            let unique = result.values.len();
            self.results = result.values;
            self.status = SearchStatus::Done { xml_count: result.xml_count, unique };
            self.is_searching = false;
            true
        } else {
            false
        }
    }

    /// The settings are looked at. Where their directory is not the one of
    /// the page, the page takes it. The result says whether a search is to
    /// be asked for: the directory has changed, and neither it nor the name
    /// of the tag is empty.
    pub fn sync_settings(&mut self, base_path: &str) -> (should_search: bool)
        ensures
            final(self)@ == after_settings(old(self)@, base_path@),
            should_search == (base_path@ != old(self)@.search_path && old(self)@.tag_name.len() > 0
                && base_path@.len() > 0),
    {
        if str_equal(base_path, self.search_path.as_str()) {
            return false;
        }
        self.search_path = base_path.to_owned();
        self.last_search_path = base_path.to_owned();
        self.initialized = true;
        !self.tag_name.as_str().is_empty() && !base_path.is_empty()
    }

    /// The name of the tag was edited. The result says whether a search is
    /// to be asked for: the name is not the one last searched by typing, and
    /// neither it nor the directory is empty.
    pub fn tag_name_edited(&mut self) -> (should_search: bool)
        ensures
            final(self)@ == (FinderView { last_tag_name: old(self)@.tag_name, ..old(self)@ }),
            should_search == (old(self)@.tag_name != old(self)@.last_tag_name && old(
                self,
            )@.tag_name.len() > 0 && old(self)@.search_path.len() > 0),
    {
        if str_equal(self.tag_name.as_str(), self.last_tag_name.as_str()) {
            return false;
        }
        self.last_tag_name = self.tag_name.clone();
        !self.tag_name.as_str().is_empty() && !self.search_path.as_str().is_empty()
    }
}

/// The values with `, ` between them.
pub open spec fn joined(values: Seq<Seq<char>>) -> Seq<char>
    decreases values.len(),
{
    if values.len() == 0 {
        Seq::empty()
    } else if values.len() == 1 {
        values[0]
    } else {
        joined(values.drop_last()) + ", "@ + values.last()
    }
}

/// The line that shows the values: all of them with `, ` between them, or
/// where there are more than `limit`, the first `limit` and `, ...`.
pub open spec fn shown(values: Seq<Seq<char>>, limit: nat) -> Seq<char> {
    if values.len() > limit {
        joined(values.take(limit as int)) + ", ..."@
    } else {
        joined(values)
    }
}

/// The line that shows the values, at most `limit` of them.
pub fn comma_separated(values: &Vec<String>, limit: usize) -> (line: String)
    ensures
        line@ == shown(strings_view(values@), limit as nat),
{
    let ghost all = strings_view(values@);
    let count = if values.len() > limit {
        limit
    } else {
        values.len()
    };
    let mut line = String::new();
    let mut i: usize = 0;
    assert(all.take(0) =~= Seq::empty());
    while i < count
        invariant
            i <= count <= values.len(),
            all == strings_view(values@),
            line@ == joined(all.take(i as int)),
        decreases count - i,
    {
        let ghost upto = all.take(i + 1);
        assert(upto.drop_last() =~= all.take(i as int));
        assert(upto.last() == values@[i as int]@);
        if i > 0 {
            line.append(", ");
        }
        line.append(values[i].as_str());
        assert(line@ =~= joined(upto)) by {
            if i == 0 {
                assert(upto[0] == values@[0]@);
            }
        }
        i += 1;
    }
    if values.len() > limit {
        line.append(", ...");
    } else {
        assert(all.take(count as int) =~= all);
    }
    line
}

} // verus!
