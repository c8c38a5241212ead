//! The chain of ancestors of a record, the record with all that it
//! inherits, and the page that shows it.

use crate::extract::{defs_view, DefData, DefView};
use crate::index::{
    file_defs_view, first_named, has_def, lemma_has_first_named, lookup, put_defs, types_of,
    DefIndex,
};
use crate::merge::{
    distinct_tags, lemma_merge_alone, lemma_merge_nodes_distinct, merge_nodes, merge_nodes_spec,
};
use crate::node::{nodes_view, strings_view, text_view, Node, XmlNode};
use crate::render::{generate_expanded_xml, render_record};
use crate::scan::{
    admits, after_arrival, after_begin, all_of, barren, fruitful, Turnstile, TurnstileView,
};
use crate::text::{contains, has_substring, lowercase, str_equal, to_lowercase};
use vstd::prelude::*;
use vstd::set_lib::{lemma_int_range, lemma_len_subset, set_int_range};

verus! {

/// The parent of a record: the name that the record gives as its parent,
/// where the index holds the record and a record of that name.
pub open spec fn parent_in(defs: Seq<DefView>, name: Seq<char>) -> Option<Seq<char>> {
    match lookup(defs, name) {
        Some(def) => match def.parent_name {
            Some(parent) => if has_def(defs, parent) {
                Some(parent)
            } else {
                None
            },
            None => None,
        },
        None => None,
    }
}

/// The ancestor `k` steps up from `name`, which is its own ancestor at 0.
pub open spec fn ancestor(defs: Seq<DefView>, name: Seq<char>, k: nat) -> Option<Seq<char>>
    decreases k,
{
    if k == 0 {
        Some(name)
    } else {
        match ancestor(defs, name, (k - 1) as nat) {
            Some(a) => parent_in(defs, a),
            None => None,
        }
    }
}

/// The walk up from `name` never ends.
pub open spec fn is_cyclic(defs: Seq<DefView>, name: Seq<char>) -> bool {
    forall|k: nat| (#[trigger] ancestor(defs, name, k)) is Some
}

/// `chain` is the chain of `name`: its ancestors from the last one that
/// there is, which comes first, down to `name` itself.
pub open spec fn is_chain(defs: Seq<DefView>, name: Seq<char>, chain: Seq<Seq<char>>) -> bool {
    &&& chain.len() > 0
    &&& forall|i: int|
        0 <= i < chain.len() ==> ancestor(defs, name, (chain.len() - 1 - i) as nat) == Some(
            #[trigger] chain[i],
        )
    &&& ancestor(defs, name, chain.len()) is None
}

/// The nodes of the records of a chain, merged in the order of the chain.
pub open spec fn merged_chain(defs: Seq<DefView>, chain: Seq<Seq<char>>) -> Seq<Node>
    decreases chain.len(),
{
    if chain.len() == 0 {
        Seq::empty()
    } else {
        let before = merged_chain(defs, chain.drop_last());
        match lookup(defs, chain.last()) {
            Some(def) => merge_nodes_spec(before, def.raw_nodes),
            None => before,
        }
    }
}

/// What a chain merges into holds one node for each tag.
pub proof fn lemma_merged_chain_distinct(defs: Seq<DefView>, chain: Seq<Seq<char>>)
    ensures
        distinct_tags(merged_chain(defs, chain)),
    decreases chain.len(),
{
    if chain.len() > 0 {
        lemma_merged_chain_distinct(defs, chain.drop_last());
        match lookup(defs, chain.last()) {
            Some(def) => {
                lemma_merge_nodes_distinct(merged_chain(defs, chain.drop_last()), def.raw_nodes);
            },
            None => {},
        }
    }
}

/// Why a record could not be resolved.
#[derive(Debug, Clone, Copy, PartialEq, Eq)]
pub enum ResolveError {
    /// The walk up from the record comes back to a record that it has
    /// passed.
    CycleDetected,
}

/// A record with all that it inherits.
#[derive(Debug, Clone, PartialEq, Eq)]
pub struct Expansion {
    /// The names of the record's ancestors, the root first, and of the record
    /// itself, which comes last.
    pub chain: Vec<String>,
    /// The canonical text of the merged record.
    pub xml: String,
}

/// Names that differ and all stand in the index are no more than its
/// records.
proof fn lemma_distinct_names_bounded(defs: Seq<DefView>, names: Seq<Seq<char>>)
    requires
        names.no_duplicates(),
        forall|i: int| 0 <= i < names.len() ==> has_def(defs, #[trigger] names[i]),
    ensures
        names.len() <= defs.len(),
{
    let places = Seq::new(names.len(), |i: int| first_named(defs, names[i]));
    assert forall|i: int| 0 <= i < places.len() implies 0 <= #[trigger] places[i] < defs.len()
        && defs[places[i]].def_name == names[i] by {
        lemma_has_first_named(defs, names[i]);
    }
    assert(places.no_duplicates()) by {
        assert forall|a: int, b: int|
            0 <= a < places.len() && 0 <= b < places.len() && a != b implies places[a]
            != places[b] by {
            assert(defs[places[a]].def_name == names[a]);
            assert(defs[places[b]].def_name == names[b]);
        }
    }
    places.unique_seq_to_set();
    lemma_int_range(0, defs.len() as int);
    assert(places.to_set().subset_of(set_int_range(0, defs.len() as int))) by {
        assert forall|p: int| places.to_set().contains(p) implies set_int_range(
            0,
            defs.len() as int,
        ).contains(p) by {
            let i = choose|i: int| 0 <= i < places.len() && places[i] == p;
            assert(0 <= places[i] < defs.len());
        }
    }
    lemma_len_subset(places.to_set(), set_int_range(0, defs.len() as int));
}

/// Two walks that stand at the same record stay together.
proof fn lemma_walks_agree(defs: Seq<DefView>, name: Seq<char>, a: nat, b: nat, t: nat)
    requires
        ancestor(defs, name, a) == ancestor(defs, name, b),
    ensures
        ancestor(defs, name, a + t) == ancestor(defs, name, b + t),
    decreases t,
{
    if t > 0 {
        lemma_walks_agree(defs, name, a, b, (t - 1) as nat);
    }
}

/// A walk that comes back to a record that it has passed never ends.
proof fn lemma_repeat_never_ends(defs: Seq<DefView>, name: Seq<char>, j: nat, k: nat, m: nat)
    requires
        j <= k,
        ancestor(defs, name, k + 1) == ancestor(defs, name, j),
        forall|i: nat| i <= k ==> (#[trigger] ancestor(defs, name, i)) is Some,
    ensures
        ancestor(defs, name, m) is Some,
    decreases m,
{
    if m > k {
        let t = (m - (k + 1)) as nat;
        lemma_walks_agree(defs, name, k + 1, j, t);
        lemma_repeat_never_ends(defs, name, j, k, j + t);
    }
}

/// A record that is its own ancestor has no chain: the walk up from it
/// never ends.
pub proof fn lemma_loop_is_cyclic(defs: Seq<DefView>, name: Seq<char>, k: nat)
    requires
        k > 0,
        ancestor(defs, name, k) == Some(name),
    ensures
        is_cyclic(defs, name),
        forall|chain: Seq<Seq<char>>| !is_chain(defs, name, chain),
{
    assert forall|i: nat| i <= k - 1 implies (#[trigger] ancestor(defs, name, i)) is Some by {
        lemma_some_below(defs, name, k, i);
    }
    assert forall|m: nat| (#[trigger] ancestor(defs, name, m)) is Some by {
        lemma_repeat_never_ends(defs, name, 0, (k - 1) as nat, m);
    }
}

/// Below an ancestor that there is, every ancestor is there.
proof fn lemma_some_below(defs: Seq<DefView>, name: Seq<char>, k: nat, i: nat)
    requires
        i <= k,
        ancestor(defs, name, k) is Some,
    ensures
        ancestor(defs, name, i) is Some,
    decreases k,
{
    if i < k {
        lemma_some_below(defs, name, (k - 1) as nat, i);
    }
}

/// A record has at most one chain.
pub proof fn lemma_chain_unique(
    defs: Seq<DefView>,
    name: Seq<char>,
    a: Seq<Seq<char>>,
    b: Seq<Seq<char>>,
)
    requires
        is_chain(defs, name, a),
        is_chain(defs, name, b),
    ensures
        a == b,
{
    if a.len() < b.len() {
        assert(ancestor(defs, name, a.len()) == Some(b[b.len() - 1 - a.len()]));
    } else if b.len() < a.len() {
        assert(ancestor(defs, name, b.len()) == Some(a[a.len() - 1 - b.len()]));
    } else {
        assert forall|i: int| 0 <= i < a.len() implies a[i] == b[i] by {
            assert(ancestor(defs, name, (a.len() - 1 - i) as nat) == Some(a[i]));
            assert(ancestor(defs, name, (b.len() - 1 - i) as nat) == Some(b[i]));
        }
        assert(a =~= b);
    }
}

/// In a chain the record itself comes last, each name before it is the
/// parent of the name after it, and the first has no parent in the index.
pub proof fn lemma_chain_order(defs: Seq<DefView>, name: Seq<char>, chain: Seq<Seq<char>>)
    requires
        is_chain(defs, name, chain),
    ensures
        chain.last() == name,
        parent_in(defs, chain[0]) is None,
        forall|i: int|
            0 <= i < chain.len() - 1 ==> parent_in(defs, #[trigger] chain[i + 1]) == Some(chain[i]),
{
    assert(ancestor(defs, name, 0) == Some(chain[chain.len() - 1]));
    assert(ancestor(defs, name, (chain.len() - 1) as nat) == Some(chain[0]));
    assert forall|i: int| 0 <= i < chain.len() - 1 implies parent_in(defs, #[trigger] chain[i + 1])
        == Some(chain[i]) by {
        assert(ancestor(defs, name, (chain.len() - 1 - (i + 1)) as nat) == Some(chain[i + 1]));
        assert(ancestor(defs, name, (chain.len() - 1 - i) as nat) == Some(chain[i]));
    }
}

/// A record without a parent in the index, be it that it names none or that
/// the one it names is unknown, has a chain of one: itself.
pub proof fn lemma_missing_parent(defs: Seq<DefView>, name: Seq<char>)
    requires
        match lookup(defs, name) {
            Some(def) => match def.parent_name {
                Some(parent) => !has_def(defs, parent),
                None => true,
            },
            None => true,
        },
    ensures
        is_chain(defs, name, seq![name]),
{
    assert(ancestor(defs, name, 0) == Some(name));
    assert(ancestor(defs, name, 1) == parent_in(defs, name)) by {
        reveal_with_fuel(ancestor, 2);
    }
}

/// A record without a parent in the index is shown as it stands: its chain
/// is itself, and what the chain merges into are its own nodes in their
/// order, where no two of them have the same tag.
pub proof fn lemma_record_alone(defs: Seq<DefView>, name: Seq<char>)
    requires
        lookup(defs, name) is Some,
        parent_in(defs, name) is None,
        distinct_tags(lookup(defs, name)->0.raw_nodes),
    ensures
        is_chain(defs, name, seq![name]),
        merged_chain(defs, seq![name]) == lookup(defs, name)->0.raw_nodes,
{
    lemma_missing_parent(defs, name);
    let chain = seq![name];
    assert(chain.drop_last() =~= Seq::<Seq<char>>::empty());
    assert(chain.last() == name);
    assert(merged_chain(defs, chain.drop_last()) =~= Seq::<Node>::empty());
    lemma_merge_alone(lookup(defs, name)->0.raw_nodes);
}

/// The parent of a record in the index.
fn parent_of(index: &DefIndex, name: &str) -> (parent: Option<String>)
    ensures
        text_view(parent) == parent_in(index@, name@),
{
    match index.get(name) {
        Some(def) => match &def.parent_name {
            Some(p) => if index.contains(p.as_str()) {
                Some(p.clone())
            } else {
                None
            },
            None => None,
        },
        None => None,
    }
}

/// Whether `name` is among `names`.
fn contains_name(names: &Vec<String>, name: &str) -> (found: Option<usize>)
    ensures
        match found {
            Some(i) => i < names@.len() && names@[i as int]@ == name@,
            None => forall|i: int| 0 <= i < names@.len() ==> (#[trigger] names@[i])@ != name@,
        },
{
    let mut i: usize = 0;
    while i < names.len()
        invariant
            i <= names.len(),
            forall|j: int| 0 <= j < i ==> (#[trigger] names@[j])@ != name@,
        decreases names.len() - i,
    {
        if str_equal(names[i].as_str(), name) {
            return Some(i);
        }
        i += 1;
    }
    None
}

/// The chain of a record: the names of its ancestors, the root first, and
/// its own name last. The walk goes from the record to its parent for as
/// long as the index holds the parent. It fails where it comes back to a
/// record that it has passed.
pub fn resolve_chain(index: &DefIndex, name: &str) -> (result: Result<Vec<String>, ResolveError>)
    ensures
        match result {
            Ok(chain) => is_chain(index@, name@, strings_view(chain@)),
            Err(e) => e == ResolveError::CycleDetected && is_cyclic(index@, name@),
        },
{
    let ghost defs = index@;
    let mut up: Vec<String> = Vec::new();
    up.push(name.to_owned());
    loop
        invariant_except_break
            up@.len() <= defs.len() + 1,
        invariant
            defs == index@,
            up@.len() >= 1,
            forall|i: int|
                0 <= i < up@.len() ==> ancestor(defs, name@, i as nat) == Some((#[trigger] up@[i])@),
            forall|i: int, j: int|
                0 <= i < j < up@.len() ==> (#[trigger] up@[i])@ != (#[trigger] up@[j])@,
            forall|i: int| 1 <= i < up@.len() ==> has_def(defs, (#[trigger] up@[i])@),
        ensures
            ancestor(defs, name@, up@.len() as nat) is None,
        decreases defs.len() + 1 - up@.len(),
    {
        let k = up.len() - 1;
        assert(ancestor(defs, name@, k as nat) == Some(up@[k as int]@));
        match parent_of(index, up[k].as_str()) {
            None => {
                break ;
            },
            Some(parent) => {
                assert(ancestor(defs, name@, (k + 1) as nat) == Some(parent@));
                match contains_name(&up, parent.as_str()) {
                    Some(j) => {
                        proof {
                            assert(ancestor(defs, name@, j as nat) == Some(up@[j as int]@));
                            assert forall|i: nat| i <= k implies (#[trigger] ancestor(
                                defs,
                                name@,
                                i,
                            )) is Some by {
                                assert(ancestor(defs, name@, i) == Some(up@[i as int]@));
                            }
                            assert forall|m: nat| (#[trigger] ancestor(defs, name@, m)) is Some by {
                                lemma_repeat_never_ends(defs, name@, j as nat, k as nat, m);
                            }
                        }
                        return Err(ResolveError::CycleDetected);
                    },
                    None => {
                        up.push(parent);
                        proof {
                            let above = strings_view(up@).skip(1);
                            assert forall|a: int, b: int|
                                0 <= a < above.len() && 0 <= b < above.len() && a != b implies above[a]
                                != above[b] by {
                                assert(above[a] == up@[a + 1]@);
                                assert(above[b] == up@[b + 1]@);
                            }
                            assert forall|i: int| 0 <= i < above.len() implies has_def(
                                defs,
                                #[trigger] above[i],
                            ) by {
                                assert(above[i] == up@[i + 1]@);
                            }
                            lemma_distinct_names_bounded(defs, above);
                        }
                    },
                }
            },
        }
    }
    let mut chain: Vec<String> = Vec::new();
    let mut i: usize = up.len();
    while i > 0
        invariant
            i <= up@.len(),
            chain@.len() == up@.len() - i,
            forall|j: int| 0 <= j < chain@.len() ==> (#[trigger] chain@[j])@ == up@[up@.len() - 1 - j]@,
        decreases i,
    {
        i -= 1;
        chain.push(up[i].clone());
    }
    assert forall|j: int| 0 <= j < chain@.len() implies ancestor(
        defs,
        name@,
        (chain@.len() - 1 - j) as nat,
    ) == Some(#[trigger] strings_view(chain@)[j]) by {
        assert(strings_view(chain@)[j] == chain@[j]@);
        assert(ancestor(defs, name@, (up@.len() - 1 - j) as nat) == Some(up@[up@.len() - 1 - j]@));
    }
    Ok(chain)
}

/// The nodes of the records of a chain, merged in the order of the chain.
pub fn merge_chain(index: &DefIndex, chain: &Vec<String>) -> (merged: Vec<XmlNode>)
    ensures
        nodes_view(merged@) == merged_chain(index@, strings_view(chain@)),
        distinct_tags(nodes_view(merged@)),
{
    proof {
        lemma_merged_chain_distinct(index@, strings_view(chain@));
    }
    let ghost names = strings_view(chain@);
    let mut merged: Vec<XmlNode> = Vec::new();
    let mut i: usize = 0;
    assert(names.take(0) =~= Seq::empty());
    assert(nodes_view(merged@) =~= Seq::empty());
    while i < chain.len()
        invariant
            i <= chain.len(),
            names == strings_view(chain@),
            nodes_view(merged@) == merged_chain(index@, names.take(i as int)),
        decreases chain.len() - i,
    {
        assert(names.take(i + 1).drop_last() =~= names.take(i as int));
        assert(names.take(i + 1).last() == chain@[i as int]@);
        match index.get(chain[i].as_str()) {
            Some(def) => {
                merge_nodes(&mut merged, &def.raw_nodes);
            },
            None => {},
        }
        i += 1;
    }
    assert(names.take(chain.len() as int) =~= names);
    merged
}

/// The record of the given name with all that it inherits: its chain, and
/// the text of what the records of the chain merge into. `None` where the
/// index holds no record of that name.
pub fn expand_inheritance(index: &DefIndex, name: &str) -> (result: Result<
    Option<Expansion>,
    ResolveError,
>)
    ensures
        match result {
            Ok(Some(expansion)) => {
                &&& lookup(index@, name@) is Some
                &&& is_chain(index@, name@, strings_view(expansion.chain@))
                &&& expansion.xml@ == render_record(
                    name@,
                    lookup(index@, name@)->0.def_type,
                    merged_chain(index@, strings_view(expansion.chain@)),
                )
            },
            Ok(None) => lookup(index@, name@) is None,
            Err(e) => {
                &&& e == ResolveError::CycleDetected
                &&& lookup(index@, name@) is Some
                &&& is_cyclic(index@, name@)
            },
        },
{
    match index.get(name) {
        None => Ok(None),
        Some(def) => {
            match resolve_chain(index, name) {
                Err(e) => Err(e),
                Ok(chain) => {
                    let merged = merge_chain(index, &chain);
                    let xml = generate_expanded_xml(name, def.def_type.as_str(), &merged);
                    Ok(Some(Expansion { chain, xml }))
                },
            }
        },
    }
}

/// What the page for inheritance says of itself.
#[derive(Debug, Clone, Copy, PartialEq, Eq)]
pub enum InheritanceStatus {
    /// Nothing was scanned yet.
    Idle,
    /// A scan has begun.
    Scanning,
    /// So many files were found and are being read.
    Parsing { files: usize },
    /// The last scan found so many definitions of so many types, the
    /// abstract ones included, in so many files, and none in so many others.
    Done { defs: usize, types: usize, files_with_defs: usize, files_without_defs: usize },
}

/// The page that shows a record with all that it inherits.
pub struct InheritanceTab {
    /// The directory that is scanned.
    pub base_directory: String,
    /// The records of the last scan.
    pub all_defs: DefIndex,
    /// The name of the record that is shown, empty where none is.
    pub selected_def_name: String,
    /// What the list of names is narrowed by.
    pub search_query: String,
    /// A scan is under way.
    pub is_loading: bool,
    /// What the page says of itself.
    pub status: InheritanceStatus,
    /// The text of the shown record with all that it inherits.
    pub expanded_xml: String,
    /// The chain of the shown record.
    pub inheritance_chain: Vec<String>,
    /// Why the selected record could not be resolved, if it could not.
    pub failure: Option<ResolveError>,
    /// The turnstile through which the records of scans reach the page.
    turnstile: Turnstile,
}

/// The mathematical value of an [`InheritanceTab`].
pub struct InheritanceView {
    pub base_directory: Seq<char>,
    pub all_defs: Seq<DefView>,
    pub selected_def_name: Seq<char>,
    pub search_query: Seq<char>,
    pub is_loading: bool,
    pub status: InheritanceStatus,
    pub expanded_xml: Seq<char>,
    pub inheritance_chain: Seq<Seq<char>>,
    pub failure: Option<ResolveError>,
    pub turnstile: TurnstileView,
}

impl View for InheritanceTab {
    type V = InheritanceView;

    closed spec fn view(&self) -> InheritanceView {
        InheritanceView {
            base_directory: self.base_directory@,
            all_defs: self.all_defs@,
            selected_def_name: self.selected_def_name@,
            search_query: self.search_query@,
            is_loading: self.is_loading,
            status: self.status,
            expanded_xml: self.expanded_xml@,
            inheritance_chain: strings_view(self.inheritance_chain@),
            failure: self.failure,
            turnstile: self.turnstile@,
        }
    }
}

/// A name is listed under a query when the query is empty or stands in the
/// name, both taken in lowercase.
pub open spec fn is_listed(name: Seq<char>, query: Seq<char>) -> bool {
    query.len() == 0 || has_substring(lowercase(name), lowercase(query))
}

/// The names that the page offers under a query: those of the records that
/// are not abstract and are listed under the query, in the order of the
/// index. An abstract record is a template and is shown only as an ancestor
/// of other records.
pub open spec fn offered(defs: Seq<DefView>, query: Seq<char>) -> Seq<Seq<char>>
    decreases defs.len(),
{
    if defs.len() == 0 {
        Seq::empty()
    } else if !defs.last().is_abstract && is_listed(defs.last().def_name, query) {
        offered(defs.drop_last(), query).push(defs.last().def_name)
    } else {
        offered(defs.drop_last(), query)
    }
}

/// The page with nothing shown.
pub open spec fn cleared(s: InheritanceView) -> InheritanceView {
    InheritanceView {
        expanded_xml: Seq::empty(),
        inheritance_chain: Seq::empty(),
        failure: None,
        ..s
    }
}

/// The page after a scan has begun: whatever scan was under way is shut
/// out. The index of the last scan stays as it is until the new scan
/// publishes its own.
pub open spec fn after_scan_begins(s: InheritanceView) -> InheritanceView {
    InheritanceView {
        is_loading: true,
        status: InheritanceStatus::Scanning,
        turnstile: after_begin(s.turnstile),
        ..s
    }
}

/// The index that a scan makes of the records of its files: they enter it
/// file by file in their order, so that of two records with one name the
/// later one stays.
pub open spec fn index_of(per_file: Seq<Seq<DefView>>) -> Seq<DefView> {
    put_defs(Seq::empty(), all_of(per_file))
}

/// The page after a scan has ended with the records of each file. The scan
/// that the page waits for publishes its index whole, in the place of the
/// one before: nothing is selected or shown any more, and the page says how
/// many files gave records and how many gave none. Any other scan changes
/// nothing.
pub open spec fn after_scan_ends(
    s: InheritanceView,
    ticket: nat,
    per_file: Seq<Seq<DefView>>,
) -> InheritanceView {
    if admits(s.turnstile, ticket) {
        InheritanceView {
            all_defs: index_of(per_file),
            selected_def_name: Seq::empty(),
            status: InheritanceStatus::Done {
                defs: index_of(per_file).len() as usize,
                types: types_of(index_of(per_file)).len() as usize,
                files_with_defs: fruitful(per_file) as usize,
                files_without_defs: barren(per_file) as usize,
            },
            is_loading: false,
            turnstile: after_arrival(s.turnstile, ticket),
            ..cleared(s)
        }
    } else {
        s
    }
}

/// The page showing the record of the given name. A record that the index
/// holds is shown with its chain and the text of what the chain merges
/// into; where the walk up from it never ends, nothing is shown but the
/// failure. Nothing is shown of an abstract record, which stands only as
/// an ancestor of others, nor of a name that the index does not hold.
pub open spec fn shows(s: InheritanceView, name: Seq<char>) -> bool {
    match lookup(s.all_defs, name) {
        Some(def) => if def.is_abstract {
            s == cleared(s)
        } else if is_cyclic(s.all_defs, name) {
            &&& s.failure == Some(ResolveError::CycleDetected)
            &&& s.expanded_xml == Seq::<char>::empty()
            &&& s.inheritance_chain == Seq::<Seq<char>>::empty()
        } else {
            &&& s.failure is None
            &&& is_chain(s.all_defs, name, s.inheritance_chain)
            &&& s.expanded_xml == render_record(
                name,
                def.def_type,
                merged_chain(s.all_defs, s.inheritance_chain),
            )
        },
        None => s == cleared(s),
    }
}

/// A scan that begins while another is under way keeps the records of the
/// other from the index for good: when the other ends, the page stays as it
/// is.
pub proof fn lemma_superseded_scan_publishes_nothing(
    s: InheritanceView,
    per_file: Seq<Seq<DefView>>,
)
    ensures
        ({
            let first = after_scan_begins(s);
            let second = after_scan_begins(first);
            after_scan_ends(second, first.turnstile.generation, per_file) == second
        }),
{
}

impl Default for InheritanceTab {
    /// A page that has scanned nothing and shows nothing.
    fn default() -> (tab: InheritanceTab)
        ensures
            tab@ == (InheritanceView {
                base_directory: Seq::empty(),
                all_defs: Seq::empty(),
                selected_def_name: Seq::empty(),
                search_query: Seq::empty(),
                is_loading: false,
                status: InheritanceStatus::Idle,
                expanded_xml: Seq::empty(),
                inheritance_chain: Seq::empty(),
                failure: None,
                turnstile: TurnstileView { generation: 0, waiting: false },
            }),
    {
        let tab = InheritanceTab {
            base_directory: String::new(),
            all_defs: DefIndex::new(),
            selected_def_name: String::new(),
            search_query: String::new(),
            is_loading: false,
            status: InheritanceStatus::Idle,
            expanded_xml: String::new(),
            inheritance_chain: Vec::new(),
            failure: None,
            turnstile: Turnstile::new(),
        };
        assert(strings_view(tab.inheritance_chain@) =~= Seq::empty());
        tab
    }
}

impl InheritanceTab {
    /// Whether one more scan can begin: the tickets have not run out.
    pub fn can_scan(&self) -> (can: bool)
        ensures
            can == (self@.turnstile.generation < u64::MAX),
    {
        self.turnstile.can_begin()
    }

    /// Whether the scan with this ticket is still waited for. A scan asks
    /// this between two files and gives up when it is not.
    pub fn is_current(&self, ticket: u64) -> (current: bool)
        ensures
            current == admits(self@.turnstile, ticket as nat),
    {
        self.turnstile.is_current(ticket)
    }

    /// A scan begins and takes its ticket.
    pub fn scan_all_defs(&mut self) -> (ticket: u64)
        requires
            old(self)@.turnstile.generation < u64::MAX,
        ensures
            final(self)@ == after_scan_begins(old(self)@),
            ticket == final(self)@.turnstile.generation,
    {
        self.is_loading = true;
        self.status = InheritanceStatus::Scanning;
        self.turnstile.begin()
    }

    /// The files to read are counted.
    pub fn files_found(&mut self, files: usize)
        ensures
            final(self)@ == (InheritanceView {
                status: InheritanceStatus::Parsing { files },
                ..old(self)@
            }),
    {
        self.status = InheritanceStatus::Parsing { files };
    }

    /// A scan ends with the records of each file, an empty list for a file
    /// that could not be read. The result says whether they were published.
    pub fn finish_scan(&mut self, ticket: u64, per_file: Vec<Vec<DefData>>) -> (published: bool)
        ensures
            published == admits(old(self)@.turnstile, ticket as nat),
            final(self)@ == after_scan_ends(old(self)@, ticket as nat, file_defs_view(per_file@)),
    {
        if !self.turnstile.arrive(ticket) {
            return false;
        }
        let count = per_file.len();
        let mut index = DefIndex::new();
        let with_defs = index.insert_files(per_file);
        self.all_defs = index;
        self.selected_def_name = String::new();
        self.expanded_xml = String::new();
        self.inheritance_chain = Vec::new();
        self.failure = None;
        assert(strings_view(self.inheritance_chain@) =~= Seq::empty());
        self.status = InheritanceStatus::Done {
            defs: self.all_defs.len(),
            types: self.all_defs.types().len(),
            files_with_defs: with_defs,
            files_without_defs: count - with_defs,
        };
        self.is_loading = false;
        true
    }

    /// The query was edited: nothing is selected or shown any more.
    pub fn query_changed(&mut self)
        ensures
            final(self)@ == (InheritanceView {
                selected_def_name: Seq::empty(),
                ..cleared(old(self)@)
            }),
    {
        self.selected_def_name = String::new();
        self.expanded_xml = String::new();
        self.inheritance_chain = Vec::new();
        self.failure = None;
        assert(strings_view(self.inheritance_chain@) =~= Seq::empty());
    }

    /// The names that the page offers under its query.
    pub fn filtered_defs(&self) -> (listed: Vec<String>)
        ensures
            strings_view(listed@) == offered(self@.all_defs, self@.search_query),
    {
        let records = self.all_defs.records();
        let query = to_lowercase(self.search_query.as_str());
        let ghost all = self@.all_defs;
        let mut listed: Vec<String> = Vec::new();
        let mut i: usize = 0;
        assert(all.take(0) =~= Seq::empty());
        assert(strings_view(listed@) =~= Seq::empty());
        while i < records.len()
            invariant
                i <= records.len(),
                all == defs_view(records@),
                query@ == lowercase(self@.search_query),
                self.search_query@ == self@.search_query,
                strings_view(listed@) == offered(all.take(i as int), self@.search_query),
            decreases records.len() - i,
        {
            assert(all.take(i + 1).drop_last() =~= all.take(i as int));
            assert(all.take(i + 1).last() == records@[i as int]@);
            let record = &records[i];
            if !record.is_abstract && (self.search_query.as_str().is_empty() || contains(
                to_lowercase(record.def_name.as_str()).as_str(),
                query.as_str(),
            )) {
                let ghost before = strings_view(listed@);
                listed.push(record.def_name.clone());
                assert(strings_view(listed@) =~= before.push(record@.def_name));
            }
            i += 1;
        }
        assert(all.take(records.len() as int) =~= all);
        listed
    }

    /// A name is clicked: the record of that name is selected and shown
    /// with all that it inherits.
    pub fn select(&mut self, def_name: &str)
        ensures
            shows(final(self)@, def_name@),
            final(self)@ == (InheritanceView {
                selected_def_name: def_name@,
                expanded_xml: final(self)@.expanded_xml,
                inheritance_chain: final(self)@.inheritance_chain,
                failure: final(self)@.failure,
                ..old(self)@
            }),
    {
        self.selected_def_name = def_name.to_owned();
        self.expand_inheritance();
    }

    /// Shows the selected record with all that it inherits.
    pub fn expand_inheritance(&mut self)
        ensures
            shows(final(self)@, old(self)@.selected_def_name),
            final(self)@ == (InheritanceView {
                expanded_xml: final(self)@.expanded_xml,
                inheritance_chain: final(self)@.inheritance_chain,
                failure: final(self)@.failure,
                ..old(self)@
            }),
    {
        self.inheritance_chain = Vec::new();
        self.expanded_xml = String::new();
        self.failure = None;
        assert(strings_view(self.inheritance_chain@) =~= Seq::empty());
        let is_template = match self.all_defs.get(self.selected_def_name.as_str()) {
            Some(def) => def.is_abstract,
            None => false,
        };
        if is_template {
            return ;
        }
        match expand_inheritance(&self.all_defs, self.selected_def_name.as_str()) {
            Ok(Some(expansion)) => {
                proof {
                    let defs = self.all_defs@;
                    let name = self.selected_def_name@;
                    let chain = strings_view(expansion.chain@);
                    assert(ancestor(defs, name, chain.len()) is None);
                }
                self.inheritance_chain = expansion.chain;
                self.expanded_xml = expansion.xml;
            },
            Ok(None) => {},
            Err(e) => {
                self.failure = Some(e);
            },
        }
    }
}

} // verus!
