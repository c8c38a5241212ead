//! The index of the records of one scan, by name.

use crate::extract::{defs_view, DefData, DefView};
use crate::node::{holds_string, strings_view};
use crate::scan::{all_of, fruitful};
use crate::text::str_equal;
use vstd::prelude::*;

verus! {


/// Some record of `defs` has the name.
pub open spec fn has_def(defs: Seq<DefView>, name: Seq<char>) -> bool {
    exists|i: int| 0 <= i < defs.len() && (#[trigger] defs[i]).def_name == name
}

/// `i` is the place of the first record of `defs` with the name.
pub open spec fn is_first_named(defs: Seq<DefView>, name: Seq<char>, i: int) -> bool {
    &&& 0 <= i < defs.len()
    &&& defs[i].def_name == name
    &&& forall|j: int| 0 <= j < i ==> (#[trigger] defs[j]).def_name != name
}

/// The place of the first record of `defs` with the name.
pub open spec fn first_named(defs: Seq<DefView>, name: Seq<char>) -> int {
    choose|i: int| is_first_named(defs, name, i)
}

/// The record with the name.
pub open spec fn lookup(defs: Seq<DefView>, name: Seq<char>) -> Option<DefView> {
    if has_def(defs, name) {
        Some(defs[first_named(defs, name)])
    } else {
        None
    }
}

/// No two records have the same name.
pub open spec fn unique_names(defs: Seq<DefView>) -> bool {
    forall|i: int, j: int|
        0 <= i < j < defs.len() ==> (#[trigger] defs[i]).def_name != (#[trigger] defs[j]).def_name
}

/// A record enters the index: it takes the place of the record with its
/// name, or comes last where there is none.
pub open spec fn put_def(defs: Seq<DefView>, def: DefView) -> Seq<DefView> {
    if has_def(defs, def.def_name) {
        defs.update(first_named(defs, def.def_name), def)
    } else {
        defs.push(def)
    }
}

/// The records enter the index one after the other.
pub open spec fn put_defs(defs: Seq<DefView>, more: Seq<DefView>) -> Seq<DefView>
    decreases more.len(),
{
    if more.len() == 0 {
        defs
    } else {
        put_def(put_defs(defs, more.drop_last()), more.last())
    }
}

/// The values of the records of the files of a scan.
pub open spec fn file_defs_view(per_file: Seq<Vec<DefData>>) -> Seq<Seq<DefView>> {
    per_file.map_values(|f: Vec<DefData>| defs_view(f@))
}

/// Records that enter the index in two runs enter it as in one.
pub proof fn lemma_put_defs_in_runs(defs: Seq<DefView>, first: Seq<DefView>, second: Seq<DefView>)
    ensures
        put_defs(defs, first + second) == put_defs(put_defs(defs, first), second),
    decreases second.len(),
{
    if second.len() == 0 {
        assert(first + second =~= first);
    } else {
        lemma_put_defs_in_runs(defs, first, second.drop_last());
        assert((first + second).drop_last() =~= first + second.drop_last());
        assert((first + second).last() == second.last());
    }
}

/// The types of the records, each once, in the order in which they are
/// first met.
pub open spec fn types_of(defs: Seq<DefView>) -> Seq<Seq<char>>
    decreases defs.len(),
{
    if defs.len() == 0 {
        Seq::empty()
    } else if types_of(defs.drop_last()).contains(defs.last().def_type) {
        types_of(defs.drop_last())
    } else {
        types_of(defs.drop_last()).push(defs.last().def_type)
    }
}

/// No more types than records.
pub proof fn lemma_types_bound(defs: Seq<DefView>)
    ensures
        types_of(defs).len() <= defs.len(),
        types_of(defs).no_duplicates(),
    decreases defs.len(),
{
    if defs.len() > 0 {
        lemma_types_bound(defs.drop_last());
    }
}

/// `k` is the place of the last record of `defs` with the name.
pub open spec fn is_last_named(defs: Seq<DefView>, name: Seq<char>, k: int) -> bool {
    &&& 0 <= k < defs.len()
    &&& defs[k].def_name == name
    &&& forall|j: int| k < j < defs.len() ==> (#[trigger] defs[j]).def_name != name
}

/// Putting records into an index without repeated names leaves it without
/// repeated names.
pub proof fn lemma_put_defs_unique(defs: Seq<DefView>, more: Seq<DefView>)
    requires
        unique_names(defs),
    ensures
        unique_names(put_defs(defs, more)),
    decreases more.len(),
{
    if more.len() > 0 {
        lemma_put_defs_unique(defs, more.drop_last());
        lemma_put_def(put_defs(defs, more.drop_last()), more.last());
    }
}

/// The last writer wins: of the records that enter an index, the last one
/// of a name is the one found under that name afterwards, and a name that
/// none of them has is found as before.
pub proof fn lemma_last_writer_wins(defs: Seq<DefView>, more: Seq<DefView>, name: Seq<char>)
    requires
        unique_names(defs),
    ensures
        forall|k: int|
            is_last_named(more, name, k) ==> lookup(put_defs(defs, more), name) == Some(more[k]),
        !has_def(more, name) ==> lookup(put_defs(defs, more), name) == lookup(defs, name),
    decreases more.len(),
{
    if more.len() > 0 {
        let before = more.drop_last();
        let last = more.last();
        lemma_last_writer_wins(defs, before, name);
        lemma_put_defs_unique(defs, before);
        lemma_put_def(put_defs(defs, before), last);
        if last.def_name == name {
            assert forall|k: int| is_last_named(more, name, k) implies lookup(
                put_defs(defs, more),
                name,
            ) == Some(more[k]) by {
                if k < more.len() - 1 {
                    assert(more[more.len() - 1].def_name != name);
                }
            }
            assert(more[more.len() - 1].def_name == name);
        } else {
            assert forall|k: int| is_last_named(more, name, k) implies lookup(
                put_defs(defs, more),
                name,
            ) == Some(more[k]) by {
                assert(k < before.len());
                assert(before[k] == more[k]);
                assert(is_last_named(before, name, k)) by {
                    assert forall|j: int| k < j < before.len() implies (#[trigger] before[j]).def_name
                        != name by {
                        assert(before[j] == more[j]);
                    }
                }
            }
            if !has_def(more, name) {
                if has_def(before, name) {
                    let j = choose|j: int|
                        0 <= j < before.len() && (#[trigger] before[j]).def_name == name;
                    assert(more[j] == before[j]);
                }
            }
        }
    }
}

/// The records of one scan, by name.
pub struct DefIndex {
    defs: Vec<DefData>,
}

impl View for DefIndex {
    type V = Seq<DefView>;

    closed spec fn view(&self) -> Seq<DefView> {
        defs_view(self.defs@)
    }
}

/// The record of a name is known by what it is: the first with the name.
pub proof fn lemma_first_named(defs: Seq<DefView>, name: Seq<char>, i: int)
    requires
        is_first_named(defs, name, i),
    ensures
        has_def(defs, name),
        first_named(defs, name) == i,
        lookup(defs, name) == Some(defs[i]),
{
    let c = first_named(defs, name);
    assert(is_first_named(defs, name, c));
    if c < i {
        assert(defs[c].def_name != name);
    } else if i < c {
        assert(defs[i].def_name != name);
    }
}

/// Where the index holds a name, a first record has it.
pub proof fn lemma_has_first_named(defs: Seq<DefView>, name: Seq<char>)
    requires
        has_def(defs, name),
    ensures
        is_first_named(defs, name, first_named(defs, name)),
    decreases defs.len(),
{
    let k = choose|k: int| 0 <= k < defs.len() && (#[trigger] defs[k]).def_name == name;
    lemma_least_named(defs, name, k);
}

proof fn lemma_least_named(defs: Seq<DefView>, name: Seq<char>, k: int)
    requires
        0 <= k < defs.len(),
        defs[k].def_name == name,
    ensures
        exists|i: int| is_first_named(defs, name, i),
    decreases k,
{
    if forall|j: int| 0 <= j < k ==> (#[trigger] defs[j]).def_name != name {
        assert(is_first_named(defs, name, k));
    } else {
        let j = choose|j: int| 0 <= j < k && (#[trigger] defs[j]).def_name == name;
        lemma_least_named(defs, name, j);
    }
}

/// Putting a record into an index without repeated names leaves it without
/// repeated names, and the record is then the one found under its name.
pub proof fn lemma_put_def(defs: Seq<DefView>, def: DefView)
    requires
        unique_names(defs),
    ensures
        unique_names(put_def(defs, def)),
        lookup(put_def(defs, def), def.def_name) == Some(def),
        forall|name: Seq<char>|
            name != def.def_name ==> lookup(put_def(defs, def), name) == lookup(defs, name),
{
    let after = put_def(defs, def);
    if has_def(defs, def.def_name) {
        lemma_has_first_named(defs, def.def_name);
        let i = first_named(defs, def.def_name);
        assert forall|a: int, b: int| 0 <= a < b < after.len() implies (#[trigger] after[a]).def_name
            != (#[trigger] after[b]).def_name by {
            assert(after[a].def_name == defs[a].def_name);
            assert(after[b].def_name == defs[b].def_name);
        }
        assert(is_first_named(after, def.def_name, i)) by {
            assert forall|j: int| 0 <= j < i implies (#[trigger] after[j]).def_name
                != def.def_name by {
                assert(after[j] == defs[j]);
            }
        }
        lemma_first_named(after, def.def_name, i);
        assert forall|name: Seq<char>| name != def.def_name implies lookup(after, name) == lookup(
            defs,
            name,
        ) by {
            lemma_lookup_same_names(defs, after, name, i);
        }
    } else {
        let n = defs.len() as int;
        assert forall|a: int, b: int| 0 <= a < b < after.len() implies (#[trigger] after[a]).def_name
            != (#[trigger] after[b]).def_name by {
            if b < n {
                assert(after[a] == defs[a] && after[b] == defs[b]);
            } else {
                assert(after[a] == defs[a]);
            }
        }
        assert(is_first_named(after, def.def_name, n)) by {
            assert forall|j: int| 0 <= j < n implies (#[trigger] after[j]).def_name
                != def.def_name by {
                assert(after[j] == defs[j]);
            }
        }
        lemma_first_named(after, def.def_name, n);
        assert forall|name: Seq<char>| name != def.def_name implies lookup(after, name) == lookup(
            defs,
            name,
        ) by {
            if has_def(defs, name) {
                lemma_has_first_named(defs, name);
                let i = first_named(defs, name);
                assert(is_first_named(after, name, i)) by {
                    assert(after[i] == defs[i]);
                    assert forall|j: int| 0 <= j < i implies (#[trigger] after[j]).def_name
                        != name by {
                        assert(after[j] == defs[j]);
                    }
                }
                lemma_first_named(after, name, i);
            } else if has_def(after, name) {
                let k = choose|k: int| 0 <= k < after.len() && (#[trigger] after[k]).def_name == name;
                assert(after[k] == defs[k]);
            }
        }
    }
}

/// Where one record of an index is replaced by a record of the same name,
/// every other name is found as before.
proof fn lemma_lookup_same_names(defs: Seq<DefView>, after: Seq<DefView>, name: Seq<char>, i: int)
    requires
        0 <= i < defs.len(),
        after.len() == defs.len(),
        after[i].def_name == defs[i].def_name,
        defs[i].def_name != name,
        forall|j: int| 0 <= j < defs.len() && j != i ==> after[j] == defs[j],
    ensures
        lookup(after, name) == lookup(defs, name),
{
    if has_def(defs, name) {
        lemma_has_first_named(defs, name);
        let k = first_named(defs, name);
        assert(is_first_named(after, name, k)) by {
            assert(after[k] == defs[k]);
            assert forall|j: int| 0 <= j < k implies (#[trigger] after[j]).def_name != name by {
                assert(defs[j].def_name != name);
            }
        }
        lemma_first_named(after, name, k);
    } else if has_def(after, name) {
        let k = choose|k: int| 0 <= k < after.len() && (#[trigger] after[k]).def_name == name;
        assert(defs[k].def_name == name);
    }
}

impl DefIndex {
    /// No name stands twice in the index.
    #[verifier::type_invariant]
    closed spec fn unique(&self) -> bool {
        unique_names(defs_view(self.defs@))
    }

    /// An index without records.
    pub fn new() -> (index: DefIndex)
        ensures
            index@ == Seq::<DefView>::empty(),
    {
        let index = DefIndex { defs: Vec::new() };
        assert(defs_view(index.defs@) =~= Seq::empty());
        index
    }

    /// The number of records, which is the number of names.
    pub fn len(&self) -> (n: usize)
        ensures
            n == self@.len(),
            unique_names(self@),
    {
        proof {
            use_type_invariant(self);
        }
        self.defs.len()
    }

    /// The place of the record with the name.
    fn position(&self, name: &str) -> (found: Option<usize>)
        ensures
            match found {
                Some(i) => i < self.defs@.len() && is_first_named(self@, name@, i as int),
                None => !has_def(self@, name@),
            },
    {
        let mut i: usize = 0;
        while i < self.defs.len()
            invariant
                i <= self.defs.len(),
                forall|j: int| 0 <= j < i ==> (#[trigger] defs_view(self.defs@)[j]).def_name != name@,
            decreases self.defs.len() - i,
        {
            if str_equal(self.defs[i].def_name.as_str(), name) {
                return Some(i);
            }
            i += 1;
        }
        None
    }

    /// The record with the name.
    pub fn get(&self, name: &str) -> (found: Option<&DefData>)
        ensures
            match found {
                Some(def) => lookup(self@, name@) == Some(def@),
                None => lookup(self@, name@) is None,
            },
    {
        match self.position(name) {
            Some(i) => {
                proof {
                    lemma_first_named(self@, name@, i as int);
                }
                Some(&self.defs[i])
            },
            None => None,
        }
    }

    /// Whether the index holds a record with the name.
    pub fn contains(&self, name: &str) -> (found: bool)
        ensures
            found == has_def(self@, name@),
    {
        self.position(name).is_some()
    }

    /// Puts a record into the index. Of two records with one name the later
    /// one stays.
    pub fn insert(&mut self, def: DefData)
        ensures
            final(self)@ == put_def(old(self)@, def@),
    {
        proof {
            use_type_invariant(&*self);
            lemma_put_def(self@, def@);
        }
        let ghost before = self@;
        let place = self.position(def.def_name.as_str());
        let mut taken = DefIndex::new();
        std::mem::swap(self, &mut taken);
        let DefIndex { defs: mut defs } = taken;
        match place {
            Some(i) => {
                proof {
                    lemma_first_named(before, def@.def_name, i as int);
                }
                defs.remove(i);
                defs.insert(i, def);
                assert(defs_view(defs@) =~= before.update(i as int, def@));
            },
            None => {
                defs.push(def);
                assert(defs_view(defs@) =~= before.push(def@));
            },
        }
        *self = DefIndex { defs };
    }

    /// Puts the records into the index, one after the other.
    pub fn insert_all(&mut self, defs: Vec<DefData>)
        ensures
            final(self)@ == put_defs(old(self)@, defs_view(defs@)),
    {
        let ghost start = self@;
        let ghost all = defs_view(defs@);
        assert(all.take(0) =~= Seq::empty());
        for def in it: defs
            invariant
                it.seq() == defs@,
                all == defs_view(defs@),
                self@ == put_defs(start, all.take(it.index() as int)),
        {
            assert(all.take(it.index() + 1).drop_last() =~= all.take(it.index() as int));
            assert(all.take(it.index() + 1).last() == def@);
            self.insert(def);
        }
        assert(all.take(defs@.len() as int) =~= all);
    }

    /// Puts the records of the files into the index, file by file. The
    /// result is the number of files that gave records.
    pub fn insert_files(&mut self, per_file: Vec<Vec<DefData>>) -> (with_defs: usize)
        ensures
            final(self)@ == put_defs(old(self)@, all_of(file_defs_view(per_file@))),
            with_defs == fruitful(file_defs_view(per_file@)),
            with_defs <= per_file@.len(),
    {
        let ghost start = self@;
        let ghost files = file_defs_view(per_file@);
        let count = per_file.len();
        let mut with_defs: usize = 0;
        assert(files.take(0) =~= Seq::empty());
        for file in it: per_file
            invariant
                it.seq() == per_file@,
                per_file@.len() == count,
                files == file_defs_view(per_file@),
                with_defs == fruitful(files.take(it.index() as int)),
                with_defs <= it.index(),
                self@ == put_defs(start, all_of(files.take(it.index() as int))),
        {
            let ghost sofar = files.take(it.index() as int);
            let ghost upto = files.take(it.index() + 1);
            proof {
                assert(upto.drop_last() =~= sofar);
                assert(upto.last() == defs_view(file@));
                lemma_put_defs_in_runs(start, all_of(sofar), defs_view(file@));
            }
            if file.len() > 0 {
                with_defs += 1;
            }
            self.insert_all(file);
        }
        assert(files.take(count as int) =~= files);
        with_defs
    }

    /// The types of the records, each once, in the order in which they are
    /// first met.
    pub fn types(&self) -> (types: Vec<String>)
        ensures
            strings_view(types@) == types_of(self@),
            types@.len() <= self@.len(),
    {
        let ghost all = self@;
        let mut types: Vec<String> = Vec::new();
        let mut i: usize = 0;
        proof {
            lemma_types_bound(all);
            assert(all.take(0) =~= Seq::empty());
            assert(strings_view(types@) =~= Seq::empty());
        }
        while i < self.defs.len()
            invariant
                i <= self.defs.len(),
                all == defs_view(self.defs@),
                strings_view(types@) == types_of(all.take(i as int)),
            decreases self.defs.len() - i,
        {
            assert(all.take(i + 1).drop_last() =~= all.take(i as int));
            assert(all.take(i + 1).last() == self.defs@[i as int]@);
            let def_type = &self.defs[i].def_type;
            if !holds_string(&types, def_type.as_str()) {
                let ghost before = strings_view(types@);
                types.push(def_type.clone());
                assert(strings_view(types@) =~= before.push(def_type@));
            }
            i += 1;
        }
        assert(all.take(self.defs.len() as int) =~= all);
        types
    }

    /// The records, in the order in which their names entered.
    pub fn records(&self) -> (records: &Vec<DefData>)
        ensures
            defs_view(records@) == self@,
    {
        &self.defs
    }

    /// The names of the records, in the order in which they entered.
    pub fn names(&self) -> (names: Vec<String>)
        ensures
            names@.len() == self@.len(),
            forall|i: int| 0 <= i < names@.len() ==> (#[trigger] names@[i])@ == self@[i].def_name,
            strings_view(names@).no_duplicates(),
    {
        proof {
            use_type_invariant(self);
        }
        let mut names: Vec<String> = Vec::new();
        let mut i: usize = 0;
        while i < self.defs.len()
            invariant
                i <= self.defs.len(),
                names@.len() == i,
                forall|j: int|
                    0 <= j < i ==> (#[trigger] names@[j])@ == defs_view(self.defs@)[j].def_name,
            decreases self.defs.len() - i,
        {
            names.push(self.defs[i].def_name.clone());
            i += 1;
        }
        assert forall|a: int, b: int|
            0 <= a < names@.len() && 0 <= b < names@.len() && a != b implies strings_view(names@)[a]
            != strings_view(names@)[b] by {
            assert(strings_view(names@)[a] == names@[a]@);
            assert(strings_view(names@)[b] == names@[b]@);
            if a < b {
                assert(self@[a].def_name != self@[b].def_name);
            } else {
                assert(self@[b].def_name != self@[a].def_name);
            }
        }
        names
    }
}

} // verus!
