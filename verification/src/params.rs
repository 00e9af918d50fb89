//! The parameter bindings that a lookup hands back: a small map from
//! parameter names to the path segments they captured.

use crate::segment::str_eq;
use vstd::prelude::*;
use vstd::set_lib::lemma_subset_equality;
use vstd::std_specs::cmp::PartialEqSpecImpl;

verus! {

/// A map from parameter names to captured segments, each name bound once.
#[derive(Debug)]
pub struct Params {
    entries: Vec<(String, String)>,
}

/// The map that a list of bindings stands for; a later binding of a name
/// replaces an earlier one.
spec fn bindings_of(entries: Seq<(String, String)>) -> Map<Seq<char>, Seq<char>>
    decreases entries.len(),
{
    if entries.len() == 0 {
        Map::empty()
    } else {
        bindings_of(entries.drop_last()).insert(entries.last().0@, entries.last().1@)
    }
}

/// No name is bound twice.
spec fn distinct_names(entries: Seq<(String, String)>) -> bool {
    forall|i: int, j: int|
        0 <= i < entries.len() && 0 <= j < entries.len() && i != j ==> entries[i].0@
            != entries[j].0@
}

/// A name is bound exactly when some entry carries it.
proof fn lemma_bindings_domain(entries: Seq<(String, String)>, name: Seq<char>)
    ensures
        bindings_of(entries).contains_key(name) <==> exists|i: int|
            0 <= i < entries.len() && entries[i].0@ == name,
    decreases entries.len(),
{
    if entries.len() > 0 {
        let init = entries.drop_last();
        lemma_bindings_domain(init, name);
        if exists|i: int| 0 <= i < entries.len() && entries[i].0@ == name {
            let i = choose|i: int| 0 <= i < entries.len() && entries[i].0@ == name;
            if i < entries.len() - 1 {
                assert(init[i].0@ == name);
            }
        }
    }
}

/// Where names are distinct, each entry's name is bound to that entry's value.
proof fn lemma_bindings_value(entries: Seq<(String, String)>, i: int)
    requires
        distinct_names(entries),
        0 <= i < entries.len(),
    ensures
        bindings_of(entries).contains_key(entries[i].0@),
        bindings_of(entries)[entries[i].0@] == entries[i].1@,
    decreases entries.len(),
{
    let init = entries.drop_last();
    if i < entries.len() - 1 {
        assert(distinct_names(init)) by {
            assert forall|a: int, b: int|
                0 <= a < init.len() && 0 <= b < init.len() && a != b implies init[a].0@
                != init[b].0@ by {}
        }
        lemma_bindings_value(init, i);
    }
}

/// Replacing the value of one entry rebinds that entry's name and nothing else.
proof fn lemma_bindings_update(entries: Seq<(String, String)>, i: int, entry: (String, String))
    requires
        distinct_names(entries),
        0 <= i < entries.len(),
        entry.0@ == entries[i].0@,
    ensures
        distinct_names(entries.update(i, entry)),
        bindings_of(entries.update(i, entry)) == bindings_of(entries).insert(entry.0@, entry.1@),
    decreases entries.len(),
{
    let updated = entries.update(i, entry);
    assert(distinct_names(updated)) by {
        assert forall|a: int, b: int|
            0 <= a < updated.len() && 0 <= b < updated.len() && a != b implies updated[a].0@
            != updated[b].0@ by {}
    }
    let init = entries.drop_last();
    if i < entries.len() - 1 {
        assert(distinct_names(init)) by {
            assert forall|a: int, b: int|
                0 <= a < init.len() && 0 <= b < init.len() && a != b implies init[a].0@
                != init[b].0@ by {}
        }
        lemma_bindings_update(init, i, entry);
        assert(updated.drop_last() =~= init.update(i, entry));
    } else {
        assert(updated.drop_last() =~= init);
    }
}

/// Keeping all entries but the last keeps the names distinct.
proof fn lemma_distinct_names_init(entries: Seq<(String, String)>)
    requires
        distinct_names(entries),
        entries.len() > 0,
    ensures
        distinct_names(entries.drop_last()),
{
    let init = entries.drop_last();
    assert forall|a: int, b: int|
        0 <= a < init.len() && 0 <= b < init.len() && a != b implies init[a].0@ != init[b].0@ by {}
}

/// Where names are distinct, there are as many bindings as entries.
proof fn lemma_bindings_count(entries: Seq<(String, String)>)
    requires
        distinct_names(entries),
    ensures
        bindings_of(entries).dom().finite(),
        bindings_of(entries).dom().len() == entries.len(),
    decreases entries.len(),
{
    if entries.len() > 0 {
        let init = entries.drop_last();
        let name = entries.last().0@;
        lemma_bindings_count(init);
        lemma_bindings_domain(init, name);
    }
}

/// The position of the entry that binds `name`, if there is one.
fn position(entries: &Vec<(String, String)>, name: &str) -> (at: Option<usize>)
    ensures
        match at {
            Some(i) => i < entries@.len() && entries@[i as int].0@ == name@,
            None => forall|j: int| 0 <= j < entries@.len() ==> entries@[j].0@ != name@,
        },
{
    let mut i: usize = 0;
    while i < entries.len()
        invariant
            i <= entries@.len(),
            forall|j: int| 0 <= j < i ==> entries@[j].0@ != name@,
        decreases entries@.len() - i,
    {
        if str_eq(entries[i].0.as_str(), name) {
            return Some(i);
        }
        i += 1;
    }
    None
}

impl View for Params {
    type V = Map<Seq<char>, Seq<char>>;

    closed spec fn view(&self) -> Map<Seq<char>, Seq<char>> {
        bindings_of(self.entries@)
    }
}

impl Params {
    #[verifier::type_invariant]
    spec fn names_are_distinct(self) -> bool {
        distinct_names(self.entries@)
    }

    /// The empty map.
    pub fn new() -> (params: Params)
        ensures
            params@ == Map::<Seq<char>, Seq<char>>::empty(),
    {
        Params { entries: Vec::new() }
    }

    /// The segment bound to `name`, if `name` is bound.
    pub fn get(&self, name: &str) -> (value: Option<&String>)
        ensures
            match value {
                Some(v) => self@.contains_key(name@) && self@[name@] == v@,
                None => !self@.contains_key(name@),
            },
    {
        proof {
            use_type_invariant(self);
            lemma_bindings_domain(self.entries@, name@);
        }
        match position(&self.entries, name) {
            Some(i) => {
                proof {
                    lemma_bindings_value(self.entries@, i as int);
                }
                Some(&self.entries[i].1)
            },
            None => None,
        }
    }

    /// Binds `name` to `value`, in place of what `name` was bound to before.
    pub fn insert(&mut self, name: String, value: String)
        ensures
            final(self)@ == old(self)@.insert(name@, value@),
    {
        proof {
            use_type_invariant(&*self);
        }
        let mut entries: Vec<(String, String)> = Vec::new();
        core::mem::swap(&mut self.entries, &mut entries);
        let ghost before = entries@;
        match position(&entries, name.as_str()) {
            Some(i) => {
                proof {
                    lemma_bindings_update(before, i as int, (name, value));
                }
                entries[i] = (name, value);
            },
            None => {
                entries.push((name, value));
                assert(entries@.drop_last() =~= before);
            },
        }
        core::mem::swap(&mut self.entries, &mut entries);
    }

    /// The number of bindings.
    pub fn len(&self) -> (n: usize)
        ensures
            self@.dom().finite(),
            n == self@.len(),
    {
        proof {
            use_type_invariant(self);
            lemma_bindings_count(self.entries@);
        }
        self.entries.len()
    }

    /// Whether nothing is bound.
    pub fn is_empty(&self) -> (empty: bool)
        ensures
            empty == (self@ == Map::<Seq<char>, Seq<char>>::empty()),
    {
        proof {
            use_type_invariant(self);
            lemma_bindings_count(self.entries@);
        }
        self.entries.len() == 0
    }

    /// Removes every binding.
    pub fn clear(&mut self)
        ensures
            final(self)@ == Map::<Seq<char>, Seq<char>>::empty(),
    {
        let mut entries: Vec<(String, String)> = Vec::new();
        core::mem::swap(&mut self.entries, &mut entries);
    }
}

impl PartialEq for Params {
    /// Two maps are equal when they bind the same names to the same segments.
    fn eq(&self, other: &Params) -> (equal: bool) {
        proof {
            use_type_invariant(self);
            use_type_invariant(other);
            lemma_bindings_count(self.entries@);
            lemma_bindings_count(other.entries@);
        }
        if self.entries.len() != other.entries.len() {
            return false;
        }
        let mut i: usize = 0;
        while i < self.entries.len()
            invariant
                i <= self.entries@.len(),
                distinct_names(self.entries@),
                distinct_names(other.entries@),
                forall|j: int|
                    0 <= j < i ==> {
                        &&& other@.contains_key(#[trigger] self.entries@[j].0@)
                        &&& other@[self.entries@[j].0@] == self.entries@[j].1@
                    },
            decreases self.entries@.len() - i,
        {
            proof {
                lemma_bindings_value(self.entries@, i as int);
                lemma_bindings_domain(other.entries@, self.entries@[i as int].0@);
            }
            match position(&other.entries, self.entries[i].0.as_str()) {
                None => {
                    return false;
                },
                Some(at) => {
                    proof {
                        lemma_bindings_value(other.entries@, at as int);
                    }
                    if !str_eq(self.entries[i].1.as_str(), other.entries[at].1.as_str()) {
                        return false;
                    }
                },
            }
            i += 1;
        }
        proof {
            assert forall|name: Seq<char>| #[trigger] self@.dom().contains(name) implies {
                &&& other@.dom().contains(name)
                &&& other@[name] == self@[name]
            } by {
                lemma_bindings_domain(self.entries@, name);
                let j = choose|j: int| 0 <= j < self.entries@.len() && self.entries@[j].0@ == name;
                lemma_bindings_value(self.entries@, j);
            }
            lemma_subset_equality(self@.dom(), other@.dom());
            assert(self@ =~= other@);
        }
        true
    }
}

impl PartialEqSpecImpl for Params {
    open spec fn obeys_eq_spec() -> bool {
        true
    }

    open spec fn eq_spec(&self, other: &Params) -> bool {
        self@ == other@
    }
}

} // verus!
