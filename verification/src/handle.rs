//! What a client of the runtime handles: entities, and the values a query match
//! binds to names.

use vstd::prelude::*;

use crate::strings::str_eq;

verus! {

/// An entity of the runtime, with a note on what it is.
#[derive(Debug)]
pub struct RTEntity {
    id: String,
    note: String,
}

impl RTEntity {
    pub closed spec fn id_view(&self) -> Seq<char> {
        self.id@
    }

    pub closed spec fn note_view(&self) -> Seq<char> {
        self.note@
    }

    pub fn new(id: String, note: String) -> (r: RTEntity)
        ensures
            r.id_view() == id@,
            r.note_view() == note@,
    {
        RTEntity { id, note }
    }

    pub fn id(&self) -> (r: &String)
        ensures
            r@ == self.id_view(),
    {
        &self.id
    }

    pub fn note(&self) -> (r: &String)
        ensures
            r@ == self.note_view(),
    {
        &self.note
    }
}

/// The values of a query match, each as JSON text under the name it is bound to.
#[derive(Debug)]
pub struct QueryMatch {
    values: Vec<(String, String)>,
}

/// The names of the entries, in order.
pub open spec fn entry_names(v: Seq<(String, String)>) -> Seq<Seq<char>> {
    v.map_values(|e: (String, String)| e.0@)
}

impl QueryMatch {
    /// No name is bound twice.
    #[verifier::type_invariant]
    closed spec fn names_unique(&self) -> bool {
        entry_names(self.values@).no_duplicates()
    }

    /// The values by name.
    pub closed spec fn values_view(&self) -> Map<Seq<char>, Seq<char>> {
        Map::new(
            |k: Seq<char>| entry_names(self.values@).contains(k),
            |k: Seq<char>|
                self.values@[entry_names(self.values@).index_of(k)].1@,
        )
    }

    /// A match that binds no names.
    pub fn new() -> (r: QueryMatch)
        ensures
            r.values_view() == Map::<Seq<char>, Seq<char>>::empty(),
    {
        let r = QueryMatch { values: Vec::new() };
        assert(entry_names(r.values@) =~= Seq::<Seq<char>>::empty());
        assert(r.values_view() =~= Map::<Seq<char>, Seq<char>>::empty());
        r
    }

    /// The position of `name` among the entries, if it is bound.
    fn find(&self, name: &str) -> (r: Option<usize>)
        ensures
            match r {
                Some(i) => i < self.values@.len() && self.values@[i as int].0@ == name@,
                None => !entry_names(self.values@).contains(name@),
            },
    {
        let ghost names = entry_names(self.values@);
        let mut i: usize = 0;
        while i < self.values.len()
            invariant
                i <= self.values.len(),
                names == entry_names(self.values@),
                forall|j: int| 0 <= j < i ==> names[j] != name@,
            decreases self.values.len() - i,
        {
            assert(names[i as int] == self.values@[i as int].0@);
            if str_eq(self.values[i].0.as_str(), name) {
                return Some(i);
            }
            i = i + 1;
        }
        None
    }

    /// Binds `name` to the JSON text `value`, in place of what it was bound to.
    pub fn insert(&mut self, name: String, value: String)
        ensures
            final(self).values_view() == old(self).values_view().insert(name@, value@),
    {
        proof {
            use_type_invariant(&*self);
        }
        let ghost old_names = entry_names(self.values@);
        let ghost old_view = self.values_view();
        match self.find(name.as_str()) {
            Some(i) => {
                let ghost vs = self.values@;
                let ghost nm = name@;
                let ghost vv = value@;
                let ghost names_before = entry_names(self.values@);
                let mut values = Vec::new();
                std::mem::swap(&mut values, &mut self.values);
                values.set(i, (name, value));
                assert(entry_names(values@) =~= names_before);
                std::mem::swap(&mut values, &mut self.values);
                proof {
                    lemma_index_of_unique(names_before, i as int);
                    assert forall|k: Seq<char>| entry_names(self.values@).contains(k) implies
                        self.values@[entry_names(self.values@).index_of(k)].1@
                        == old_view.insert(nm, vv)[k] by {
                        let idx = names_before.index_of(k);
                        lemma_index_of_unique(names_before, idx);
                        if k == nm {
                            assert(names_before[i as int] == nm);
                        } else {
                            assert(names_before[idx] == k);
                        }
                    }
                    assert(self.values_view() =~= old_view.insert(nm, vv));
                }
            },
            None => {
                let ghost nm = name@;
                let ghost vv = value@;
                let mut values = Vec::new();
                std::mem::swap(&mut values, &mut self.values);
                values.push((name, value));
                assert(entry_names(values@) =~= old_names.push(nm));
                std::mem::swap(&mut values, &mut self.values);
                proof {
                    let names = entry_names(self.values@);
                    assert forall|a: int, b: int| 0 <= a < b < names.len() implies names[a]
                        != names[b] by {
                        if b == old_names.len() {
                            assert(names[a] == old_names[a]);
                            assert(names[b] == nm);
                            if names[a] == names[b] {
                                assert(old_names[a] == nm);
                                assert(old_names.contains(nm));
                            }
                        } else {
                            assert(names[a] == old_names[a] && names[b] == old_names[b]);
                        }
                    }
                    assert forall|k: Seq<char>| names.contains(k) implies
                        self.values@[names.index_of(k)].1@ == old_view.insert(nm, vv)[k] by {
                        let idx = names.index_of(k);
                        lemma_index_of_unique(names, idx);
                        if k == nm {
                            lemma_index_of_unique(names, old_names.len() as int);
                        } else {
                            assert(idx < old_names.len());
                            assert(old_names[idx] == k);
                            lemma_index_of_unique(old_names, idx);
                        }
                    }
                    assert forall|k: Seq<char>| names.contains(k) <==> (old_names.contains(k) || k == nm) by {
                        if names.contains(k) {
                            let idx = choose|idx: int| 0 <= idx < names.len() && names[idx] == k;
                            if idx < old_names.len() {
                                assert(old_names[idx] == k);
                            }
                        }
                        if old_names.contains(k) {
                            let idx = choose|idx: int| 0 <= idx < old_names.len() && old_names[idx] == k;
                            assert(names[idx] == k);
                        }
                        if k == nm {
                            assert(names[old_names.len() as int] == k);
                        }
                    }
                    assert(self.values_view() =~= old_view.insert(nm, vv));
                }
            },
        }
    }

    /// The JSON text bound to `name`, if it is bound.
    pub fn get_value(&self, name: &str) -> (r: Option<&String>)
        ensures
            match r {
                Some(v) => self.values_view().contains_key(name@) && v@ == self.values_view()[name@],
                None => !self.values_view().contains_key(name@),
            },
    {
        proof {
            use_type_invariant(self);
        }
        match self.find(name) {
            Some(i) => {
                proof {
                    let names = entry_names(self.values@);
                    assert(names[i as int] == name@);
                    lemma_index_of_unique(names, i as int);
                }
                Some(&self.values[i].1)
            },
            None => None,
        }
    }
}

/// In a sequence without repeats, the position of an element is the only one
/// that holds it.
proof fn lemma_index_of_unique(names: Seq<Seq<char>>, i: int)
    requires
        names.no_duplicates(),
        0 <= i < names.len(),
    ensures
        names.contains(names[i]),
        names.index_of(names[i]) == i,
{
    assert(names[i] == names[i]);
    let k = names.index_of(names[i]);
    assert(0 <= k < names.len() && names[k] == names[i]);
}

} // verus!
