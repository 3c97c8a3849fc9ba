//! A table keyed by names.

use vstd::prelude::*;
use crate::names::views;

verus! {

/// A value under its name.
#[derive(Debug)]
pub struct NameEntry<V> {
    pub name: String,
    pub value: V,
}

/// Values under names. No name occurs twice; entries are kept in the order
/// in which their names were first inserted.
#[derive(Debug)]
pub struct NameMap<V> {
    entries: Vec<NameEntry<V>>,
}

/// The mathematical content of a table keyed by names: the names in table
/// order, none of them twice where the table is well formed, and the value
/// of each at the same place.
pub struct NameTable<V> {
    pub keys: Seq<Seq<char>>,
    pub values: Seq<V>,
}

impl<V> NameTable<V> {
    pub open spec fn empty() -> NameTable<V> {
        NameTable { keys: Seq::empty(), values: Seq::empty() }
    }

    pub open spec fn wf(self) -> bool {
        &&& self.keys.len() == self.values.len()
        &&& self.keys.no_duplicates()
    }

    pub open spec fn get(self, name: Seq<char>) -> Option<V> {
        if self.keys.contains(name) {
            Some(self.values[self.keys.index_of(name)])
        } else {
            None
        }
    }

    /// The table with `value` under `name`: in the place of the earlier
    /// value where the table holds the name, at the end where it does not.
    pub open spec fn insert(self, name: Seq<char>, value: V) -> NameTable<V> {
        if self.keys.contains(name) {
            NameTable { keys: self.keys, values: self.values.update(self.keys.index_of(name), value) }
        } else {
            NameTable { keys: self.keys.push(name), values: self.values.push(value) }
        }
    }

    /// The table with `value` in the place of the value at `i`.
    pub open spec fn with_value(self, i: int, value: V) -> NameTable<V> {
        NameTable { keys: self.keys, values: self.values.update(i, value) }
    }
}

/// The names of a sequence of entries.
pub open spec fn keys_of<V>(entries: Seq<NameEntry<V>>) -> Seq<Seq<char>> {
    Seq::new(entries.len(), |i: int| entries[i].name@)
}

/// The values of a sequence of entries.
pub open spec fn values_of<V>(entries: Seq<NameEntry<V>>) -> Seq<V> {
    Seq::new(entries.len(), |i: int| entries[i].value)
}

impl<V> NameMap<V> {
    /// As many values as names, and no name twice.
    #[verifier::type_invariant]
    pub open spec fn names_are_unique(&self) -> bool {
        self.wf()
    }

    /// The names, in table order.
    pub closed spec fn spec_keys(&self) -> Seq<Seq<char>> {
        keys_of(self.entries@)
    }

    /// The values, each at the place of its name.
    pub closed spec fn spec_values(&self) -> Seq<V> {
        values_of(self.entries@)
    }

    /// The names with their values.
    pub open spec fn table(&self) -> NameTable<V> {
        NameTable { keys: self.spec_keys(), values: self.spec_values() }
    }

    /// As many values as names, and no name twice.
    pub open spec fn wf(&self) -> bool {
        &&& self.spec_keys().len() == self.spec_values().len()
        &&& self.spec_keys().no_duplicates()
    }

    pub open spec fn contains(&self, name: Seq<char>) -> bool {
        self.spec_keys().contains(name)
    }

    /// The place of `name`, where the table holds it.
    pub open spec fn index_of(&self, name: Seq<char>) -> int {
        self.spec_keys().index_of(name)
    }

    /// The value under `name`, if there is one.
    pub open spec fn spec_get(&self, name: Seq<char>) -> Option<V> {
        if self.contains(name) {
            Some(self.spec_values()[self.index_of(name)])
        } else {
            None
        }
    }

    pub fn new() -> (map: NameMap<V>)
        ensures
            map.wf(),
            map.spec_keys().len() == 0,
    {
        NameMap { entries: Vec::new() }
    }

    pub fn len(&self) -> (len: usize)
        ensures
            self.wf(),
            len == self.spec_keys().len(),
    {
        proof {
            use_type_invariant(self);
        }
        self.entries.len()
    }

    pub fn is_empty(&self) -> (empty: bool)
        ensures
            self.wf(),
            empty == (self.spec_keys().len() == 0),
    {
        proof {
            use_type_invariant(self);
        }
        self.entries.len() == 0
    }

    /// The place of `name` in the table.
    pub fn position(&self, name: &String) -> (found: Option<usize>)
        ensures
            self.wf(),
            match found {
                Some(i) => i < self.spec_keys().len() && self.spec_keys()[i as int] == name@ && i
                    == self.index_of(name@),
                None => !self.contains(name@),
            },
    {
        proof {
            use_type_invariant(self);
        }
        let mut i: usize = 0;
        while i < self.entries.len()
            invariant
                i <= self.entries.len(),
                keys_of(self.entries@).no_duplicates(),
                forall|k: int| 0 <= k < i ==> keys_of(self.entries@)[k] != name@,
            decreases self.entries.len() - i,
        {
            if self.entries[i].name == *name {
                proof {
                    let keys = keys_of(self.entries@);
                    assert(keys[i as int] == name@);
                    assert(keys.contains(name@));
                    let at = keys.index_of(name@);
                    assert(keys[at] == name@);
                }
                return Some(i);
            }
            i += 1;
        }
        None
    }

    pub fn key_at(&self, i: usize) -> (name: &String)
        requires
            i < self.spec_keys().len(),
        ensures
            self.wf(),
            name@ == self.spec_keys()[i as int],
    {
        proof {
            use_type_invariant(self);
        }
        &self.entries[i].name
    }

    pub fn value_at(&self, i: usize) -> (value: &V)
        requires
            i < self.spec_keys().len(),
        ensures
            self.wf(),
            *value == self.spec_values()[i as int],
    {
        proof {
            use_type_invariant(self);
        }
        &self.entries[i].value
    }

    /// The value under `name`.
    pub fn get(&self, name: &String) -> (found: Option<&V>)
        ensures
            self.wf(),
            match found {
                Some(value) => self.spec_get(name@) == Some(*value),
                None => self.spec_get(name@) is None,
            },
    {
        match self.position(name) {
            Some(i) => Some(&self.entries[i].value),
            None => None,
        }
    }

    /// The names in table order.
    pub fn keys(&self) -> (names: Vec<String>)
        ensures
            self.wf(),
            views(names@) == self.spec_keys(),
    {
        proof {
            use_type_invariant(self);
        }
        let mut names: Vec<String> = Vec::new();
        let mut i: usize = 0;
        while i < self.entries.len()
            invariant
                i <= self.entries.len(),
                names@.len() == i,
                forall|k: int| 0 <= k < i ==> (#[trigger] names@[k])@ == self.entries@[k].name@,
            decreases self.entries.len() - i,
        {
            names.push(self.entries[i].name.clone());
            i += 1;
        }
        assert(views(names@) =~= keys_of(self.entries@));
        names
    }

    /// Puts `value` under `name`. Where the table holds the name already,
    /// the value is replaced in its place and the earlier one handed back;
    /// otherwise the entry is added at the end.
    pub fn insert(&mut self, name: String, value: V) -> (earlier: Option<V>)
        ensures
            final(self).wf(),
            final(self).table() == old(self).table().insert(name@, value),
            match earlier {
                Some(replaced) => {
                    &&& old(self).contains(name@)
                    &&& replaced == old(self).spec_values()[old(self).index_of(name@)]
                    &&& final(self).spec_keys() == old(self).spec_keys()
                    &&& final(self).spec_values() == old(self).spec_values().update(
                        old(self).index_of(name@),
                        value,
                    )
                },
                None => {
                    &&& !old(self).contains(name@)
                    &&& final(self).spec_keys() == old(self).spec_keys().push(name@)
                    &&& final(self).spec_values() == old(self).spec_values().push(value)
                },
            },
    {
        proof {
            use_type_invariant(&*self);
        }
        let found = self.position(&name);
        let mut entries: Vec<NameEntry<V>> = Vec::new();
        std::mem::swap(&mut self.entries, &mut entries);
        let ghost before = entries@;
        let earlier = match found {
            Some(i) => {
                let mut slot = value;
                std::mem::swap(&mut entries[i].value, &mut slot);
                assert(keys_of(entries@) =~= keys_of(before));
                assert(values_of(entries@) =~= values_of(before).update(i as int, value));
                Some(slot)
            },
            None => {
                entries.push(NameEntry { name, value });
                proof {
                    let keys = keys_of(before);
                    assert(keys_of(entries@) =~= keys.push(name@));
                    assert(values_of(entries@) =~= values_of(before).push(value));
                    assert forall|i: int, j: int|
                        0 <= i < keys_of(entries@).len() && 0 <= j < keys_of(entries@).len() && i
                            != j implies keys_of(entries@)[i] != keys_of(entries@)[j] by {
                        if i < keys.len() {
                            assert(keys[i] == keys_of(entries@)[i]);
                            assert(keys.contains(keys[i]));
                        }
                        if j < keys.len() {
                            assert(keys[j] == keys_of(entries@)[j]);
                            assert(keys.contains(keys[j]));
                        }
                    }
                }
                None
            },
        };
        self.entries = entries;
        earlier
    }

    /// Puts `value` in the place of the value at `i` and hands the earlier
    /// value back.
    pub fn replace_value(&mut self, i: usize, value: V) -> (earlier: V)
        requires
            i < old(self).spec_keys().len(),
        ensures
            final(self).wf(),
            earlier == old(self).spec_values()[i as int],
            final(self).spec_keys() == old(self).spec_keys(),
            final(self).spec_values() == old(self).spec_values().update(i as int, value),
            final(self).table() == old(self).table().with_value(i as int, value),
    {
        proof {
            use_type_invariant(&*self);
        }
        let mut entries: Vec<NameEntry<V>> = Vec::new();
        std::mem::swap(&mut self.entries, &mut entries);
        let ghost before = entries@;
        let mut slot = value;
        std::mem::swap(&mut entries[i].value, &mut slot);
        assert(keys_of(entries@) =~= keys_of(before));
        assert(values_of(entries@) =~= values_of(before).update(i as int, value));
        self.entries = entries;
        slot
    }

    /// Puts `value` in the place of the value at `i`.
    pub fn set_value(&mut self, i: usize, value: V)
        requires
            i < old(self).spec_keys().len(),
        ensures
            final(self).wf(),
            final(self).spec_keys() == old(self).spec_keys(),
            final(self).spec_values() == old(self).spec_values().update(i as int, value),
            final(self).table() == old(self).table().with_value(i as int, value),
    {
        proof {
            use_type_invariant(&*self);
        }
        let mut entries: Vec<NameEntry<V>> = Vec::new();
        std::mem::swap(&mut self.entries, &mut entries);
        let ghost before = entries@;
        entries[i].value = value;
        assert(keys_of(entries@) =~= keys_of(before));
        assert(values_of(entries@) =~= values_of(before).update(i as int, value));
        self.entries = entries;
    }
}

} // verus!
