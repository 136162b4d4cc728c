//! Bindings from names to what they stand for, kept in the order in which the
//! names were first bound.

use crate::ast::name_views;
use crate::interpreter::value::same_bytes;
use vstd::prelude::*;
use vstd::slice::slice_to_vec;
use vstd::string::StringSliceAdditionalSpecFns;

verus! {

/// The map that binds each of `names` to the item of `items` at the same
/// position. Meant for names without duplicates and as many items as names.
pub open spec fn table<T>(names: Seq<Seq<u8>>, items: Seq<T>) -> Map<Seq<u8>, T> {
    Map::new(|name: Seq<u8>| names.contains(name), |name: Seq<u8>| items[names.index_of(name)])
}

/// The table binds each name to the item at the name's position.
pub proof fn lemma_table_binds<T>(names: Seq<Seq<u8>>, items: Seq<T>, i: int)
    requires
        names.no_duplicates(),
        0 <= i < names.len(),
    ensures
        table(names, items).contains_key(names[i]),
        table(names, items)[names[i]] == items[i],
{
    assert(names.contains(names[i]));
}

/// The table binds as many names as there are.
pub proof fn lemma_table_len<T>(names: Seq<Seq<u8>>, items: Seq<T>)
    requires
        names.no_duplicates(),
    ensures
        table(names, items).dom().finite(),
        table(names, items).dom().len() == names.len(),
        table(names, items).dom() == names.to_set(),
{
    assert(table(names, items).dom() =~= names.to_set());
    vstd::seq_lib::seq_to_set_is_finite(names);
    names.unique_seq_to_set();
}

/// A new name with its item, added at the end, is an insertion into the table.
pub proof fn lemma_table_push<T>(names: Seq<Seq<u8>>, items: Seq<T>, name: Seq<u8>, item: T)
    requires
        names.len() == items.len(),
        names.no_duplicates(),
        !names.contains(name),
    ensures
        names.push(name).no_duplicates(),
        table(names.push(name), items.push(item)) == table(names, items).insert(name, item),
{
    let longer = names.push(name);
    assert forall|i: int, j: int|
        0 <= i < longer.len() && 0 <= j < longer.len() && i != j implies longer[i] != longer[j] by {
        if i < names.len() && j < names.len() {
        } else if i < names.len() {
            assert(names.contains(longer[i]));
        } else {
            assert(names.contains(longer[j]));
        }
    }
    let after = table(longer, items.push(item));
    let expected = table(names, items).insert(name, item);
    assert forall|key: Seq<u8>| after.contains_key(key) <==> expected.contains_key(key) by {
        if names.contains(key) {
            let i = names.index_of(key);
            assert(longer[i] == key);
        }
        if longer.contains(key) {
            let i = longer.index_of(key);
            if i < names.len() {
                assert(names[i] == key);
            }
        }
        assert(longer[names.len() as int] == name);
    }
    assert forall|key: Seq<u8>| after.contains_key(key) implies after[key] == expected[key] by {
        let i = longer.index_of(key);
        if key == name {
            assert(longer[names.len() as int] == name);
            assert(i == names.len());
        } else {
            assert(names[i] == key);
            assert(names.contains(key));
            let j = names.index_of(key);
            assert(longer[j] == key);
            assert(i == j);
        }
    }
    assert(after =~= expected);
}

/// A new item in the place of a bound name is an insertion into the table.
pub proof fn lemma_table_update<T>(names: Seq<Seq<u8>>, items: Seq<T>, i: int, item: T)
    requires
        names.len() == items.len(),
        names.no_duplicates(),
        0 <= i < names.len(),
    ensures
        table(names, items.update(i, item)) == table(names, items).insert(names[i], item),
{
    let after = table(names, items.update(i, item));
    let expected = table(names, items).insert(names[i], item);
    assert(names.contains(names[i]));
    assert forall|key: Seq<u8>| after.contains_key(key) implies after[key] == expected[key] by {
        let j = names.index_of(key);
        if key == names[i] {
            assert(j == i);
        } else {
            assert(j != i);
        }
    }
    assert(after =~= expected);
}

/// The position of `name` among `names`, if it is there.
pub fn find(names: &Vec<Vec<u8>>, name: &[u8]) -> (found: Option<usize>)
    ensures
        match found {
            Some(i) => i < names.len() && names@[i as int]@ == name@,
            None => !name_views(names@).contains(name@),
        },
{
    let mut i: usize = 0;
    while i < names.len()
        invariant
            i <= names.len(),
            forall|j: int| 0 <= j < i ==> names@[j]@ != name@,
        decreases names.len() - i,
    {
        if same_bytes(names[i].as_slice(), name) {
            return Some(i);
        }
        i += 1;
    }
    proof {
        let views = name_views(names@);
        if views.contains(name@) {
            let j = views.index_of(name@);
            assert(views[j] == names@[j]@);
        }
    }
    None
}

/// Bindings from names to items of type `T`.
pub struct Bindings<T> {
    names: Vec<Vec<u8>>,
    items: Vec<T>,
}

impl<T: View> View for Bindings<T> {
    type V = Map<Seq<u8>, T::V>;

    closed spec fn view(&self) -> Map<Seq<u8>, T::V> {
        table(name_views(self.names@), self.items@.map_values(|item: T| item@))
    }
}

impl<T: View> Bindings<T> {
    /// Well-formedness: every name has its item, and no name occurs twice.
    pub closed spec fn wf(&self) -> bool {
        &&& self.names@.len() == self.items@.len()
        &&& name_views(self.names@).no_duplicates()
    }

    /// No bindings.
    pub fn new() -> (empty: Self)
        ensures
            empty.wf(),
            empty@ == Map::<Seq<u8>, T::V>::empty(),
    {
        let empty = Bindings { names: Vec::new(), items: Vec::new() };
        proof {
            assert(empty@ =~= Map::<Seq<u8>, T::V>::empty());
        }
        empty
    }

    /// The number of names bound.
    pub fn len(&self) -> (count: usize)
        requires
            self.wf(),
        ensures
            self@.dom().finite(),
            count == self@.dom().len(),
            count == self.order().len(),
            self.order().no_duplicates(),
            self.order().to_set() == self@.dom(),
    {
        proof {
            lemma_table_len(name_views(self.names@), self.items@.map_values(|item: T| item@));
        }
        self.names.len()
    }

    /// The names bound, in the order in which they were first bound.
    pub closed spec fn order(&self) -> Seq<Seq<u8>> {
        name_views(self.names@)
    }

    /// The name at `position` in the order of first binding, and what it is
    /// bound to.
    pub fn entry(&self, position: usize) -> (found: (&[u8], &T))
        requires
            self.wf(),
            position < self.order().len(),
        ensures
            found.0@ == self.order()[position as int],
            self@.contains_key(found.0@),
            self@[found.0@] == found.1@,
    {
        proof {
            lemma_table_binds(
                name_views(self.names@),
                self.items@.map_values(|item: T| item@),
                position as int,
            );
        }
        (self.names[position].as_slice(), &self.items[position])
    }

    /// What `name`, given as bytes, is bound to.
    pub fn lookup(&self, name: &[u8]) -> (found: Option<&T>)
        requires
            self.wf(),
        ensures
            match found {
                Some(item) => self@.contains_key(name@) && self@[name@] == item@,
                None => !self@.contains_key(name@),
            },
    {
        match find(&self.names, name) {
            Some(i) => {
                proof {
                    lemma_table_binds(
                        name_views(self.names@),
                        self.items@.map_values(|item: T| item@),
                        i as int,
                    );
                }
                Some(&self.items[i])
            },
            None => None,
        }
    }

    /// What `name` is bound to.
    pub fn get(&self, name: &str) -> (found: Option<&T>)
        requires
            self.wf(),
        ensures
            match found {
                Some(item) => self@.contains_key(name.spec_bytes()) && self@[name.spec_bytes()]
                    == item@,
                None => !self@.contains_key(name.spec_bytes()),
            },
    {
        self.lookup(name.as_bytes())
    }

    /// Binds `name` to `item`, in the place of what it was bound to, if anything.
    pub fn insert(&mut self, name: &[u8], item: T)
        requires
            old(self).wf(),
        ensures
            final(self).wf(),
            final(self)@ == old(self)@.insert(name@, item@),
    {
        let ghost names = name_views(self.names@);
        let ghost items = self.items@.map_values(|item: T| item@);
        match find(&self.names, name) {
            Some(i) => {
                self.items.set(i, item);
                proof {
                    lemma_table_update(names, items, i as int, item@);
                    assert(self.items@.map_values(|item: T| item@) =~= items.update(
                        i as int,
                        item@,
                    ));
                }
            },
            None => {
                let owned = slice_to_vec(name);
                self.names.push(owned);
                self.items.push(item);
                proof {
                    lemma_table_push(names, items, name@, item@);
                    assert(name_views(self.names@) =~= names.push(name@));
                    assert(self.items@.map_values(|item: T| item@) =~= items.push(item@));
                }
            },
        }
    }
}

} // verus!
