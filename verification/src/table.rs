//! A map from strings that lists its entries in the order of their insertion.

use vstd::hash_map::StringHashMap;
use vstd::prelude::*;

use crate::text::texts;

verus! {

/// A map from names to values. Names are listed in the order in which they
/// first came in; a value may be replaced, a name never leaves.
pub struct Table<V> {
    names: Vec<String>,
    values: Vec<V>,
    index: StringHashMap<usize>,
}

impl<V> View for Table<V> {
    type V = Map<Seq<char>, V>;

    closed spec fn view(&self) -> Map<Seq<char>, V> {
        Map::new(
            |k: Seq<char>| self.index@.contains_key(k),
            |k: Seq<char>| self.values@[self.index@[k] as int],
        )
    }
}

impl<V> Table<V> {
    /// Whether the three parts of the table agree.
    pub closed spec fn wf(&self) -> bool {
        &&& self.names@.len() == self.values@.len()
        &&& forall|k: Seq<char>| #[trigger]
            self.index@.contains_key(k) ==> self.index@[k] < self.names@.len()
                && self.names@[self.index@[k] as int]@ == k
        &&& forall|i: int|
            0 <= i < self.names@.len() ==> self.index@.contains_key(#[trigger] self.names@[i]@)
                && self.index@[self.names@[i]@] == i
    }

    /// The names, in the order of their insertion.
    pub closed spec fn keys(&self) -> Seq<Seq<char>> {
        texts(self.names@)
    }

    /// The listed names are those of the map, each listed once.
    pub proof fn lemma_keys(&self)
        requires
            self.wf(),
        ensures
            self.keys().no_duplicates(),
            forall|k: Seq<char>| self.keys().contains(k) <==> #[trigger] self@.contains_key(k),
            forall|i: int|
                0 <= i < self.keys().len() ==> self@.contains_key(#[trigger] self.keys()[i]),
            self@.dom().finite(),
    {
        assert forall|i: int, j: int|
            0 <= i < self.keys().len() && 0 <= j < self.keys().len() && i != j implies self.keys()[i]
            != self.keys()[j] by {
            assert(self.index@[self.names@[i]@] == i);
            assert(self.index@[self.names@[j]@] == j);
        }
        assert forall|k: Seq<char>| self.keys().contains(k) <==> #[trigger] self@.contains_key(k) by {
            if self@.contains_key(k) {
                assert(self.keys()[self.index@[k] as int] == k);
            }
            if self.keys().contains(k) {
                let i = choose|i: int| 0 <= i < self.keys().len() && self.keys()[i] == k;
                assert(self.index@.contains_key(self.names@[i]@));
            }
        }
        assert forall|i: int| 0 <= i < self.keys().len() implies self@.contains_key(
            #[trigger] self.keys()[i],
        ) by {
            assert(self.index@.contains_key(self.names@[i]@));
        }
        vstd::seq_lib::seq_to_set_is_finite(self.keys());
        assert(self@.dom() =~= self.keys().to_set());
    }

    pub fn new() -> (t: Self)
        ensures
            t.wf(),
            t@ == Map::<Seq<char>, V>::empty(),
            t.keys() == Seq::<Seq<char>>::empty(),
    {
        let t = Table { names: Vec::new(), values: Vec::new(), index: StringHashMap::new() };
        assert(t@ == Map::<Seq<char>, V>::empty());
        assert(t.keys() == Seq::<Seq<char>>::empty());
        t
    }

    pub fn len(&self) -> (n: usize)
        requires
            self.wf(),
        ensures
            n == self.keys().len(),
    {
        self.names.len()
    }

    pub fn is_empty(&self) -> (r: bool)
        requires
            self.wf(),
        ensures
            r == (self@ == Map::<Seq<char>, V>::empty()),
    {
        proof {
            self.lemma_keys();
            if self.names@.len() > 0 {
                assert(self@.contains_key(self.keys()[0]));
            } else {
                assert forall|k: Seq<char>| !(#[trigger] self@.contains_key(k)) by {
                    assert(!self.keys().contains(k));
                }
                assert(self@ == Map::<Seq<char>, V>::empty());
            }
        }
        self.names.len() == 0
    }

    /// The `i`-th name.
    pub fn name(&self, i: usize) -> (r: &String)
        requires
            self.wf(),
            i < self.keys().len(),
        ensures
            r@ == self.keys()[i as int],
    {
        &self.names[i]
    }

    /// The value of the `i`-th name.
    pub fn value(&self, i: usize) -> (r: &V)
        requires
            self.wf(),
            i < self.keys().len(),
        ensures
            *r == self@[self.keys()[i as int]],
    {
        proof {
            assert(self.index@.contains_key(self.names@[i as int]@));
        }
        &self.values[i]
    }

    pub fn get(&self, name: &str) -> (r: Option<&V>)
        requires
            self.wf(),
        ensures
            match r {
                Some(v) => self@.contains_key(name@) && *v == self@[name@],
                None => !self@.contains_key(name@),
            },
    {
        match self.index.get(name) {
            Some(i) => Some(&self.values[*i]),
            None => None,
        }
    }

    pub fn contains(&self, name: &str) -> (r: bool)
        requires
            self.wf(),
        ensures
            r == self@.contains_key(name@),
    {
        self.index.contains_key(name)
    }

    /// Where a name is listed.
    pub fn position(&self, name: &str) -> (r: Option<usize>)
        requires
            self.wf(),
        ensures
            match r {
                Some(i) => i < self.keys().len() && self.keys()[i as int] == name@
                    && self@.contains_key(name@),
                None => !self@.contains_key(name@),
            },
    {
        match self.index.get(name) {
            Some(i) => Some(*i),
            None => None,
        }
    }

    /// Sets the value of a name.
    pub fn insert(&mut self, name: String, value: V)
        requires
            old(self).wf(),
        ensures
            final(self).wf(),
            final(self)@ == old(self)@.insert(name@, value),
            final(self).keys() == (if old(self)@.contains_key(name@) {
                old(self).keys()
            } else {
                old(self).keys().push(name@)
            }),
    {
        match self.index.get(name.as_str()) {
            Some(i) => {
                let i: usize = *i;
                self.values[i] = value;
                assert(self@ == old(self)@.insert(name@, value));
            },
            None => {
                let copy = name.clone();
                self.index.insert(copy, self.names.len());
                self.names.push(name);
                self.values.push(value);
                proof {
                    assert(self.keys() == old(self).keys().push(name@));
                    assert forall|i: int| 0 <= i < self.names@.len() implies self.index@.contains_key(
                        #[trigger] self.names@[i]@,
                    ) && self.index@[self.names@[i]@] == i by {
                        if i < old(self).names@.len() {
                            assert(old(self).index@.contains_key(old(self).names@[i]@));
                        }
                    }
                    assert forall|k: Seq<char>| #[trigger]
                        self.index@.contains_key(k) implies self.index@[k] < self.names@.len()
                        && self.names@[self.index@[k] as int]@ == k by {
                        if k != name@ {
                            assert(old(self).index@.contains_key(k));
                        }
                    }
                    assert(self@ == old(self)@.insert(name@, value));
                }
            },
        }
    }

    /// Access to the value of the `i`-th name.
    pub fn value_mut(&mut self, i: usize) -> (r: &mut V)
        requires
            old(self).wf(),
            i < old(self).keys().len(),
        ensures
            *r == old(self)@[old(self).keys()[i as int]],
            final(self).wf(),
            final(self).keys() == old(self).keys(),
            final(self)@ == old(self)@.insert(old(self).keys()[i as int], *final(r)),
    {
        proof {
            assert(self.index@.contains_key(self.names@[i as int]@));
        }
        &mut self.values[i]
    }
}

/// The values of a table of lists.
pub open spec fn contents<T>(m: Map<Seq<char>, Vec<T>>) -> Map<Seq<char>, Seq<T>> {
    m.map_values(|v: Vec<T>| v@)
}

/// Appends an item to the list of a name; a name without a list gets one.
pub fn append<T>(t: &mut Table<Vec<T>>, name: &str, item: T)
    requires
        old(t).wf(),
    ensures
        final(t).wf(),
        contents(final(t)@) == contents(old(t)@).insert(
            name@,
            (if old(t)@.contains_key(name@) {
                old(t)@[name@]@
            } else {
                Seq::empty()
            }).push(item),
        ),
{
    match t.position(name) {
        Some(i) => {
            let list = t.value_mut(i);
            list.push(item);
        },
        None => {
            let mut list: Vec<T> = Vec::new();
            list.push(item);
            t.insert(name.to_owned(), list);
        },
    }
    assert(contents(t@) =~= contents(old(t)@).insert(
        name@,
        (if old(t)@.contains_key(name@) {
            old(t)@[name@]@
        } else {
            Seq::empty()
        }).push(item),
    ));
}

/// A table of lists has the lists that it says, name by name.
pub proof fn lemma_contents<T>(m: Map<Seq<char>, Vec<T>>, name: Seq<char>)
    ensures
        contents(m).contains_key(name) <==> m.contains_key(name),
        m.contains_key(name) ==> contents(m)[name] == m[name]@,
{
}

} // verus!
