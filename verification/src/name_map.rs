//! A map from names, kept as a list in the order of insertion.

use vstd::prelude::*;
use crate::text::text_eq;

verus! {

/// A map from names to values.
pub struct NameMap<V> {
    entries: Vec<(String, V)>,
}

/// The position of a name in a list of entries.
pub closed spec fn position<V>(entries: Seq<(String, V)>, name: Seq<char>) -> int {
    choose|i: int| 0 <= i < entries.len() && (#[trigger] entries[i]).0@ == name
}

/// A name stands in a list of entries.
pub closed spec fn has_name<V>(entries: Seq<(String, V)>, name: Seq<char>) -> bool {
    exists|i: int| 0 <= i < entries.len() && (#[trigger] entries[i]).0@ == name
}

impl<V> View for NameMap<V> {
    type V = Map<Seq<char>, V>;

    closed spec fn view(&self) -> Map<Seq<char>, V> {
        Map::new(
            |name: Seq<char>| has_name(self.entries@, name),
            |name: Seq<char>| self.entries@[position(self.entries@, name)].1,
        )
    }
}

impl<V> NameMap<V> {
    /// No name stands twice.
    pub closed spec fn well_formed(self) -> bool {
        forall|i: int, j: int|
            #![trigger self.entries@[i], self.entries@[j]]
            0 <= i < j < self.entries@.len() ==> self.entries@[i].0@ != self.entries@[j].0@
    }

    /// The names in the order of insertion.
    pub closed spec fn order(self) -> Seq<Seq<char>> {
        Seq::new(self.entries@.len(), |i: int| self.entries@[i].0@)
    }

    /// Each name stands once in the order, and the order holds all names.
    pub proof fn lemma_order(self)
        requires
            self.well_formed(),
        ensures
            self.order().no_duplicates(),
            self.order().to_set() == self@.dom(),
            self@.dom().finite(),
            self.order().len() == self@.dom().len(),
            forall|i: int| 0 <= i < self.order().len() ==> self@.contains_key(#[trigger] self.order()[i]),
    {
        let order = self.order();
        assert forall|i: int, j: int| 0 <= i < order.len() && 0 <= j < order.len() && i != j implies order[i]
            != order[j] by {
            if i < j {
                assert(self.entries@[i].0@ != self.entries@[j].0@);
            } else {
                assert(self.entries@[j].0@ != self.entries@[i].0@);
            }
        }
        order.unique_seq_to_set();
        assert forall|name: Seq<char>| order.to_set().contains(name) <==> #[trigger] self@.dom().contains(name) by {
            if order.contains(name) {
                let i = choose|i: int| 0 <= i < order.len() && order[i] == name;
                assert(self.entries@[i].0@ == name);
            }
            if has_name(self.entries@, name) {
                let i = choose|i: int| 0 <= i < self.entries@.len() && (#[trigger] self.entries@[i]).0@ == name;
                assert(order[i] == name);
            }
        }
        assert(order.to_set() =~= self@.dom());
        vstd::seq_lib::seq_to_set_is_finite(order);
        assert forall|i: int| 0 <= i < order.len() implies self@.contains_key(#[trigger] order[i]) by {
            assert(order.contains(order[i]));
        }
    }

    proof fn lemma_at(self, i: int)
        requires
            self.well_formed(),
            0 <= i < self.entries@.len(),
        ensures
            self@.contains_key(self.entries@[i].0@),
            self@[self.entries@[i].0@] == self.entries@[i].1,
            position(self.entries@, self.entries@[i].0@) == i,
    {
        let name = self.entries@[i].0@;
        assert(self.entries@[i].0@ == name);
        let p = position(self.entries@, name);
        assert(0 <= p < self.entries@.len() && self.entries@[p].0@ == name);
        if p < i {
            assert(self.entries@[p].0@ != self.entries@[i].0@);
        } else if i < p {
            assert(self.entries@[i].0@ != self.entries@[p].0@);
        }
    }

    /// An empty map.
    pub fn new() -> (r: Self)
        ensures
            r.well_formed(),
            r@ == Map::<Seq<char>, V>::empty(),
            r.order() == Seq::<Seq<char>>::empty(),
    {
        let r = NameMap { entries: Vec::new() };
        assert(r@ =~= Map::<Seq<char>, V>::empty());
        assert(r.order() =~= Seq::<Seq<char>>::empty());
        r
    }

    /// The number of names.
    pub fn len(&self) -> (n: usize)
        requires
            self.well_formed(),
        ensures
            n == self@.dom().len(),
            n == self.order().len(),
            self@.dom().finite(),
    {
        proof {
            self.lemma_order();
        }
        self.entries.len()
    }

    fn find(&self, name: &str) -> (r: Option<usize>)
        requires
            self.well_formed(),
        ensures
            match r {
                Some(i) => i < self.entries@.len() && self.entries@[i as int].0@ == name@
                    && self@.contains_key(name@) && self@[name@] == self.entries@[i as int].1,
                None => !self@.contains_key(name@),
            },
    {
        let mut i: usize = 0;
        while i < self.entries.len()
            invariant
                self.well_formed(),
                i <= self.entries@.len(),
                forall|x: int| 0 <= x < i ==> (#[trigger] self.entries@[x]).0@ != name@,
            decreases self.entries.len() - i,
        {
            if text_eq(self.entries[i].0.as_str(), name) {
                proof {
                    self.lemma_at(i as int);
                }
                return Some(i);
            }
            i = i + 1;
        }
        None
    }

    /// The value of a name.
    pub fn get(&self, name: &str) -> (r: Option<&V>)
        requires
            self.well_formed(),
        ensures
            match r {
                Some(v) => self@.contains_key(name@) && self@[name@] == *v,
                None => !self@.contains_key(name@),
            },
    {
        match self.find(name) {
            Some(i) => Some(&self.entries[i].1),
            None => None,
        }
    }

    /// The name at a place of the order, with its value.
    pub fn at(&self, i: usize) -> (r: (&String, &V))
        requires
            self.well_formed(),
            i < self.order().len(),
        ensures
            r.0@ == self.order()[i as int],
            self@.contains_key(r.0@),
            self@[r.0@] == *r.1,
    {
        proof {
            self.lemma_at(i as int);
        }
        (&self.entries[i].0, &self.entries[i].1)
    }

    /// Gives a name a value; a name that is there keeps its place.
    pub fn insert(&mut self, name: &str, value: V)
        requires
            old(self).well_formed(),
        ensures
            final(self).well_formed(),
            final(self)@ == old(self)@.insert(name@, value),
            old(self)@.contains_key(name@) ==> final(self).order() == old(self).order(),
            !old(self)@.contains_key(name@) ==> final(self).order() == old(self).order().push(name@),
    {
        let ghost before = *self;
        match self.find(name) {
            Some(i) => {
                let key: String = name.to_owned();
                self.entries.set(i, (key, value));
                proof {
                    lemma_set(before, *self, i as int, name@, value);
                }
            },
            None => {
                self.entries.push((name.to_owned(), value));
                proof {
                    lemma_push(before, *self, name@, value);
                }
            },
        }
    }

    /// Takes a name away.
    pub fn remove(&mut self, name: &str)
        requires
            old(self).well_formed(),
        ensures
            final(self).well_formed(),
            final(self)@ == old(self)@.remove(name@),
    {
        let ghost before = *self;
        match self.find(name) {
            Some(i) => {
                self.entries.remove(i);
                proof {
                    lemma_remove(before, *self, i as int, name@);
                }
            },
            None => {
                assert(before@.remove(name@) =~= before@);
            },
        }
    }
}

proof fn lemma_set<V>(before: NameMap<V>, after: NameMap<V>, i: int, name: Seq<char>, value: V)
    requires
        before.well_formed(),
        0 <= i < before.entries@.len(),
        before.entries@[i].0@ == name,
        after.entries@.len() == before.entries@.len(),
        after.entries@[i].0@ == name,
        after.entries@[i].1 == value,
        forall|x: int| 0 <= x < before.entries@.len() && x != i ==> after.entries@[x] == before.entries@[x],
    ensures
        after.well_formed(),
        after@ == before@.insert(name, value),
        after.order() == before.order(),
{
    assert forall|x: int, y: int|
        #![trigger after.entries@[x], after.entries@[y]]
        0 <= x < y < after.entries@.len() implies after.entries@[x].0@ != after.entries@[y].0@ by {
        assert(before.entries@[x].0@ != before.entries@[y].0@);
    }
    assert forall|n: Seq<char>| #[trigger] after@.dom().contains(n) <==> before@.insert(name, value).dom().contains(n) by {
        if has_name(after.entries@, n) {
            let x = choose|x: int| 0 <= x < after.entries@.len() && (#[trigger] after.entries@[x]).0@ == n;
            assert(before.entries@[x].0@ == n);
        }
        if has_name(before.entries@, n) {
            let x = choose|x: int| 0 <= x < before.entries@.len() && (#[trigger] before.entries@[x]).0@ == n;
            assert(after.entries@[x].0@ == n);
        }
        if n == name {
            assert(after.entries@[i].0@ == n);
        }
    }
    assert forall|n: Seq<char>| after@.dom().contains(n) implies #[trigger] after@[n] == before@.insert(name, value)[n] by {
        let x = choose|x: int| 0 <= x < after.entries@.len() && (#[trigger] after.entries@[x]).0@ == n;
        after.lemma_at(x);
        before.lemma_at(x);
        before.lemma_at(i);
    }
    assert(after@ =~= before@.insert(name, value));
    assert forall|x: int| 0 <= x < after.order().len() implies after.order()[x] == before.order()[x] by {
        assert(after.entries@[x].0@ == before.entries@[x].0@);
    }
    assert(after.order() =~= before.order());
}

proof fn lemma_push<V>(before: NameMap<V>, after: NameMap<V>, name: Seq<char>, value: V)
    requires
        before.well_formed(),
        !before@.contains_key(name),
        after.entries@.len() == before.entries@.len() + 1,
        after.entries@[before.entries@.len() as int].0@ == name,
        after.entries@[before.entries@.len() as int].1 == value,
        forall|x: int| 0 <= x < before.entries@.len() ==> after.entries@[x] == before.entries@[x],
    ensures
        after.well_formed(),
        after@ == before@.insert(name, value),
        after.order() == before.order().push(name),
{
    let last = before.entries@.len() as int;
    assert forall|x: int, y: int|
        #![trigger after.entries@[x], after.entries@[y]]
        0 <= x < y < after.entries@.len() implies after.entries@[x].0@ != after.entries@[y].0@ by {
        assert(after.entries@[x] == before.entries@[x]);
        if y < last {
            assert(before.entries@[x].0@ != before.entries@[y].0@);
        } else {
            before.lemma_at(x);
        }
    }
    assert forall|n: Seq<char>| #[trigger] after@.dom().contains(n) <==> before@.insert(name, value).dom().contains(n) by {
        if has_name(after.entries@, n) {
            let x = choose|x: int| 0 <= x < after.entries@.len() && (#[trigger] after.entries@[x]).0@ == n;
            if x < last {
                assert(before.entries@[x].0@ == n);
            }
        }
        if has_name(before.entries@, n) {
            let x = choose|x: int| 0 <= x < before.entries@.len() && (#[trigger] before.entries@[x]).0@ == n;
            assert(after.entries@[x].0@ == n);
        }
        if n == name {
            assert(after.entries@[last].0@ == n);
        }
    }
    assert forall|n: Seq<char>| after@.dom().contains(n) implies #[trigger] after@[n] == before@.insert(name, value)[n] by {
        let x = choose|x: int| 0 <= x < after.entries@.len() && (#[trigger] after.entries@[x]).0@ == n;
        after.lemma_at(x);
        if x < last {
            before.lemma_at(x);
        }
    }
    assert(after@ =~= before@.insert(name, value));
    assert(after.order() =~= before.order().push(name));
}

proof fn lemma_remove<V>(before: NameMap<V>, after: NameMap<V>, i: int, name: Seq<char>)
    requires
        before.well_formed(),
        0 <= i < before.entries@.len(),
        before.entries@[i].0@ == name,
        after.entries@ == before.entries@.remove(i),
    ensures
        after.well_formed(),
        after@ == before@.remove(name),
{
    let old_at = |x: int| if x < i { x } else { x + 1 };
    assert forall|x: int| 0 <= x < after.entries@.len() implies #[trigger] after.entries@[x] == before.entries@[old_at(
        x,
    )] by {}
    assert forall|x: int, y: int|
        #![trigger after.entries@[x], after.entries@[y]]
        0 <= x < y < after.entries@.len() implies after.entries@[x].0@ != after.entries@[y].0@ by {
        assert(before.entries@[old_at(x)].0@ != before.entries@[old_at(y)].0@);
    }
    before.lemma_at(i);
    assert forall|n: Seq<char>| #[trigger] after@.dom().contains(n) <==> before@.remove(name).dom().contains(n) by {
        if has_name(after.entries@, n) {
            let x = choose|x: int| 0 <= x < after.entries@.len() && (#[trigger] after.entries@[x]).0@ == n;
            assert(before.entries@[old_at(x)].0@ == n);
            before.lemma_at(old_at(x));
        }
        if has_name(before.entries@, n) && n != name {
            let x = choose|x: int| 0 <= x < before.entries@.len() && (#[trigger] before.entries@[x]).0@ == n;
            let y = if x < i { x } else { x - 1 };
            assert(after.entries@[y].0@ == n);
        }
    }
    assert forall|n: Seq<char>| after@.dom().contains(n) implies #[trigger] after@[n] == before@.remove(name)[n] by {
        let x = choose|x: int| 0 <= x < after.entries@.len() && (#[trigger] after.entries@[x]).0@ == n;
        after.lemma_at(x);
        before.lemma_at(old_at(x));
    }
    assert(after@ =~= before@.remove(name));
}

} // verus!
