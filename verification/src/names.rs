//! Maps keyed by strings.

use vstd::prelude::*;

use crate::text::{comes_before, same};

verus! {

use crate::text::{before, before_is_total, before_is_transitive};

/// A map from names to values that is walked in the order of the names.
#[derive(Debug, Clone, PartialEq, Eq)]
pub struct NameMap<V> {
    entries: Vec<(String, V)>,
}

/// Names in ascending order, each once.
pub open spec fn ascending(names: Seq<Seq<char>>) -> bool {
    forall|i: int, j: int| 0 <= i < j < names.len() ==> before(#[trigger] names[i], #[trigger] names[j])
}

impl<V> NameMap<V> {
    /// The names, in the order in which the map is walked.
    pub closed spec fn names(self) -> Seq<Seq<char>> {
        self.entries@.map_values(|e: (String, V)| e.0@)
    }

    /// The values, in the order of their names.
    pub closed spec fn values(self) -> Seq<V> {
        self.entries@.map_values(|e: (String, V)| e.1)
    }

    /// The names are in ascending order.
    pub open spec fn wf(self) -> bool {
        ascending(self.names()) && self.names().len() == self.values().len()
    }
}

impl<V> View for NameMap<V> {
    type V = Map<Seq<char>, V>;

    open spec fn view(&self) -> Map<Seq<char>, V> {
        Map::new(
            |k: Seq<char>| self.names().contains(k),
            |k: Seq<char>| self.values()[self.names().index_of(k)],
        )
    }
}

proof fn ascending_is_distinct(names: Seq<Seq<char>>)
    requires
        ascending(names),
    ensures
        names.no_duplicates(),
        forall|i: int| 0 <= i < names.len() ==> names.index_of(#[trigger] names[i]) == i,
{
    assert forall|i: int, j: int| 0 <= i < names.len() && 0 <= j < names.len() && i != j implies names[i]
        != names[j] by {
        if i < j {
            assert(before(names[i], names[j]));
        } else {
            assert(before(names[j], names[i]));
        }
        before_is_total(names[i], names[j]);
    }
    assert forall|i: int| 0 <= i < names.len() implies names.index_of(#[trigger] names[i]) == i by {
        assert(names.contains(names[i]));
    }
}

/// Two ascending enumerations of the same names are the same.
pub proof fn ascending_is_unique(a: Seq<Seq<char>>, b: Seq<Seq<char>>)
    requires
        ascending(a),
        ascending(b),
        forall|k: Seq<char>| a.contains(k) <==> b.contains(k),
    ensures
        a == b,
    decreases a.len(),
{
    if a.len() == 0 {
        if b.len() > 0 {
            assert(b.contains(b[0]));
        }
        assert(a =~= b);
    } else {
        assert(a.contains(a.last()));
        assert(b.len() > 0);
        assert(b.contains(b.last()));
        let i = a.index_of(b.last());
        let j = b.index_of(a.last());
        assert(a.contains(b.last()) && b.contains(a.last()));
        if i != a.len() - 1 {
            assert(before(a[i], a[a.len() - 1]));
            if j == b.len() - 1 {
                before_is_total(a[i], a.last());
            } else {
                assert(before(b[j], b[b.len() - 1]));
                before_is_total(a.last(), b.last());
            }
        }
        assert(a.last() == b.last());
        let x = a.drop_last();
        let y = b.drop_last();
        ascending_is_distinct(a);
        ascending_is_distinct(b);
        assert forall|p: int, q: int| 0 <= p < q < x.len() implies before(#[trigger] x[p], #[trigger] x[q]) by {
            assert(x[p] == a[p] && x[q] == a[q]);
        }
        assert forall|p: int, q: int| 0 <= p < q < y.len() implies before(#[trigger] y[p], #[trigger] y[q]) by {
            assert(y[p] == b[p] && y[q] == b[q]);
        }
        assert forall|k: Seq<char>| x.contains(k) <==> y.contains(k) by {
            if x.contains(k) {
                let p = x.index_of(k);
                assert(a[p] == k);
                assert(a.contains(k));
                let q = b.index_of(k);
                assert(b[q] == k);
                assert(q != b.len() - 1);
                assert(y[q] == k);
            }
            if y.contains(k) {
                let p = y.index_of(k);
                assert(b[p] == k);
                assert(b.contains(k));
                let q = a.index_of(k);
                assert(a[q] == k);
                assert(q != a.len() - 1);
                assert(x[q] == k);
            }
        }
        ascending_is_unique(x, y);
        assert(a =~= x.push(a.last()));
        assert(b =~= y.push(b.last()));
    }
}

impl<V> NameMap<V> {
    /// What a well-formed map holds at each place of the walk.
    pub proof fn walk(self)
        requires
            self.wf(),
        ensures
            self.names().no_duplicates(),
            forall|i: int|
                0 <= i < self.names().len() ==> self@.contains_key(#[trigger] self.names()[i])
                    && self@[self.names()[i]] == self.values()[i],
            forall|k: Seq<char>| self@.contains_key(k) ==> self.names().contains(k),
    {
        ascending_is_distinct(self.names());
    }

    pub fn new() -> (r: Self)
        ensures
            r.wf(),
            r@ == Map::<Seq<char>, V>::empty(),
    {
        let r = NameMap { entries: Vec::new() };
        assert(r@ =~= Map::<Seq<char>, V>::empty());
        r
    }

    pub fn len(&self) -> (r: usize)
        ensures
            r == self.names().len(),
    {
        self.entries.len()
    }

    pub fn is_empty(&self) -> (r: bool)
        requires
            self.wf(),
        ensures
            r == (self@ == Map::<Seq<char>, V>::empty()),
    {
        let r: bool = self.entries.len() == 0;
        proof {
            if r {
                assert(self@ =~= Map::<Seq<char>, V>::empty());
            } else {
                self.walk();
                assert(self@.contains_key(self.names()[0]));
            }
        }
        r
    }

    /// The name at place `i` of the walk.
    pub fn name_at(&self, i: usize) -> (r: &str)
        requires
            i < self.names().len(),
        ensures
            r@ == self.names()[i as int],
    {
        self.entries[i].0.as_str()
    }

    /// The value at place `i` of the walk.
    pub fn value_at(&self, i: usize) -> (r: &V)
        requires
            i < self.names().len(),
        ensures
            *r == self.values()[i as int],
    {
        &self.entries[i].1
    }

    /// How many names come before `name`.
    fn rank(&self, name: &str) -> (r: usize)
        requires
            self.wf(),
        ensures
            r <= self.entries@.len(),
            forall|i: int| 0 <= i < r ==> before(#[trigger] self.names()[i], name@),
            forall|i: int| r <= i < self.names().len() ==> !before(#[trigger] self.names()[i], name@),
    {
        let mut i: usize = 0;
        while i < self.entries.len()
            invariant
                self.wf(),
                i <= self.entries@.len(),
                forall|j: int| 0 <= j < i ==> before(#[trigger] self.names()[j], name@),
            decreases self.entries@.len() - i,
        {
            if !comes_before(self.entries[i].0.as_str(), name) {
                assert(!before(self.names()[i as int], name@));
                assert forall|j: int| i <= j < self.names().len() implies !before(
                    #[trigger] self.names()[j],
                    name@,
                ) by {
                    if j > i && before(self.names()[j], name@) {
                        assert(before(self.names()[i as int], self.names()[j]));
                        before_is_transitive(self.names()[i as int], self.names()[j], name@);
                    }
                }
                return i;
            }
            assert(before(self.names()[i as int], name@));
            i = i + 1;
        }
        i
    }

    /// The place of `name` in the walk, or the place where it belongs.
    fn find(&self, name: &str) -> (r: (bool, usize))
        requires
            self.wf(),
        ensures
            r.1 <= self.entries@.len(),
            r.0 == self@.contains_key(name@),
            r.0 ==> r.1 < self.entries@.len() && self.names()[r.1 as int] == name@ && self@[name@]
                == self.entries@[r.1 as int].1,
            forall|i: int| 0 <= i < r.1 ==> before(#[trigger] self.names()[i], name@),
            forall|i: int|
                r.1 <= i < self.names().len() ==> (#[trigger] self.names()[i]) == name@ || before(
                    name@,
                    self.names()[i],
                ),
            !r.0 ==> forall|i: int| r.1 <= i < self.names().len() ==> before(name@, #[trigger] self.names()[i]),
    {
        let p: usize = self.rank(name);
        proof {
            self.walk();
            assert forall|i: int| 0 <= i < p implies (#[trigger] self.names()[i]) != name@ by {
                before_is_total(self.names()[i], name@);
            }
            assert forall|i: int| p <= i < self.names().len() implies (#[trigger] self.names()[i])
                == name@ || before(name@, self.names()[i]) by {
                before_is_total(self.names()[i], name@);
            }
        }
        if p < self.entries.len() && same(self.entries[p].0.as_str(), name) {
            assert(self.names()[p as int] == name@);
            (true, p)
        } else {
            proof {
                if self@.contains_key(name@) {
                    let q = self.names().index_of(name@);
                    assert(self.names()[q] == name@);
                    assert(p < q);
                    assert(before(self.names()[p as int], self.names()[q]));
                    before_is_total(self.names()[p as int], name@);
                }
                assert forall|i: int| p <= i < self.names().len() implies before(
                    name@,
                    #[trigger] self.names()[i],
                ) by {
                    if self.names()[i] == name@ {
                        assert(self@.contains_key(name@));
                    }
                }
            }
            (false, p)
        }
    }

    pub fn contains_key(&self, name: &str) -> (r: bool)
        requires
            self.wf(),
        ensures
            r == self@.contains_key(name@),
    {
        self.find(name).0
    }

    pub fn get(&self, name: &str) -> (r: Option<&V>)
        requires
            self.wf(),
        ensures
            match r {
                Some(v) => self@.contains_key(name@) && *v == self@[name@],
                None => !self@.contains_key(name@),
            },
    {
        let (found, p) = self.find(name);
        if found {
            Some(&self.entries[p].1)
        } else {
            None
        }
    }

    /// Bind `name` to `value`, in place of what it was bound to.
    pub fn insert(&mut self, name: String, value: V)
        requires
            old(self).wf(),
        ensures
            final(self).wf(),
            final(self)@ == old(self)@.insert(name@, value),
    {
        let (found, p) = self.find(name.as_str());
        let ghost names = self.names();
        let ghost values = self.values();
        let ghost key = name@;
        proof {
            self.walk();
        }
        if found {
            self.entries.set(p, (name, value));
            assert(self.names() =~= names);
            assert(self.values() =~= values.update(p as int, value));
            proof {
                ascending_is_distinct(names);
                assert forall|k: Seq<char>| #[trigger] names.contains(k) && k != key implies self.values()[names.index_of(
                    k,
                )] == values[names.index_of(k)] by {
                    assert(names[names.index_of(k)] == k);
                }
            }
            assert(self@ =~= old(self)@.insert(key, value));
        } else {
            self.entries.insert(p, (name, value));
            assert(self.names() =~= names.insert(p as int, key));
            assert(self.values() =~= values.insert(p as int, value));
            proof {
                let after = self.names();
                assert forall|i: int, j: int| 0 <= i < j < after.len() implies before(
                    #[trigger] after[i],
                    #[trigger] after[j],
                ) by {
                    let a = if i < p { i } else { i - 1 };
                    let b = if j < p { j } else { j - 1 };
                    if i == p {
                        assert(after[j] == names[b]);
                    } else if j == p {
                        assert(after[i] == names[a]);
                    } else {
                        assert(after[i] == names[a]);
                        assert(after[j] == names[b]);
                    }
                }
                ascending_is_distinct(after);
                ascending_is_distinct(names);
                assert forall|k: Seq<char>| after.contains(k) <==> names.contains(k) || k == key by {
                    if after.contains(k) {
                        let i = after.index_of(k);
                        assert(after[i] == k);
                        if i < p {
                            assert(names[i] == k);
                        } else if i > p {
                            assert(names[i - 1] == k);
                        }
                    }
                    if names.contains(k) {
                        let i = names.index_of(k);
                        assert(names[i] == k);
                        if i < p {
                            assert(after[i] == k);
                        } else {
                            assert(after[i + 1] == k);
                        }
                    }
                    if k == key {
                        assert(after[p as int] == k);
                    }
                }
                assert forall|k: Seq<char>| #[trigger] after.contains(k) implies self.values()[after.index_of(
                    k,
                )] == old(self)@.insert(key, value)[k] by {
                    if k == key {
                        assert(after[p as int] == k);
                        assert(after.index_of(after[p as int]) == p);
                    } else {
                        let i = names.index_of(k);
                        assert(names.contains(k));
                        assert(names[i] == k);
                        if i < p {
                            assert(after[i] == k);
                            assert(after.index_of(after[i]) == i);
                        } else {
                            assert(after[i + 1] == k);
                            assert(after.index_of(after[i + 1]) == i + 1);
                        }
                    }
                }
                assert(self@ =~= old(self)@.insert(key, value));
            }
        }
    }

    /// Drop `name`. Returns whether it was bound.
    pub fn remove(&mut self, name: &str) -> (r: bool)
        requires
            old(self).wf(),
        ensures
            final(self).wf(),
            final(self)@ == old(self)@.remove(name@),
            r == old(self)@.contains_key(name@),
    {
        self.take(name).is_some()
    }

    /// Drop `name`. Returns what it was bound to.
    pub fn take(&mut self, name: &str) -> (r: Option<V>)
        requires
            old(self).wf(),
        ensures
            final(self).wf(),
            final(self)@ == old(self)@.remove(name@),
            match r {
                Some(v) => old(self)@.contains_key(name@) && v == old(self)@[name@],
                None => !old(self)@.contains_key(name@),
            },
    {
        let (found, p) = self.find(name);
        if found {
            let ghost names = self.names();
            let ghost values = self.values();
            proof {
                self.walk();
            }
            let gone: (String, V) = self.entries.remove(p);
            proof {
                let after = self.names();
                assert(after =~= names.remove(p as int));
                assert(self.values() =~= values.remove(p as int));
                assert forall|i: int, j: int| 0 <= i < j < after.len() implies before(
                    #[trigger] after[i],
                    #[trigger] after[j],
                ) by {
                    let a = if i < p { i } else { i + 1 };
                    let b = if j < p { j } else { j + 1 };
                    assert(after[i] == names[a]);
                    assert(after[j] == names[b]);
                }
                ascending_is_distinct(after);
                ascending_is_distinct(names);
                assert forall|k: Seq<char>| after.contains(k) <==> names.contains(k) && k != name@ by {
                    if after.contains(k) {
                        let i = after.index_of(k);
                        assert(after[i] == k);
                        let a = if i < p { i } else { i + 1 };
                        assert(names[a] == k);
                    }
                    if names.contains(k) && k != name@ {
                        let i = names.index_of(k);
                        assert(names[i] == k);
                        if i < p {
                            assert(after[i] == k);
                        } else {
                            assert(after[i - 1] == k);
                        }
                    }
                }
                assert forall|k: Seq<char>| #[trigger] after.contains(k) implies self.values()[after.index_of(
                    k,
                )] == old(self)@[k] by {
                    let i = names.index_of(k);
                    assert(names.contains(k));
                    assert(names[i] == k);
                    if i < p {
                        assert(after[i] == k);
                        assert(after.index_of(after[i]) == i);
                    } else {
                        assert(after[i - 1] == k);
                        assert(after.index_of(after[i - 1]) == i - 1);
                    }
                }
                assert(self@ =~= old(self)@.remove(name@));
            }
            Some(gone.1)
        } else {
            assert(self@ =~= old(self)@.remove(name@));
            None
        }
    }
}

} // verus!
