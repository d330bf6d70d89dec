//! Maps keyed by name. The entries stand in the order of their names, and no name occurs twice.
use crate::text::{before, place, Place, lemma_before_asymmetric, lemma_before_irreflexive, lemma_before_transitive};
use vstd::prelude::*;

verus! {

/// What can serve as a name: something that holds a text.
pub trait Name: Sized {
    /// The text.
    spec fn name(&self) -> Seq<char>;

    /// Borrows the text.
    fn text(&self) -> (r: &str)
        ensures
            r@ == self.name(),
    ;
}

impl Name for String {
    open spec fn name(&self) -> Seq<char> {
        self@
    }

    fn text(&self) -> (r: &str) {
        self.as_str()
    }
}

impl<'a> Name for &'a str {
    open spec fn name(&self) -> Seq<char> {
        (*self)@
    }

    fn text(&self) -> (r: &str) {
        *self
    }
}

/// The names of some entries, in order.
pub open spec fn names_of<K: Name, V>(entries: Seq<(K, V)>) -> Seq<Seq<char>> {
    entries.map_values(|e: (K, V)| e.0.name())
}

/// The values of some entries, in order.
pub open spec fn values_of<K, V>(entries: Seq<(K, V)>) -> Seq<V> {
    entries.map_values(|e: (K, V)| e.1)
}

/// The names strictly increase.
pub open spec fn increasing(names: Seq<Seq<char>>) -> bool {
    forall|i: int, j: int| 0 <= i < j < names.len() ==> before(names[i], names[j])
}

/// The map that sends the `i`-th name to the `i`-th value.
pub open spec fn assoc<T>(names: Seq<Seq<char>>, values: Seq<T>) -> Map<Seq<char>, T> {
    Map::new(|k: Seq<char>| names.contains(k), |k: Seq<char>| values[names.index_of(k)])
}

/// Names that strictly increase are distinct.
pub proof fn lemma_increasing_distinct(names: Seq<Seq<char>>)
    requires
        increasing(names),
    ensures
        names.no_duplicates(),
{
    assert forall|i: int, j: int| 0 <= i < names.len() && 0 <= j < names.len() && i != j implies names[i]
        != names[j] by {
        if i < j {
            lemma_before_asymmetric(names[i], names[j]);
        } else {
            lemma_before_asymmetric(names[j], names[i]);
        }
    }
}

/// The map sends each name to the value that stands beside it.
pub proof fn lemma_assoc_at<T>(names: Seq<Seq<char>>, values: Seq<T>, i: int)
    requires
        increasing(names),
        0 <= i < names.len(),
    ensures
        assoc(names, values).contains_key(names[i]),
        assoc(names, values)[names[i]] == values[i],
{
    lemma_increasing_distinct(names);
    assert(names.contains(names[i]));
    let j = names.index_of(names[i]);
    assert(0 <= j < names.len() && names[j] == names[i]);
    assert(i == j);
}

/// The map has as many keys as there are names.
pub proof fn lemma_assoc_len<T>(names: Seq<Seq<char>>, values: Seq<T>)
    requires
        increasing(names),
    ensures
        assoc(names, values).dom().finite(),
        assoc(names, values).len() == names.len(),
{
    lemma_increasing_distinct(names);
    names.unique_seq_to_set();
    assert(assoc(names, values).dom() =~= names.to_set());
}

/// A new entry, put in its place, adds one key to the map.
proof fn lemma_assoc_insert<T>(names: Seq<Seq<char>>, values: Seq<T>, i: int, name: Seq<char>, value: T)
    requires
        increasing(names),
        names.len() == values.len(),
        0 <= i <= names.len(),
        forall|j: int| 0 <= j < i ==> before(names[j], name),
        forall|j: int| i <= j < names.len() ==> before(name, names[j]),
    ensures
        increasing(names.insert(i, name)),
        assoc(names.insert(i, name), values.insert(i, value)) == assoc(names, values).insert(name, value),
{
    let ns = names.insert(i, name);
    let vs = values.insert(i, value);
    assert(increasing(ns));
    let old_map = assoc(names, values);
    let new_map = assoc(ns, vs);
    assert forall|k: Seq<char>| new_map.contains_key(k) == old_map.insert(name, value).contains_key(k) by {
        if ns.contains(k) {
            let j = ns.index_of(k);
            if j < i {
                assert(names[j] == k);
            } else if j > i {
                assert(names[j - 1] == k);
            }
        }
        if names.contains(k) {
            let j = names.index_of(k);
            if j < i {
                assert(ns[j] == k);
            } else {
                assert(ns[j + 1] == k);
            }
        }
        assert(ns[i] == name);
    }
    assert forall|k: Seq<char>| new_map.contains_key(k) implies new_map[k] == old_map.insert(name, value)[k] by {
        let j = ns.index_of(k);
        if j < i {
            lemma_assoc_at(names, values, j);
            lemma_before_asymmetric(names[j], name);
        } else if j > i {
            lemma_assoc_at(names, values, j - 1);
            lemma_before_asymmetric(name, names[j - 1]);
        }
    }
    assert(new_map =~= old_map.insert(name, value));
}

/// A new value beside an old name replaces what the name is sent to.
proof fn lemma_assoc_update<T>(names: Seq<Seq<char>>, values: Seq<T>, i: int, value: T)
    requires
        increasing(names),
        names.len() == values.len(),
        0 <= i < names.len(),
    ensures
        assoc(names, values.update(i, value)) == assoc(names, values).insert(names[i], value),
{
    let old_map = assoc(names, values);
    let new_map = assoc(names, values.update(i, value));
    lemma_assoc_at(names, values.update(i, value), i);
    assert forall|k: Seq<char>| new_map.contains_key(k) implies new_map[k] == old_map.insert(names[i], value)[k] by {
        let j = names.index_of(k);
        assert(names[j] == k);
        if j != i {
            lemma_increasing_distinct(names);
        }
    }
    assert(new_map =~= old_map.insert(names[i], value));
}

/// A map from names to values.
#[derive(Debug, PartialEq, Eq)]
pub struct NameMap<K: Name, V> {
    entries: Vec<(K, V)>,
}

impl<K: Name, V> View for NameMap<K, V> {
    type V = Map<Seq<char>, V>;

    open spec fn view(&self) -> Map<Seq<char>, V> {
        assoc(names_of(self.spine()), values_of(self.spine()))
    }
}

impl<K: Name, V> NameMap<K, V> {
    /// The entries, in the order of their names.
    pub closed spec fn spine(&self) -> Seq<(K, V)> {
        self.entries@
    }

    /// The values of a map are structurally smaller than the map.
    pub proof fn lemma_values_smaller(&self)
        ensures
            forall|i: int|
                0 <= i < self.spine().len() ==> decreases_to!(self => (#[trigger] self.spine()[i]).1),
    {
        assert forall|i: int| 0 <= i < self.spine().len() implies decreases_to!(self => (#[trigger] self.spine()[i]).1) by {
            assert(decreases_to!(self => self.entries));
            assert(decreases_to!(self.entries => self.entries@));
            assert(decreases_to!(self.entries@ => self.entries@[i]));
            assert(decreases_to!(self.entries@[i] => self.entries@[i].1));
        }
    }
}

impl<K: Name, V> NameMap<K, V> {
    /// The names of a map increase.
    #[verifier::type_invariant]
    pub open spec fn sorted(&self) -> bool {
        increasing(names_of(self.spine()))
    }

    /// The map without entries.
    pub fn new() -> (r: Self)
        ensures
            r.spine() == Seq::<(K, V)>::empty(),
            r@ == Map::<Seq<char>, V>::empty(),
    {
        let r = NameMap { entries: Vec::new() };
        assert(r@ =~= Map::<Seq<char>, V>::empty());
        r
    }

    /// How many entries there are: as many as keys.
    pub fn len(&self) -> (r: usize)
        ensures
            r == self.spine().len(),
            r == self@.len(),
            self@.dom().finite(),
            increasing(names_of(self.spine())),
    {
        proof {
            use_type_invariant(&*self);
            lemma_assoc_len(names_of(self.spine()), values_of(self.spine()));
        }
        self.entries.len()
    }

    /// The name of the `i`-th entry.
    pub fn name_at(&self, i: usize) -> (r: &K)
        requires
            i < self.spine().len(),
        ensures
            *r == self.spine()[i as int].0,
    {
        &self.entries[i].0
    }

    /// The value of the `i`-th entry.
    pub fn value_at(&self, i: usize) -> (r: &V)
        requires
            i < self.spine().len(),
        ensures
            *r == self.spine()[i as int].1,
    {
        &self.entries[i].1
    }

    /// Finds the place of a name: how many entries stand before it, and whether the next one has it.
    fn locate(&self, name: &str) -> (r: (usize, bool))
        ensures
            increasing(names_of(self.spine())),
            r.0 <= self.spine().len(),
            forall|j: int| 0 <= j < r.0 ==> before(#[trigger] names_of(self.spine())[j], name@),
            r.1 ==> r.0 < self.spine().len() && names_of(self.spine())[r.0 as int] == name@,
            !r.1 ==> forall|j: int|
                r.0 <= j < self.spine().len() ==> before(name@, #[trigger] names_of(self.spine())[j]),
            r.1 == self@.contains_key(name@),
            r.1 ==> self@[name@] == self.spine()[r.0 as int].1,
    {
        proof {
            use_type_invariant(&*self);
        }
        let ghost names = names_of(self.spine());
        let mut lo: usize = 0;
        let mut hi: usize = self.entries.len();
        while lo < hi
            invariant
                names == names_of(self.spine()),
                increasing(names),
                lo <= hi <= self.entries@.len(),
                forall|j: int| 0 <= j < lo ==> before(#[trigger] names[j], name@),
                forall|j: int| hi <= j < names.len() ==> before(name@, #[trigger] names[j]),
            decreases hi - lo,
        {
            let mid: usize = lo + (hi - lo) / 2;
            match place(self.entries[mid].0.text(), name) {
                Place::Before => {
                    assert forall|j: int| 0 <= j < mid + 1 implies before(#[trigger] names[j], name@) by {
                        if j < mid {
                            lemma_before_transitive(names[j], names[mid as int], name@);
                        }
                    }
                    lo = mid + 1;
                },
                Place::After => {
                    assert forall|j: int| mid <= j < names.len() implies before(name@, #[trigger] names[j]) by {
                        if mid < j {
                            lemma_before_transitive(name@, names[mid as int], names[j]);
                        }
                    }
                    hi = mid;
                },
                Place::Same => {
                    assert(names[mid as int] == name@);
                    proof {
                        lemma_assoc_at(names, values_of(self.spine()), mid as int);
                    }
                    return (mid, true);
                },
            }
        }
        assert(!names.contains(name@)) by {
            if names.contains(name@) {
                let j = names.index_of(name@);
                lemma_before_irreflexive(name@);
                assert(before(names[j], name@) || before(name@, names[j]));
            }
        }
        (lo, false)
    }

    /// Looks a name up.
    pub fn get(&self, name: &str) -> (r: Option<&V>)
        ensures
            r is Some == self@.contains_key(name@),
            r matches Some(v) ==> *v == self@[name@],
            r matches Some(v) ==> exists|i: int| 0 <= i < self.spine().len() && *v == (#[trigger] self.spine()[i]).1,
    {
        let (i, found) = self.locate(name);
        if found {
            assert(self.entries@[i as int].1 == self.spine()[i as int].1);
            Some(&self.entries[i].1)
        } else {
            None
        }
    }

    /// Whether a name is among the keys.
    pub fn contains_key(&self, name: &str) -> (r: bool)
        ensures
            r == self@.contains_key(name@),
    {
        self.locate(name).1
    }

    /// Sends a name to a value, whatever it was sent to before.
    pub fn insert(&mut self, name: K, value: V)
        ensures
            final(self)@ == old(self)@.insert(name.name(), value),
            increasing(names_of(final(self).spine())),
    {
        let (i, found) = self.locate(name.text());
        let mut entries: Vec<(K, V)> = Vec::new();
        std::mem::swap(&mut entries, &mut self.entries);
        let ghost names = names_of(entries@);
        let ghost values = values_of(entries@);
        if found {
            entries.set(i, (name, value));
            proof {
                lemma_assoc_update(names, values, i as int, value);
                assert(names_of(entries@) =~= names);
                assert(values_of(entries@) =~= values.update(i as int, value));
            }
        } else {
            entries.insert(i, (name, value));
            proof {
                lemma_assoc_insert(names, values, i as int, name.name(), value);
                assert(names_of(entries@) =~= names.insert(i as int, name.name()));
                assert(values_of(entries@) =~= values.insert(i as int, value));
            }
        }
        self.entries = entries;
    }

    /// Gives up the map for the value of one name.
    pub fn take(self, name: &str) -> (r: Option<V>)
        ensures
            r is Some == self@.contains_key(name@),
            r matches Some(v) ==> v == self@[name@],
    {
        let (i, found) = self.locate(name);
        if found {
            let mut entries = self.entries;
            Some(entries.swap_remove(i).1)
        } else {
            None
        }
    }

    /// The map with the given entries.
    pub fn from_sorted(entries: Vec<(K, V)>) -> (r: Self)
        requires
            increasing(names_of(entries@)),
        ensures
            r.spine() == entries@,
    {
        NameMap { entries }
    }

    /// Gives up the map for its entries.
    pub fn into_entries(self) -> (r: Vec<(K, V)>)
        ensures
            r@ == self.spine(),
            increasing(names_of(r@)),
    {
        proof {
            use_type_invariant(&self);
        }
        self.entries
    }
}

} // verus!
