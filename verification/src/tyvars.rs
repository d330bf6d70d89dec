//! Type variables: sets of them, in order, and a supply of fresh ones.
use crate::text::{digits, push_digits};
use std::collections::{BTreeMap, BTreeSet};
use vstd::laws_cmp::obeys_cmp;
use vstd::prelude::*;
use vstd::std_specs::btree::*;
use vstd::std_specs::cmp::OrdSpec;
use vstd::std_specs::iter::IteratorSpec;
use vstd::string::*;

verus! {

broadcast use vstd::std_specs::btree::group_btree_axioms;

pub type TyVar = usize;

/// Numbers that strictly increase.
pub open spec fn ascending(e: Seq<TyVar>) -> bool {
    forall|i: int, j: int| 0 <= i < j < e.len() ==> e[i] < e[j]
}

/// The members of a finite set, in order.
pub open spec fn members(s: Set<TyVar>) -> Seq<TyVar> {
    choose|e: Seq<TyVar>| ascending(e) && #[trigger] e.to_set() == s
}

/// A set has only one list of its members in order.
pub proof fn lemma_members_unique(a: Seq<TyVar>, b: Seq<TyVar>)
    requires
        ascending(a),
        ascending(b),
        a.to_set() == b.to_set(),
    ensures
        a == b,
    decreases a.len(),
{
    if a.len() == 0 {
        if b.len() > 0 {
            assert(b.to_set().contains(b[0]));
            assert(a.to_set().contains(b[0]));
        }
        assert(a =~= b);
    } else {
        assert(a.to_set().contains(a.last()));
        assert(b.contains(a.last()));
        assert(b.to_set().contains(b.last()));
        assert(a.contains(b.last()));
        assert(a.last() == b.last());
        let x = a.drop_last();
        let y = b.drop_last();
        assert forall|v: TyVar| x.to_set().contains(v) == y.to_set().contains(v) by {
            assert(a.to_set().contains(v) == b.to_set().contains(v));
            if x.contains(v) {
                let i = x.index_of(v);
                assert(a[i] == v && a[i] < a.last());
                assert(a.to_set().contains(a[i]));
                assert(b.contains(v));
                let j = b.index_of(v);
                assert(y[j] == v);
            }
            if y.contains(v) {
                let i = y.index_of(v);
                assert(b[i] == v && b[i] < b.last());
                assert(b.to_set().contains(b[i]));
                assert(a.contains(v));
                let j = a.index_of(v);
                assert(x[j] == v);
            }
        }
        assert(x.to_set() =~= y.to_set());
        lemma_members_unique(x, y);
        assert(a =~= x.push(a.last()));
        assert(b =~= y.push(b.last()));
    }
}

/// References to numbers are ordered as the numbers are.
proof fn lemma_reference_order()
    ensures
        obeys_cmp::<&TyVar>(),
{
    broadcast use vstd::laws_eq::group_laws_eq;

    reveal(vstd::laws_eq::obeys_eq_spec_properties);
    reveal(vstd::laws_cmp::obeys_partial_cmp_spec_properties);
    reveal(vstd::laws_cmp::obeys_cmp_partial_ord);
    reveal(vstd::laws_cmp::obeys_cmp_ord);
}

/// References in increasing order refer to numbers in increasing order.
proof fn lemma_references_ascend(refs: Seq<&TyVar>)
    requires
        increasing_seq(refs),
    ensures
        ascending(refs.unref()),
{
    lemma_reference_order();
    assert forall|i: int, j: int| 0 <= i < j < refs.unref().len() implies refs.unref()[i] < refs.unref()[j] by {
        assert(OrdSpec::cmp_spec(&refs[i], &refs[j]) is Less);
    }
}

/// Lists the members of a set in order.
pub fn list_members(s: &BTreeSet<TyVar>) -> (r: Vec<TyVar>)
    ensures
        ascending(r@),
        r@.to_set() == s@,
        r@ == members(s@),
{
    let mut r: Vec<TyVar> = Vec::new();
    let ghost refs = IteratorSpec::remaining(&s.iter());
    let ghost keys = refs.unref();
    for x in it: s.iter()
        invariant
            it.seq() == refs,
            keys == refs.unref(),
            r@ == keys.take(it.index() as int),
    {
        r.push(*x);
        assert(r@ =~= keys.take(it.index() + 1));
    }
    proof {
        assert(keys.take(keys.len() as int) =~= keys);
        lemma_references_ascend(refs);
        lemma_members_unique(r@, members(s@));
    }
    r
}

/// A list in order with one more number in its place.
proof fn lemma_ascending_insert(e: Seq<TyVar>, v: TyVar) -> (r: Seq<TyVar>)
    requires
        ascending(e),
        !e.contains(v),
    ensures
        ascending(r),
        forall|x: TyVar| #[trigger] r.contains(x) == (e.contains(x) || x == v),
    decreases e.len(),
{
    if e.len() == 0 || e.last() < v {
        let r = e.push(v);
        lemma_push_contains(e, v);
        r
    } else {
        let d = e.drop_last();
        assert(e =~= d.push(e.last()));
        lemma_push_contains(d, e.last());
        assert(e.contains(e.last()));
        let f = lemma_ascending_insert(d, v);
        lemma_push_contains(f, e.last());
        assert forall|i: int| 0 <= i < f.len() implies #[trigger] f[i] < e.last() by {
            assert(f.contains(f[i]));
            if f[i] != v {
                let j = d.index_of(f[i]);
                assert(e[j] == f[i]);
            }
        }
        f.push(e.last())
    }
}

pub proof fn lemma_push_contains(e: Seq<TyVar>, v: TyVar)
    ensures
        forall|x: TyVar| #[trigger] e.push(v).contains(x) == (e.contains(x) || x == v),
{
    assert forall|x: TyVar| #[trigger] e.push(v).contains(x) == (e.contains(x) || x == v) by {
        if e.contains(x) {
            assert(e.push(v)[e.index_of(x)] == x);
        }
        assert(e.push(v)[e.len() as int] == v);
        if e.push(v).contains(x) && x != v {
            let j = e.push(v).index_of(x);
            assert(e[j] == x);
        }
    }
}

/// Every finite set has a list of its members in order.
proof fn lemma_has_members(s: Set<TyVar>) -> (r: Seq<TyVar>)
    requires
        s.finite(),
    ensures
        ascending(r),
        r.to_set() == s,
    decreases s.len(),
{
    if s.len() == 0 {
        assert(Seq::<TyVar>::empty().to_set() =~= s);
        Seq::empty()
    } else {
        let v = s.choose();
        let e = lemma_has_members(s.remove(v));
        assert(!e.to_set().contains(v));
        let r = lemma_ascending_insert(e, v);
        assert forall|x: TyVar| r.to_set().contains(x) == s.contains(x) by {
            assert(r.contains(x) == (e.contains(x) || x == v));
            assert(e.to_set().contains(x) == s.remove(v).contains(x));
        }
        assert(r.to_set() =~= s);
        r
    }
}

/// The list of the members of a finite set: they are in order, and as many as the set has.
pub proof fn lemma_members(s: Set<TyVar>)
    requires
        s.finite(),
    ensures
        ascending(members(s)),
        members(s).to_set() == s,
        members(s).len() == s.len(),
{
    let e = lemma_has_members(s);
    assert(ascending(e) && e.to_set() == s);
    lemma_members_len(members(s));
}

/// A set and the list of its members are equally long.
pub proof fn lemma_members_len(e: Seq<TyVar>)
    requires
        ascending(e),
    ensures
        e.no_duplicates(),
        e.to_set().finite(),
        e.to_set().len() == e.len(),
{
    e.unique_seq_to_set();
}

/// Numbers in decimal, with commas between them.
pub open spec fn listed(e: Seq<TyVar>) -> Seq<char>
    decreases e.len(),
{
    if e.len() == 0 {
        Seq::empty()
    } else if e.len() == 1 {
        digits(e[0] as nat)
    } else {
        listed(e.drop_last()) + ", "@ + digits(e.last() as nat)
    }
}

/// How a set of type variables is written.
pub open spec fn set_text(s: Set<TyVar>) -> Seq<char> {
    "{"@ + listed(members(s)) + "}"@
}

/// Writes a set of type variables at the end of a text.
pub fn push_set(out: &mut String, s: &BTreeSet<TyVar>)
    ensures
        final(out)@ == old(out)@ + set_text(s@),
{
    let e = list_members(s);
    let ghost all = e@;
    out.append("{");
    let ghost head = out@;
    let mut i: usize = 0;
    assert(all.take(0) =~= Seq::<TyVar>::empty());
    assert(out@ =~= head + listed(all.take(0)));
    while i < e.len()
        invariant
            all == e@,
            i <= all.len(),
            out@ == head + listed(all.take(i as int)),
        decreases all.len() - i,
    {
        assert(all.take(i + 1).drop_last() =~= all.take(i as int));
        if i > 0 {
            out.append(", ");
        }
        push_digits(out, e[i] as u64);
        assert(out@ =~= head + listed(all.take(i + 1)));
        i += 1;
    }
    assert(all.take(all.len() as int) =~= all);
    out.append("}");
    assert(out@ =~= old(out)@ + set_text(s@));
}

/// New names for the members of a set: the numbers from `base` on, in the order of the members.
pub open spec fn fresh_names(s: Set<TyVar>, base: TyVar) -> Map<TyVar, TyVar> {
    Map::new(|v: TyVar| s.contains(v), |v: TyVar| (base + members(s).index_of(v)) as TyVar)
}

/// The supply of type variables of an inference.
#[derive(Debug)]
pub struct CollectContext {
    next: TyVar,
}

impl CollectContext {
    /// The first type variable that is not in use.
    pub closed spec fn supply(&self) -> TyVar {
        self.next
    }

    /// A supply from which nothing is taken below `next`.
    pub fn new(next: TyVar) -> (r: Self)
        ensures
            r.supply() == next,
    {
        CollectContext { next }
    }

    /// Takes a new type variable for each of the given ones.
    pub fn dup_tyvars(&mut self, tvs: &BTreeSet<TyVar>) -> (r: BTreeMap<TyVar, TyVar>)
        requires
            old(self).supply() + tvs@.len() <= usize::MAX,
        ensures
            r@ == fresh_names(tvs@, old(self).supply()),
            final(self).supply() == old(self).supply() + tvs@.len(),
    {
        let ghost base = self.next;
        let e = list_members(tvs);
        let ghost all = e@;
        proof {
            lemma_members_len(all);
        }
        let mut m: BTreeMap<TyVar, TyVar> = BTreeMap::new();
        let mut i: usize = 0;
        while i < e.len()
            invariant
                all == e@,
                all.no_duplicates(),
                i <= all.len(),
                base + all.len() <= usize::MAX,
                self.next == base + i,
                forall|v: TyVar| #[trigger] m@.contains_key(v) == all.take(i as int).contains(v),
                forall|j: int| 0 <= j < i ==> m@[#[trigger] all[j]] == base + j,
            decreases all.len() - i,
        {
            let ghost before = m@;
            m.insert(e[i], self.next);
            assert forall|v: TyVar| #[trigger] m@.contains_key(v) == all.take(i + 1).contains(v) by {
                assert(all.take(i + 1) =~= all.take(i as int).push(all[i as int]));
                if all.take(i as int).contains(v) {
                    let j = all.take(i as int).index_of(v);
                    assert(all.take(i + 1)[j] == v);
                }
                assert(all.take(i + 1)[i as int] == all[i as int]);
                if all.take(i + 1).contains(v) && v != all[i as int] {
                    let j = all.take(i + 1).index_of(v);
                    assert(all.take(i as int)[j] == v);
                }
                assert(before.contains_key(v) == all.take(i as int).contains(v));
            }
            self.next = self.next + 1;
            i += 1;
        }
        proof {
            assert(all.take(all.len() as int) =~= all);
            let names = fresh_names(tvs@, base);
            assert forall|v: TyVar| #[trigger] m@.contains_key(v) == names.contains_key(v) && (names.contains_key(v)
                ==> m@[v] == names[v]) by {
                assert(all.contains(v) == all.to_set().contains(v));
                if all.contains(v) {
                    let j = all.index_of(v);
                    assert(all[j] == v);
                }
            }
            assert(m@ =~= names);
        }
        m
    }
}

} // verus!
