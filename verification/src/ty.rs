//! Types and type schemes: their variables, substitution in them, and how they are written.
use crate::names::{names_of, NameMap};
use crate::subst::{FreeVars, Substitutable};
use crate::tyvars::{fresh_names, lemma_push_contains, list_members, CollectContext};
pub use crate::tyvars::TyVar;
use std::collections::BTreeSet;
use vstd::prelude::*;

verus! {

broadcast use vstd::std_specs::btree::group_btree_axioms;

/// The name of a record field or a variant.
pub type Symbol = String;

/// atomic base types
#[derive(Clone, Copy, Debug, PartialEq, Eq, Hash, PartialOrd, Ord)]
pub enum TyLit {
    Unit,
    Bool,
    Int,
    String,
}

/// How often a function uses its argument.
#[derive(Clone, Copy, Debug, PartialEq, Eq)]
pub enum FinalArgMultiplicity {
    /// argument is discarded / erased
    Erased,
    /// argument is used exactly once
    Linear,
    /// unrestricted usage of argument
    Unrestricted,
}

/// A type.
#[derive(PartialEq, Eq)]
pub enum Ty {
    Literal(TyLit),
    Var(TyVar),
    Arrow { arg_multi: FinalArgMultiplicity, arg: Box<Ty>, ret: Box<Ty> },
    /// sender end of channels
    ChanSend(Box<Ty>),
    /// receiver end of channels
    ChanRecv(Box<Ty>),
    Record(NameMap<Symbol, Ty>),
    TaggedUnion(NameMap<Symbol, Ty>),
}

/// What a type is, whatever memory it lives in; the fields of a record and the variants of a union
/// stand in the order of their names.
pub enum TyForm {
    Literal(TyLit),
    Var(TyVar),
    Arrow { arg_multi: FinalArgMultiplicity, arg: Box<TyForm>, ret: Box<TyForm> },
    ChanSend(Box<TyForm>),
    ChanRecv(Box<TyForm>),
    Record(Seq<(Seq<char>, TyForm)>),
    TaggedUnion(Seq<(Seq<char>, TyForm)>),
}

/// What a type is.
pub open spec fn form(t: Ty) -> TyForm
    decreases t,
{
    match t {
        Ty::Literal(lit) => TyForm::Literal(lit),
        Ty::Var(v) => TyForm::Var(v),
        Ty::Arrow { arg_multi, arg, ret } => TyForm::Arrow {
            arg_multi,
            arg: Box::new(form(*arg)),
            ret: Box::new(form(*ret)),
        },
        Ty::ChanSend(x) => TyForm::ChanSend(Box::new(form(*x))),
        Ty::ChanRecv(x) => TyForm::ChanRecv(Box::new(form(*x))),
        Ty::Record(m) => TyForm::Record(forms(m)),
        Ty::TaggedUnion(m) => TyForm::TaggedUnion(forms(m)),
    }
}

/// What the types of a map are, with their names.
pub open spec fn forms(m: NameMap<Symbol, Ty>) -> Seq<(Seq<char>, TyForm)>
    decreases m,
{
    proof {
        m.lemma_values_smaller();
    }
    Seq::new(
        m.spine().len(),
        |i: int|
            if 0 <= i < m.spine().len() {
                (m.spine()[i].0@, form(m.spine()[i].1))
            } else {
                arbitrary()
            },
    )
}

impl View for Ty {
    type V = TyForm;

    open spec fn view(&self) -> TyForm {
        form(*self)
    }
}

/// The variables that occur in a type.
pub open spec fn vars(t: TyForm) -> Set<TyVar>
    decreases t,
{
    match t {
        TyForm::Literal(lit) => Set::empty(),
        TyForm::Var(v) => Set::empty().insert(v),
        TyForm::Arrow { arg_multi, arg, ret } => vars(*arg).union(vars(*ret)),
        TyForm::ChanSend(x) => vars(*x),
        TyForm::ChanRecv(x) => vars(*x),
        TyForm::Record(es) => all_vars(es),
        TyForm::TaggedUnion(es) => all_vars(es),
    }
}

/// The variables that occur in some of the types.
pub open spec fn all_vars(es: Seq<(Seq<char>, TyForm)>) -> Set<TyVar>
    decreases es,
{
    Set::new(|v: TyVar| exists|i: int| 0 <= i < es.len() && vars((#[trigger] es[i]).1).contains(v))
}

/// Variables put into a set, or taken out of it.
pub open spec fn gathered(accu: Set<TyVar>, vs: Set<TyVar>, do_add: bool) -> Set<TyVar> {
    if do_add {
        accu.union(vs)
    } else {
        accu.difference(vs)
    }
}

fn fv_fields(m: &NameMap<Symbol, Ty>, accu: &mut BTreeSet<TyVar>, do_add: bool)
    ensures
        final(accu)@ == gathered(old(accu)@, all_vars(forms(*m)), do_add),
    decreases m,
{
    let ghost before = accu@;
    let ghost es = forms(*m);
    let n: usize = m.len();
    proof {
        m.lemma_values_smaller();
    }
    let mut i: usize = 0;
    assert(accu@ =~= gathered(before, all_vars(es.take(0)), do_add));
    while i < n
        invariant
            n == m.spine().len(),
            i <= n,
            es == forms(*m),
            forall|j: int| 0 <= j < n ==> decreases_to!(m => (#[trigger] m.spine()[j]).1),
            accu@ == gathered(before, all_vars(es.take(i as int)), do_add),
        decreases n - i,
    {
        m.value_at(i).fv(accu, do_add);
        proof {
            let old_vars = all_vars(es.take(i as int));
            let new_vars = all_vars(es.take(i + 1));
            assert(es.take(i + 1) =~= es.take(i as int).push(es[i as int]));
            assert forall|v: TyVar| new_vars.contains(v) == (old_vars.contains(v) || vars(es[i as int].1).contains(
                v,
            )) by {
                if old_vars.contains(v) {
                    let j = choose|j: int|
                        0 <= j < es.take(i as int).len() && vars((#[trigger] es.take(i as int)[j]).1).contains(v);
                    assert(es.take(i + 1)[j] == es.take(i as int)[j]);
                }
                assert(es.take(i + 1)[i as int] == es[i as int]);
                if new_vars.contains(v) {
                    let j = choose|j: int|
                        0 <= j < es.take(i + 1).len() && vars((#[trigger] es.take(i + 1)[j]).1).contains(v);
                    if j < i {
                        assert(es.take(i as int)[j] == es.take(i + 1)[j]);
                    }
                }
            }
            assert(accu@ =~= gathered(before, new_vars, do_add));
        }
        i += 1;
    }
    assert(es.take(n as int) =~= es);
}

impl FreeVars<TyVar> for Ty {
    open spec fn collectable(&self, accu: Set<TyVar>, do_add: bool) -> bool {
        true
    }

    open spec fn collected(&self, accu: Set<TyVar>, do_add: bool) -> Set<TyVar> {
        gathered(accu, vars(self@), do_add)
    }

    fn fv(&self, accu: &mut BTreeSet<TyVar>, do_add: bool)
        decreases self,
    {
        let ghost before = accu@;
        match self {
            Ty::Literal(_) => {},
            Ty::Var(tv) => {
                tv.fv(accu, do_add);
            },
            Ty::Arrow { arg_multi, arg, ret } => {
                arg.fv(accu, do_add);
                ret.fv(accu, do_add);
            },
            Ty::ChanSend(x) => {
                x.fv(accu, do_add);
            },
            Ty::ChanRecv(x) => {
                x.fv(accu, do_add);
            },
            Ty::Record(m) => {
                fv_fields(m, accu, do_add);
            },
            Ty::TaggedUnion(m) => {
                fv_fields(m, accu, do_add);
            },
        }
        assert(accu@ =~= gathered(before, vars(self@), do_add));
    }
}

fn clone_fields(m: &NameMap<Symbol, Ty>) -> (r: NameMap<Symbol, Ty>)
    ensures
        forms(r) == forms(*m),
    decreases m,
{
    let n: usize = m.len();
    proof {
        m.lemma_values_smaller();
    }
    let mut entries: Vec<(Symbol, Ty)> = Vec::new();
    let mut i: usize = 0;
    while i < n
        invariant
            n == m.spine().len(),
            i <= n,
            i == entries@.len(),
            forall|j: int| 0 <= j < n ==> decreases_to!(m => (#[trigger] m.spine()[j]).1),
            forall|j: int|
                0 <= j < i ==> (#[trigger] entries@[j]).0@ == m.spine()[j].0@ && form(entries@[j].1) == form(
                    m.spine()[j].1,
                ),
        decreases n - i,
    {
        entries.push((m.name_at(i).clone(), m.value_at(i).clone()));
        i += 1;
    }
    assert(names_of(entries@) =~= names_of(m.spine()));
    let r = NameMap::from_sorted(entries);
    assert(forms(r) =~= forms(*m));
    r
}

impl Clone for Ty {
    fn clone(&self) -> (r: Self)
        ensures
            r@ == self@,
        decreases self,
    {
        match self {
            Ty::Literal(lit) => Ty::Literal(*lit),
            Ty::Var(v) => Ty::Var(*v),
            Ty::Arrow { arg_multi, arg, ret } => Ty::Arrow {
                arg_multi: *arg_multi,
                arg: Box::new((&**arg).clone()),
                ret: Box::new((&**ret).clone()),
            },
            Ty::ChanSend(x) => Ty::ChanSend(Box::new((&**x).clone())),
            Ty::ChanRecv(x) => Ty::ChanRecv(Box::new((&**x).clone())),
            Ty::Record(m) => Ty::Record(clone_fields(m)),
            Ty::TaggedUnion(m) => Ty::TaggedUnion(clone_fields(m)),
        }
    }
}

/// What can come for a variable.
pub type Given = spec_fn(TyVar, Option<Ty>) -> bool;

/// `b` is `a` with each variable that is not bound replaced by what comes for it, if anything does.
pub open spec fn replaced(a: TyForm, b: TyForm, given: Given, bound: Set<TyVar>) -> bool
    decreases a,
{
    match a {
        TyForm::Literal(lit) => b == a,
        TyForm::Var(v) => if bound.contains(v) {
            b == a
        } else {
            exists|r: Option<Ty>| #[trigger]
                given(v, r) && b == (match r {
                    Some(t) => t@,
                    None => a,
                })
        },
        TyForm::Arrow { arg_multi, arg, ret } => b matches TyForm::Arrow { arg_multi: m, arg: x, ret: y } && m
            == arg_multi && replaced(*arg, *x, given, bound) && replaced(*ret, *y, given, bound),
        TyForm::ChanSend(x) => b matches TyForm::ChanSend(y) && replaced(*x, *y, given, bound),
        TyForm::ChanRecv(x) => b matches TyForm::ChanRecv(y) && replaced(*x, *y, given, bound),
        TyForm::Record(es) => b matches TyForm::Record(fs) && all_replaced(es, fs, given, bound),
        TyForm::TaggedUnion(es) => b matches TyForm::TaggedUnion(fs) && all_replaced(es, fs, given, bound),
    }
}

/// The same names, each with its type replaced.
pub open spec fn all_replaced(
    a: Seq<(Seq<char>, TyForm)>,
    b: Seq<(Seq<char>, TyForm)>,
    given: Given,
    bound: Set<TyVar>,
) -> bool
    decreases a,
{
    &&& a.len() == b.len()
    &&& forall|i: int|
        0 <= i < a.len() ==> (#[trigger] a[i]).0 == b[i].0 && replaced(a[i].1, b[i].1, given, bound)
}

/// What a function can give for a variable.
pub open spec fn gives<F: FnMut(&TyVar) -> Option<Ty>>(f: F) -> Given {
    |v: TyVar, out: Option<Ty>| call_ensures(f, (&v,), out)
}

/// Replaces the variables in the types of a map, in the order of their names.
fn replace_fields<F: FnMut(&TyVar) -> Option<Ty>>(
    m: NameMap<Symbol, Ty>,
    f: &mut F,
    bound: &BTreeSet<TyVar>,
) -> (r: NameMap<Symbol, Ty>)
    requires
        forall|v: &TyVar| call_requires(*old(f), (v,)),
    ensures
        all_replaced(forms(m), forms(r), gives(*old(f)), bound@),
        *final(f) == *old(f),
    decreases m,
{
    let n: usize = m.len();
    let ghost spine = m.spine();
    proof {
        m.lemma_values_smaller();
    }
    let mut rest: Vec<(Symbol, Ty)> = m.into_entries();
    let mut reversed: Vec<(Symbol, Ty)> = Vec::new();
    while rest.len() > 0
        invariant
            n == spine.len(),
            rest@.len() + reversed@.len() == n,
            rest@ == spine.take(rest@.len() as int),
            forall|j: int| 0 <= j < reversed@.len() ==> #[trigger] reversed@[j] == spine[n - 1 - j],
        decreases rest@.len(),
    {
        match rest.pop() {
            Some(e) => {
                assert(rest@ =~= spine.take(rest@.len() as int));
                reversed.push(e);
            },
            None => {},
        }
    }
    let mut entries: Vec<(Symbol, Ty)> = Vec::new();
    while reversed.len() > 0
        invariant
            n == spine.len(),
            spine == m.spine(),
            *f == *old(f),
            forall|v: &TyVar| call_requires(*f, (v,)),
            forall|j: int| 0 <= j < n ==> decreases_to!(m => (#[trigger] spine[j]).1),
            entries@.len() + reversed@.len() == n,
            forall|j: int| 0 <= j < reversed@.len() ==> #[trigger] reversed@[j] == spine[n - 1 - j],
            forall|j: int|
                0 <= j < entries@.len() ==> (#[trigger] entries@[j]).0@ == spine[j].0@ && replaced(
                    form(spine[j].1),
                    form(entries@[j].1),
                    gives(*f),
                    bound@,
                ),
        decreases reversed@.len(),
    {
        let ghost at = entries@.len() as int;
        assert(reversed@[reversed@.len() - 1] == spine[at]);
        match reversed.pop() {
            Some((name, t)) => {
                assert(decreases_to!(m => spine[at].1));
                entries.push((name, replace(t, f, bound)));
            },
            None => {},
        }
    }
    assert(names_of(entries@) =~= names_of(spine));
    NameMap::from_sorted(entries)
}

/// Replaces the variables in a type, from left to right. The function is called for the bound ones
/// too, and what it gives for them is dropped.
fn replace<F: FnMut(&TyVar) -> Option<Ty>>(t: Ty, f: &mut F, bound: &BTreeSet<TyVar>) -> (r: Ty)
    requires
        forall|v: &TyVar| call_requires(*old(f), (v,)),
    ensures
        replaced(t@, r@, gives(*old(f)), bound@),
        *final(f) == *old(f),
    decreases t,
{
    match t {
        Ty::Literal(lit) => Ty::Literal(lit),
        Ty::Var(v) => {
            let out = f(&v);
            assert(gives(*old(f))(v, out));
            match out {
                Some(x) if !bound.contains(&v) => x,
                _ => Ty::Var(v),
            }
        },
        Ty::Arrow { arg_multi, arg, ret } => {
            let arg = Box::new(replace(*arg, f, bound));
            let ret = Box::new(replace(*ret, f, bound));
            Ty::Arrow { arg_multi, arg, ret }
        },
        Ty::ChanSend(x) => Ty::ChanSend(Box::new(replace(*x, f, bound))),
        Ty::ChanRecv(x) => Ty::ChanRecv(Box::new(replace(*x, f, bound))),
        Ty::Record(m) => Ty::Record(replace_fields(m, f, bound)),
        Ty::TaggedUnion(m) => Ty::TaggedUnion(replace_fields(m, f, bound)),
    }
}

impl Substitutable<TyVar> for Ty {
    type Out = Ty;

    open spec fn applied(before: Self, after: Self, given: Given) -> bool {
        replaced(before@, after@, given, Set::empty())
    }

    fn apply<F: FnMut(&TyVar) -> Option<Ty>>(&mut self, f: &mut F) {
        let mut t = Ty::Literal(TyLit::Unit);
        std::mem::swap(&mut t, self);
        let bound: BTreeSet<TyVar> = BTreeSet::new();
        *self = replace(t, f, &bound);
    }
}

/// A type scheme: a type that stands for all those that its bound variables can be replaced to.
pub struct Scheme {
    pub forall: BTreeSet<TyVar>,
    pub ty: Ty,
}

impl Clone for Scheme {
    fn clone(&self) -> (r: Self)
        ensures
            r.forall@ == self.forall@,
            r.ty@ == self.ty@,
    {
        Scheme { forall: self.forall.clone(), ty: self.ty.clone() }
    }
}

impl FreeVars<TyVar> for Scheme {
    /// To add the free variables, the set may hold none of the bound ones.
    open spec fn collectable(&self, accu: Set<TyVar>, do_add: bool) -> bool {
        do_add ==> self.forall@.disjoint(accu)
    }

    /// Adding leaves the bound variables out; taking out takes all that occur.
    open spec fn collected(&self, accu: Set<TyVar>, do_add: bool) -> Set<TyVar> {
        if do_add {
            gathered(accu, vars(self.ty@), true).difference(self.forall@)
        } else {
            gathered(accu, vars(self.ty@), false)
        }
    }

    fn fv(&self, accu: &mut BTreeSet<TyVar>, do_add: bool) {
        self.ty.fv(accu, do_add);
        if do_add {
            let ghost all = accu@;
            let bound = list_members(&self.forall);
            let mut i: usize = 0;
            assert(accu@ =~= all.difference(bound@.take(0).to_set()));
            while i < bound.len()
                invariant
                    i <= bound@.len(),
                    accu@ == all.difference(bound@.take(i as int).to_set()),
                decreases bound@.len() - i,
            {
                let v: TyVar = bound[i];
                accu.remove(&v);
                proof {
                    assert(bound@.take(i + 1) =~= bound@.take(i as int).push(v));
                    lemma_push_contains(bound@.take(i as int), v);
                    assert forall|x: TyVar| accu@.contains(x) == all.difference(
                        bound@.take(i + 1).to_set(),
                    ).contains(x) by {
                        assert(bound@.take(i as int).push(v).contains(x) == bound@.take(i + 1).to_set().contains(x));
                    }
                    assert(accu@ =~= all.difference(bound@.take(i + 1).to_set()));
                }
                i += 1;
            }
            assert(bound@.take(bound@.len() as int) =~= bound@);
            assert(accu@ =~= all.difference(self.forall@));
        }
    }
}

impl Substitutable<TyVar> for Scheme {
    type Out = Ty;

    /// The bound variables stay, and stay bound.
    open spec fn applied(before: Self, after: Self, given: Given) -> bool {
        &&& after.forall@ == before.forall@
        &&& replaced(before.ty@, after.ty@, given, before.forall@)
    }

    fn apply<F: FnMut(&TyVar) -> Option<Ty>>(&mut self, f: &mut F) {
        let mut t = Ty::Literal(TyLit::Unit);
        std::mem::swap(&mut t, &mut self.ty);
        self.ty = replace(t, f, &self.forall);
    }
}

/// A type with its variables renamed.
pub open spec fn renamed(t: TyForm, names: Map<TyVar, TyVar>) -> TyForm
    decreases t,
{
    match t {
        TyForm::Literal(lit) => t,
        TyForm::Var(v) => if names.contains_key(v) {
            TyForm::Var(names[v])
        } else {
            t
        },
        TyForm::Arrow { arg_multi, arg, ret } => TyForm::Arrow {
            arg_multi,
            arg: Box::new(renamed(*arg, names)),
            ret: Box::new(renamed(*ret, names)),
        },
        TyForm::ChanSend(x) => TyForm::ChanSend(Box::new(renamed(*x, names))),
        TyForm::ChanRecv(x) => TyForm::ChanRecv(Box::new(renamed(*x, names))),
        TyForm::Record(es) => TyForm::Record(all_renamed(es, names)),
        TyForm::TaggedUnion(es) => TyForm::TaggedUnion(all_renamed(es, names)),
    }
}

/// The same names, each with the variables of its type renamed.
pub open spec fn all_renamed(es: Seq<(Seq<char>, TyForm)>, names: Map<TyVar, TyVar>) -> Seq<(Seq<char>, TyForm)>
    decreases es,
{
    Seq::new(
        es.len(),
        |i: int|
            if 0 <= i < es.len() {
                (es[i].0, renamed(es[i].1, names))
            } else {
                arbitrary()
            },
    )
}

/// A substitution of variables for variables renames.
proof fn lemma_replaced_renamed(a: TyForm, b: TyForm, given: Given, names: Map<TyVar, TyVar>)
    requires
        replaced(a, b, given, Set::empty()),
        forall|v: TyVar, out: Option<Ty>| #[trigger]
            given(v, out) ==> (if names.contains_key(v) {
                out matches Some(t) && t@ == TyForm::Var(names[v])
            } else {
                out is None
            }),
    ensures
        b == renamed(a, names),
    decreases a,
{
    match a {
        TyForm::Literal(lit) => {},
        TyForm::Var(v) => {
            let r = choose|r: Option<Ty>| #[trigger]
                given(v, r) && b == (match r {
                    Some(t) => t@,
                    None => a,
                });
            assert(given(v, r));
        },
        TyForm::Arrow { arg_multi, arg, ret } => {
            lemma_replaced_renamed(*arg, *b->arg, given, names);
            lemma_replaced_renamed(*ret, *b->ret, given, names);
        },
        TyForm::ChanSend(x) => {
            lemma_replaced_renamed(*x, *b->ChanSend_0, given, names);
        },
        TyForm::ChanRecv(x) => {
            lemma_replaced_renamed(*x, *b->ChanRecv_0, given, names);
        },
        TyForm::Record(es) => {
            lemma_all_replaced_renamed(es, b->Record_0, given, names);
        },
        TyForm::TaggedUnion(es) => {
            lemma_all_replaced_renamed(es, b->TaggedUnion_0, given, names);
        },
    }
}

proof fn lemma_all_replaced_renamed(
    a: Seq<(Seq<char>, TyForm)>,
    b: Seq<(Seq<char>, TyForm)>,
    given: Given,
    names: Map<TyVar, TyVar>,
)
    requires
        all_replaced(a, b, given, Set::empty()),
        forall|v: TyVar, out: Option<Ty>| #[trigger]
            given(v, out) ==> (if names.contains_key(v) {
                out matches Some(t) && t@ == TyForm::Var(names[v])
            } else {
                out is None
            }),
    ensures
        b == all_renamed(a, names),
    decreases a,
{
    assert forall|i: int| 0 <= i < a.len() implies #[trigger] b[i] == all_renamed(a, names)[i] by {
        assert(a[i].0 == b[i].0);
        lemma_replaced_renamed(a[i].1, b[i].1, given, names);
    }
    assert(b =~= all_renamed(a, names));
}

/// The numbers of a range.
pub open spec fn range_set(start: TyVar, end: TyVar) -> Set<TyVar> {
    Set::new(|v: TyVar| start <= v < end)
}

impl Ty {
    /// compute the type scheme
    /// by recording all inner type variables
    pub fn generalize<E: FreeVars<TyVar>>(self, depenv: &E, rng: core::ops::Range<TyVar>) -> (r: Scheme)
        requires
            depenv.collectable(range_set(rng.start, rng.end).union(vars(self@)), false),
        ensures
            r.forall@ == depenv.collected(range_set(rng.start, rng.end).union(vars(self@)), false),
            r.ty == self,
    {
        let mut bound: BTreeSet<TyVar> = BTreeSet::new();
        let mut v: TyVar = rng.start;
        while v < rng.end
            invariant
                rng.start <= v,
                v <= rng.end || v == rng.start,
                forall|x: TyVar| bound@.contains(x) == (rng.start <= x < v),
            decreases rng.end - v,
        {
            bound.insert(v);
            v += 1;
        }
        assert(bound@ =~= range_set(rng.start, rng.end));
        self.fv(&mut bound, true);
        depenv.fv(&mut bound, false);
        Scheme { forall: bound, ty: self }
    }
}

impl Scheme {
    /// Takes new variables for the bound ones and puts them into the type.
    pub fn instantiate(&self, outerctx: &mut CollectContext) -> (r: Ty)
        requires
            old(outerctx).supply() + self.forall@.len() <= usize::MAX,
        ensures
            r@ == renamed(self.ty@, fresh_names(self.forall@, old(outerctx).supply())),
            final(outerctx).supply() == old(outerctx).supply() + self.forall@.len(),
    {
        let mut t2 = self.ty.clone();
        let m = outerctx.dup_tyvars(&self.forall);
        let mut rename = |v: &TyVar| -> (out: Option<Ty>)
            ensures
                (if m@.contains_key(*v) {
                    out matches Some(t) && t@ == TyForm::Var(m@[*v])
                } else {
                    out is None
                }),
            {
                match m.get(v) {
                    Some(j) => Some(Ty::Var(*j)),
                    None => None,
                }
            };
        let ghost given = gives(rename);
        t2.apply(&mut rename);
        proof {
            lemma_replaced_renamed(self.ty@, t2@, given, m@);
        }
        t2
    }
}

} // verus!
