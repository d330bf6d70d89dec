//! What has free variables, and what variables can be substituted in.
use crate::tyvars::TyVar;
use std::collections::BTreeSet;
use vstd::prelude::*;

verus! {

broadcast use vstd::std_specs::btree::group_btree_axioms;

/// Things whose free variables can be put into a set, or taken out of it.
pub trait FreeVars<V> {
    /// What the set has to be like.
    spec fn collectable(&self, accu: Set<V>, do_add: bool) -> bool;

    /// What the set is like afterwards.
    spec fn collected(&self, accu: Set<V>, do_add: bool) -> Set<V>;

    /// Puts the free variables into the set, or takes them out.
    fn fv(&self, accu: &mut BTreeSet<V>, do_add: bool)
        requires
            self.collectable(old(accu)@, do_add),
        ensures
            final(accu)@ == self.collected(old(accu)@, do_add),
    ;
}

/// Things in which a substitution can be made for variables.
pub trait Substitutable<V>: Sized {
    /// What stands for a variable.
    type Out;

    /// What becomes of the thing, where `given` says what can come for which variable.
    spec fn applied(before: Self, after: Self, given: spec_fn(V, Option<Self::Out>) -> bool) -> bool;

    /// Substitutes what the function gives for the variables.
    fn apply<F: FnMut(&V) -> Option<Self::Out>>(&mut self, f: &mut F)
        requires
            forall|v: &V| call_requires(*old(f), (v,)),
        ensures
            Self::applied(
                *old(self),
                *final(self),
                |v: V, out: Option<Self::Out>| call_ensures(*old(f), (&v,), out),
            ),
    ;
}

impl FreeVars<TyVar> for TyVar {
    open spec fn collectable(&self, accu: Set<TyVar>, do_add: bool) -> bool {
        true
    }

    open spec fn collected(&self, accu: Set<TyVar>, do_add: bool) -> Set<TyVar> {
        if do_add {
            accu.insert(*self)
        } else {
            accu.remove(*self)
        }
    }

    fn fv(&self, accu: &mut BTreeSet<TyVar>, do_add: bool) {
        if do_add {
            accu.insert(*self);
        } else {
            accu.remove(self);
        }
    }
}

} // verus!
