//! Laws of the variables of types, of substitution, and of schemes and their instances.
use crate::subst::FreeVars;
use crate::ty::{
    all_renamed, all_replaced, all_vars, gathered, range_set, renamed, replaced, vars, Given, Scheme, Ty, TyForm,
};
use crate::tyvars::{fresh_names, lemma_members, members, TyVar};
use vstd::prelude::*;

verus! {

/// Taking the variables of a type out of a set undoes what putting them in did, save that those which
/// were there before are gone too.
pub proof fn law_taking_out_undoes_putting_in(t: Ty, accu: Set<TyVar>)
    ensures
        t.collected(t.collected(accu, true), false) == t.collected(accu, false),
        t.collected(accu, false).disjoint(vars(t@)),
        vars(t@).subset_of(t.collected(accu, true)),
{
    assert(gathered(gathered(accu, vars(t@), true), vars(t@), false) =~= gathered(accu, vars(t@), false));
}

/// What is bound in a generalized type: the variables of the type and the numbers of the range, save
/// those that are among the variables of the environment.
pub proof fn law_generalizing_leaves_the_environment_alone(t: Ty, env: Ty, start: TyVar, end: TyVar, v: TyVar)
    ensures
        env.collected(range_set(start, end).union(vars(t@)), false).contains(v) <==> ((start <= v < end || vars(
            t@,
        ).contains(v)) && !vars(env@).contains(v)),
{
}

/// The variables that are free in a scheme are those that occur in its type and are not bound; they
/// are what is added to a set, and nothing leaves it.
pub proof fn law_bound_variables_are_not_free(s: Scheme, accu: Set<TyVar>, v: TyVar)
    requires
        s.collectable(accu, true),
    ensures
        s.collected(accu, true).contains(v) <==> accu.contains(v) || (vars(s.ty@).contains(v) && !s.forall@.contains(
            v,
        )),
{
}

/// A substitution that gives nothing for the variables that are free in a type leaves the type as it
/// is, whatever it gives for the bound ones.
pub proof fn law_nothing_given_nothing_changed(a: TyForm, b: TyForm, given: Given, bound: Set<TyVar>)
    requires
        replaced(a, b, given, bound),
        forall|v: TyVar, out: Option<Ty>|
            vars(a).contains(v) && !bound.contains(v) && #[trigger] given(v, out) ==> out is None,
    ensures
        a == b,
    decreases a,
{
    match a {
        TyForm::Literal(lit) => {},
        TyForm::Var(v) => {
            assert(vars(a).contains(v));
        },
        TyForm::Arrow { arg_multi, arg, ret } => {
            law_nothing_given_nothing_changed(*arg, *b->arg, given, bound);
            law_nothing_given_nothing_changed(*ret, *b->ret, given, bound);
        },
        TyForm::ChanSend(x) => {
            law_nothing_given_nothing_changed(*x, *b->ChanSend_0, given, bound);
        },
        TyForm::ChanRecv(x) => {
            law_nothing_given_nothing_changed(*x, *b->ChanRecv_0, given, bound);
        },
        TyForm::Record(es) => {
            lemma_nothing_given_all(es, b->Record_0, given, bound);
        },
        TyForm::TaggedUnion(es) => {
            lemma_nothing_given_all(es, b->TaggedUnion_0, given, bound);
        },
    }
}

proof fn lemma_nothing_given_all(
    a: Seq<(Seq<char>, TyForm)>,
    b: Seq<(Seq<char>, TyForm)>,
    given: Given,
    bound: Set<TyVar>,
)
    requires
        all_replaced(a, b, given, bound),
        forall|v: TyVar, out: Option<Ty>|
            all_vars(a).contains(v) && !bound.contains(v) && #[trigger] given(v, out) ==> out is None,
    ensures
        a == b,
    decreases a,
{
    assert forall|i: int| 0 <= i < a.len() implies #[trigger] a[i] == b[i] by {
        lemma_vars_among(a, i);
        law_nothing_given_nothing_changed(a[i].1, b[i].1, given, bound);
    }
    assert(a =~= b);
}

/// The variables of each type are among those of all.
proof fn lemma_vars_among(es: Seq<(Seq<char>, TyForm)>, i: int)
    requires
        0 <= i < es.len(),
    ensures
        vars(es[i].1).subset_of(all_vars(es)),
{
    assert forall|v: TyVar| vars(es[i].1).contains(v) implies all_vars(es).contains(v) by {
        assert(vars(es[i].1).contains(v));
    }
}

/// A variable comes into a substituted type in one of two ways.
pub open spec fn comes_from(v: TyVar, w: TyVar, given: Given, bound: Set<TyVar>) -> bool {
    ||| v == w && (bound.contains(w) || given(w, None))
    ||| !bound.contains(w) && exists|t: Ty| #[trigger] given(w, Some(t)) && vars(t@).contains(v)
}

/// Where the variables of a substituted type come from: each was there before and is bound or had
/// nothing given for it, or it is in what was given for one that is free.
pub proof fn law_substituted_variables(a: TyForm, b: TyForm, given: Given, bound: Set<TyVar>, v: TyVar)
    requires
        replaced(a, b, given, bound),
        vars(b).contains(v),
    ensures
        exists|w: TyVar| vars(a).contains(w) && #[trigger] comes_from(v, w, given, bound),
    decreases a,
{
    match a {
        TyForm::Literal(lit) => {},
        TyForm::Var(w) => {
            assert(vars(a).contains(w));
            assert(comes_from(v, w, given, bound));
        },
        TyForm::Arrow { arg_multi, arg, ret } => {
            if vars(*b->arg).contains(v) {
                law_substituted_variables(*arg, *b->arg, given, bound, v);
            } else {
                law_substituted_variables(*ret, *b->ret, given, bound, v);
            }
        },
        TyForm::ChanSend(x) => {
            law_substituted_variables(*x, *b->ChanSend_0, given, bound, v);
        },
        TyForm::ChanRecv(x) => {
            law_substituted_variables(*x, *b->ChanRecv_0, given, bound, v);
        },
        TyForm::Record(es) => {
            lemma_substituted_all(es, b->Record_0, given, bound, v);
        },
        TyForm::TaggedUnion(es) => {
            lemma_substituted_all(es, b->TaggedUnion_0, given, bound, v);
        },
    }
}

proof fn lemma_substituted_all(
    a: Seq<(Seq<char>, TyForm)>,
    b: Seq<(Seq<char>, TyForm)>,
    given: Given,
    bound: Set<TyVar>,
    v: TyVar,
)
    requires
        all_replaced(a, b, given, bound),
        all_vars(b).contains(v),
    ensures
        exists|w: TyVar| all_vars(a).contains(w) && #[trigger] comes_from(v, w, given, bound),
    decreases a,
{
    let i = choose|i: int| 0 <= i < b.len() && vars((#[trigger] b[i]).1).contains(v);
    assert(a[i].0 == b[i].0);
    law_substituted_variables(a[i].1, b[i].1, given, bound, v);
    let w = choose|w: TyVar| vars(a[i].1).contains(w) && #[trigger] comes_from(v, w, given, bound);
    lemma_vars_among(a, i);
    assert(all_vars(a).contains(w) && comes_from(v, w, given, bound));
}

/// For each variable only one thing can be given.
pub open spec fn single(given: Given) -> bool {
    forall|v: TyVar, x: Option<Ty>, y: Option<Ty>| #[trigger]
        given(v, x) && #[trigger] given(v, y) ==> put(v, x) == put(v, y) && (x is Some) == (y is Some)
}

/// What stands for a variable once something, or nothing, was given for it.
pub open spec fn put(v: TyVar, given: Option<Ty>) -> TyForm {
    match given {
        Some(t) => t@,
        None => TyForm::Var(v),
    }
}

/// All that can come into a substituted type does come into it: what is in what was given for a free
/// variable, and the variables that are bound or had nothing given for them.
pub proof fn law_substituted_variables_all_come(
    a: TyForm,
    b: TyForm,
    given: Given,
    bound: Set<TyVar>,
    w: TyVar,
    v: TyVar,
)
    requires
        replaced(a, b, given, bound),
        single(given),
        vars(a).contains(w),
        comes_from(v, w, given, bound),
    ensures
        vars(b).contains(v),
    decreases a,
{
    match a {
        TyForm::Literal(lit) => {},
        TyForm::Var(u) => {
            if !bound.contains(w) {
                let r = choose|r: Option<Ty>| #[trigger]
                    given(u, r) && b == (match r {
                        Some(t) => t@,
                        None => a,
                    });
                assert(given(w, r) && b == put(w, r));
                if exists|t: Ty| #[trigger] given(w, Some(t)) && vars(t@).contains(v) {
                    let t = choose|t: Ty| #[trigger] given(w, Some(t)) && vars(t@).contains(v);
                    assert(put(w, Some(t)) == put(w, r));
                } else {
                    assert(given(w, None));
                    assert(put(w, None) == put(w, r));
                }
            }
        },
        TyForm::Arrow { arg_multi, arg, ret } => {
            if vars(*arg).contains(w) {
                law_substituted_variables_all_come(*arg, *b->arg, given, bound, w, v);
            } else {
                law_substituted_variables_all_come(*ret, *b->ret, given, bound, w, v);
            }
        },
        TyForm::ChanSend(x) => {
            law_substituted_variables_all_come(*x, *b->ChanSend_0, given, bound, w, v);
        },
        TyForm::ChanRecv(x) => {
            law_substituted_variables_all_come(*x, *b->ChanRecv_0, given, bound, w, v);
        },
        TyForm::Record(es) => {
            lemma_substituted_all_come(es, b->Record_0, given, bound, w, v);
        },
        TyForm::TaggedUnion(es) => {
            lemma_substituted_all_come(es, b->TaggedUnion_0, given, bound, w, v);
        },
    }
}

proof fn lemma_substituted_all_come(
    a: Seq<(Seq<char>, TyForm)>,
    b: Seq<(Seq<char>, TyForm)>,
    given: Given,
    bound: Set<TyVar>,
    w: TyVar,
    v: TyVar,
)
    requires
        all_replaced(a, b, given, bound),
        single(given),
        all_vars(a).contains(w),
        comes_from(v, w, given, bound),
    ensures
        all_vars(b).contains(v),
    decreases a,
{
    let i = choose|i: int| 0 <= i < a.len() && vars((#[trigger] a[i]).1).contains(w);
    assert(a[i].0 == b[i].0);
    law_substituted_variables_all_come(a[i].1, b[i].1, given, bound, w, v);
    lemma_vars_among(b, i);
}

/// Two substitutions in turn are one: the one that gives for each variable what the second makes of
/// what the first gives for it.
pub proof fn law_substitutions_compose(
    a: TyForm,
    b: TyForm,
    c: TyForm,
    d: TyForm,
    first: Given,
    second: Given,
    both: Given,
    bound: Set<TyVar>,
)
    requires
        replaced(a, b, first, bound),
        replaced(b, c, second, bound),
        replaced(a, d, both, bound),
        single(second),
        forall|v: TyVar, x: Option<Ty>, y: Option<Ty>|
            !bound.contains(v) && #[trigger] first(v, x) && #[trigger] both(v, y) ==> replaced(
                put(v, x),
                put(v, y),
                second,
                bound,
            ),
    ensures
        c == d,
    decreases a,
{
    match a {
        TyForm::Literal(lit) => {},
        TyForm::Var(v) => {
            if !bound.contains(v) {
                let x = choose|x: Option<Ty>| #[trigger]
                    first(v, x) && b == (match x {
                        Some(t) => t@,
                        None => a,
                    });
                let y = choose|y: Option<Ty>| #[trigger]
                    both(v, y) && d == (match y {
                        Some(t) => t@,
                        None => a,
                    });
                assert(first(v, x) && both(v, y));
                assert(b == put(v, x) && d == put(v, y));
                law_substitution_is_determined(b, c, d, second, bound);
            }
        },
        TyForm::Arrow { arg_multi, arg, ret } => {
            law_substitutions_compose(*arg, *b->arg, *c->arg, *d->arg, first, second, both, bound);
            law_substitutions_compose(*ret, *b->ret, *c->ret, *d->ret, first, second, both, bound);
        },
        TyForm::ChanSend(x) => {
            law_substitutions_compose(
                *x,
                *b->ChanSend_0,
                *c->ChanSend_0,
                *d->ChanSend_0,
                first,
                second,
                both,
                bound,
            );
        },
        TyForm::ChanRecv(x) => {
            law_substitutions_compose(
                *x,
                *b->ChanRecv_0,
                *c->ChanRecv_0,
                *d->ChanRecv_0,
                first,
                second,
                both,
                bound,
            );
        },
        TyForm::Record(es) => {
            lemma_all_compose(es, b->Record_0, c->Record_0, d->Record_0, first, second, both, bound);
        },
        TyForm::TaggedUnion(es) => {
            lemma_all_compose(
                es,
                b->TaggedUnion_0,
                c->TaggedUnion_0,
                d->TaggedUnion_0,
                first,
                second,
                both,
                bound,
            );
        },
    }
}

proof fn lemma_all_compose(
    a: Seq<(Seq<char>, TyForm)>,
    b: Seq<(Seq<char>, TyForm)>,
    c: Seq<(Seq<char>, TyForm)>,
    d: Seq<(Seq<char>, TyForm)>,
    first: Given,
    second: Given,
    both: Given,
    bound: Set<TyVar>,
)
    requires
        all_replaced(a, b, first, bound),
        all_replaced(b, c, second, bound),
        all_replaced(a, d, both, bound),
        single(second),
        forall|v: TyVar, x: Option<Ty>, y: Option<Ty>|
            !bound.contains(v) && #[trigger] first(v, x) && #[trigger] both(v, y) ==> replaced(
                put(v, x),
                put(v, y),
                second,
                bound,
            ),
    ensures
        c == d,
    decreases a,
{
    assert forall|i: int| 0 <= i < c.len() implies #[trigger] c[i] == d[i] by {
        assert(a[i].0 == b[i].0);
        assert(b[i].0 == c[i].0);
        law_substitutions_compose(a[i].1, b[i].1, c[i].1, d[i].1, first, second, both, bound);
    }
    assert(c =~= d);
}

/// A substitution that can give only one thing for each variable has only one result.
pub proof fn law_substitution_is_determined(a: TyForm, b: TyForm, c: TyForm, given: Given, bound: Set<TyVar>)
    requires
        replaced(a, b, given, bound),
        replaced(a, c, given, bound),
        single(given),
    ensures
        b == c,
    decreases a,
{
    match a {
        TyForm::Literal(lit) => {},
        TyForm::Var(v) => {},
        TyForm::Arrow { arg_multi, arg, ret } => {
            law_substitution_is_determined(*arg, *b->arg, *c->arg, given, bound);
            law_substitution_is_determined(*ret, *b->ret, *c->ret, given, bound);
        },
        TyForm::ChanSend(x) => {
            law_substitution_is_determined(*x, *b->ChanSend_0, *c->ChanSend_0, given, bound);
        },
        TyForm::ChanRecv(x) => {
            law_substitution_is_determined(*x, *b->ChanRecv_0, *c->ChanRecv_0, given, bound);
        },
        TyForm::Record(es) => {
            lemma_determined_all(es, b->Record_0, c->Record_0, given, bound);
        },
        TyForm::TaggedUnion(es) => {
            lemma_determined_all(es, b->TaggedUnion_0, c->TaggedUnion_0, given, bound);
        },
    }
}

proof fn lemma_determined_all(
    a: Seq<(Seq<char>, TyForm)>,
    b: Seq<(Seq<char>, TyForm)>,
    c: Seq<(Seq<char>, TyForm)>,
    given: Given,
    bound: Set<TyVar>,
)
    requires
        all_replaced(a, b, given, bound),
        all_replaced(a, c, given, bound),
        single(given),
    ensures
        b == c,
    decreases a,
{
    assert forall|i: int| 0 <= i < b.len() implies #[trigger] b[i] == c[i] by {
        assert(a[i].0 == b[i].0);
        law_substitution_is_determined(a[i].1, b[i].1, c[i].1, given, bound);
    }
    assert(b =~= c);
}

/// What a renaming makes of a variable.
pub open spec fn new_name(names: Map<TyVar, TyVar>, v: TyVar) -> TyVar {
    if names.contains_key(v) {
        names[v]
    } else {
        v
    }
}

/// The variables of a renamed type are those of the type, renamed.
pub proof fn law_renamed_variables(t: TyForm, names: Map<TyVar, TyVar>, v: TyVar)
    ensures
        vars(renamed(t, names)).contains(v) <==> exists|w: TyVar|
            vars(t).contains(w) && #[trigger] new_name(names, w) == v,
    decreases t,
{
    match t {
        TyForm::Literal(lit) => {},
        TyForm::Var(w) => {
            assert(vars(t).contains(w));
            assert(vars(renamed(t, names)).contains(v) <==> new_name(names, w) == v);
        },
        TyForm::Arrow { arg_multi, arg, ret } => {
            law_renamed_variables(*arg, names, v);
            law_renamed_variables(*ret, names, v);
        },
        TyForm::ChanSend(x) => {
            law_renamed_variables(*x, names, v);
        },
        TyForm::ChanRecv(x) => {
            law_renamed_variables(*x, names, v);
        },
        TyForm::Record(es) => {
            lemma_renamed_all(es, names, v);
        },
        TyForm::TaggedUnion(es) => {
            lemma_renamed_all(es, names, v);
        },
    }
}

proof fn lemma_renamed_all(es: Seq<(Seq<char>, TyForm)>, names: Map<TyVar, TyVar>, v: TyVar)
    ensures
        all_vars(all_renamed(es, names)).contains(v) <==> exists|w: TyVar|
            all_vars(es).contains(w) && #[trigger] new_name(names, w) == v,
    decreases es,
{
    let fs = all_renamed(es, names);
    if all_vars(fs).contains(v) {
        let i = choose|i: int| 0 <= i < fs.len() && vars((#[trigger] fs[i]).1).contains(v);
        law_renamed_variables(es[i].1, names, v);
        let w = choose|w: TyVar| vars(es[i].1).contains(w) && #[trigger] new_name(names, w) == v;
        lemma_vars_among(es, i);
        assert(all_vars(es).contains(w) && new_name(names, w) == v);
    }
    if exists|w: TyVar| all_vars(es).contains(w) && #[trigger] new_name(names, w) == v {
        let w = choose|w: TyVar| all_vars(es).contains(w) && #[trigger] new_name(names, w) == v;
        let i = choose|i: int| 0 <= i < es.len() && vars((#[trigger] es[i]).1).contains(w);
        law_renamed_variables(es[i].1, names, v);
        assert(vars(es[i].1).contains(w) && new_name(names, w) == v);
        assert(vars(fs[i].1).contains(v));
    }
}

/// The new names of the members of a set are as many different numbers, from the supply on.
pub proof fn law_new_names_are_new_and_different(s: Set<TyVar>, base: TyVar, v: TyVar, w: TyVar)
    requires
        s.finite(),
        base + s.len() <= usize::MAX,
        s.contains(v),
        s.contains(w),
    ensures
        base <= fresh_names(s, base)[v] < base + s.len(),
        fresh_names(s, base)[v] == fresh_names(s, base)[w] ==> v == w,
{
    lemma_members(s);
    let e = members(s);
    assert(e.to_set().contains(v));
    assert(e.to_set().contains(w));
    assert(e.contains(v) && e.contains(w));
    assert(e[e.index_of(v)] == v);
    assert(e[e.index_of(w)] == w);
}

/// The variables of an instance of a scheme: those of the type that are not bound, and new ones, all
/// of which the supply had not given out before.
pub proof fn law_instance_variables(s: Scheme, base: TyVar, v: TyVar)
    requires
        s.forall@.finite(),
        base + s.forall@.len() <= usize::MAX,
        vars(renamed(s.ty@, fresh_names(s.forall@, base))).contains(v),
    ensures
        (vars(s.ty@).contains(v) && !s.forall@.contains(v)) || base <= v < base + s.forall@.len(),
{
    let names = fresh_names(s.forall@, base);
    law_renamed_variables(s.ty@, names, v);
    let w = choose|w: TyVar| vars(s.ty@).contains(w) && #[trigger] new_name(names, w) == v;
    if s.forall@.contains(w) {
        law_new_names_are_new_and_different(s.forall@, base, w, w);
    }
}

/// Two instances that are made one after the other share no variables but those that are free in
/// their schemes: where all those of the types lie below the supply, the new ones of the second are
/// not in the first.
pub proof fn law_instances_are_independent(s: Scheme, t: Scheme, base: TyVar, v: TyVar)
    requires
        s.forall@.finite(),
        t.forall@.finite(),
        base + s.forall@.len() + t.forall@.len() <= usize::MAX,
        forall|w: TyVar| vars(s.ty@).contains(w) ==> w < base,
        forall|w: TyVar| vars(t.ty@).contains(w) ==> w < base,
        vars(renamed(s.ty@, fresh_names(s.forall@, base))).contains(v),
        vars(renamed(t.ty@, fresh_names(t.forall@, (base + s.forall@.len()) as TyVar))).contains(v),
    ensures
        vars(s.ty@).contains(v) && !s.forall@.contains(v),
        vars(t.ty@).contains(v) && !t.forall@.contains(v),
{
    law_instance_variables(s, base, v);
    law_instance_variables(t, (base + s.forall@.len()) as TyVar, v);
}

/// A scheme that binds nothing has its type as its only instance.
pub proof fn law_nothing_bound_one_instance(s: Scheme, base: TyVar)
    requires
        s.forall@ == Set::<TyVar>::empty(),
    ensures
        renamed(s.ty@, fresh_names(s.forall@, base)) == s.ty@,
{
    lemma_renamed_elsewhere(s.ty@, fresh_names(s.forall@, base));
}

/// A renaming that has no name for the variables of a type leaves the type as it is.
proof fn lemma_renamed_elsewhere(t: TyForm, names: Map<TyVar, TyVar>)
    requires
        forall|v: TyVar| #[trigger] vars(t).contains(v) ==> !names.contains_key(v),
    ensures
        renamed(t, names) == t,
    decreases t,
{
    match t {
        TyForm::Literal(lit) => {},
        TyForm::Var(v) => {
            assert(vars(t).contains(v));
        },
        TyForm::Arrow { arg_multi, arg, ret } => {
            assert forall|v: TyVar| #[trigger] vars(*arg).contains(v) implies !names.contains_key(v) by {
                assert(vars(t).contains(v));
            }
            assert forall|v: TyVar| #[trigger] vars(*ret).contains(v) implies !names.contains_key(v) by {
                assert(vars(t).contains(v));
            }
            lemma_renamed_elsewhere(*arg, names);
            lemma_renamed_elsewhere(*ret, names);
        },
        TyForm::ChanSend(x) => {
            assert(vars(t) == vars(*x));
            lemma_renamed_elsewhere(*x, names);
        },
        TyForm::ChanRecv(x) => {
            assert(vars(t) == vars(*x));
            lemma_renamed_elsewhere(*x, names);
        },
        TyForm::Record(es) => {
            assert(vars(t) == all_vars(es));
            lemma_all_renamed_elsewhere(es, names);
        },
        TyForm::TaggedUnion(es) => {
            assert(vars(t) == all_vars(es));
            lemma_all_renamed_elsewhere(es, names);
        },
    }
}

proof fn lemma_all_renamed_elsewhere(es: Seq<(Seq<char>, TyForm)>, names: Map<TyVar, TyVar>)
    requires
        forall|v: TyVar| #[trigger] all_vars(es).contains(v) ==> !names.contains_key(v),
    ensures
        all_renamed(es, names) == es,
    decreases es,
{
    assert forall|i: int| 0 <= i < es.len() implies #[trigger] all_renamed(es, names)[i] == es[i] by {
        lemma_vars_among(es, i);
        assert forall|v: TyVar| #[trigger] vars(es[i].1).contains(v) implies !names.contains_key(v) by {
            assert(all_vars(es).contains(v));
        }
        lemma_renamed_elsewhere(es[i].1, names);
    }
    assert(all_renamed(es, names) =~= es);
}

/// To substitute in a scheme and to take an instance gives what taking the instance first and
/// substituting in it gives, where the substitution brings in no variable that the scheme binds, and
/// gives nothing for the new ones.
pub proof fn law_substitution_passes_through_instances(
    a: TyForm,
    b: TyForm,
    given: Given,
    bound: Set<TyVar>,
    names: Map<TyVar, TyVar>,
)
    requires
        replaced(a, b, given, bound),
        names.dom() == bound,
        forall|v: TyVar, t: Ty| #[trigger] given(v, Some(t)) ==> vars(t@).disjoint(bound),
        forall|v: TyVar| bound.contains(v) ==> given(#[trigger] names[v], None),
    ensures
        replaced(renamed(a, names), renamed(b, names), given, Set::empty()),
    decreases a,
{
    match a {
        TyForm::Literal(lit) => {},
        TyForm::Var(v) => {
            if bound.contains(v) {
                assert(names.contains_key(v));
                assert(given(names[v], None));
                assert(renamed(b, names) == TyForm::Var(names[v]));
            } else {
                assert(!names.contains_key(v));
                let r = choose|r: Option<Ty>| #[trigger]
                    given(v, r) && b == (match r {
                        Some(t) => t@,
                        None => a,
                    });
                match r {
                    Some(t) => {
                        assert forall|x: TyVar| #[trigger] vars(t@).contains(x) implies !names.contains_key(x) by {
                            assert(!bound.contains(x));
                        }
                        lemma_renamed_elsewhere(t@, names);
                    },
                    None => {},
                }
                assert(given(v, r) && renamed(b, names) == (match r {
                    Some(t) => t@,
                    None => a,
                }));
            }
        },
        TyForm::Arrow { arg_multi, arg, ret } => {
            law_substitution_passes_through_instances(*arg, *b->arg, given, bound, names);
            law_substitution_passes_through_instances(*ret, *b->ret, given, bound, names);
        },
        TyForm::ChanSend(x) => {
            law_substitution_passes_through_instances(*x, *b->ChanSend_0, given, bound, names);
        },
        TyForm::ChanRecv(x) => {
            law_substitution_passes_through_instances(*x, *b->ChanRecv_0, given, bound, names);
        },
        TyForm::Record(es) => {
            lemma_all_pass_through(es, b->Record_0, given, bound, names);
        },
        TyForm::TaggedUnion(es) => {
            lemma_all_pass_through(es, b->TaggedUnion_0, given, bound, names);
        },
    }
}

proof fn lemma_all_pass_through(
    a: Seq<(Seq<char>, TyForm)>,
    b: Seq<(Seq<char>, TyForm)>,
    given: Given,
    bound: Set<TyVar>,
    names: Map<TyVar, TyVar>,
)
    requires
        all_replaced(a, b, given, bound),
        names.dom() == bound,
        forall|v: TyVar, t: Ty| #[trigger] given(v, Some(t)) ==> vars(t@).disjoint(bound),
        forall|v: TyVar| bound.contains(v) ==> given(#[trigger] names[v], None),
    ensures
        all_replaced(all_renamed(a, names), all_renamed(b, names), given, Set::empty()),
    decreases a,
{
    let x = all_renamed(a, names);
    let y = all_renamed(b, names);
    assert forall|i: int| 0 <= i < x.len() implies (#[trigger] x[i]).0 == y[i].0 && replaced(
        x[i].1,
        y[i].1,
        given,
        Set::empty(),
    ) by {
        assert(a[i].0 == b[i].0);
        law_substitution_passes_through_instances(a[i].1, b[i].1, given, bound, names);
    }
}

/// The numbers of a range are finitely many.
proof fn lemma_range_finite(start: TyVar, end: TyVar)
    ensures
        range_set(start, end).finite(),
    decreases end - start,
{
    if start < end {
        let last = (end - 1) as TyVar;
        lemma_range_finite(start, last);
        assert(range_set(start, end) =~= range_set(start, last).insert(last));
    } else {
        assert(range_set(start, end) =~= Set::empty());
    }
}

/// A type has finitely many variables.
proof fn lemma_vars_finite(t: TyForm)
    ensures
        vars(t).finite(),
    decreases t, 0nat,
{
    match t {
        TyForm::Arrow { arg_multi, arg, ret } => {
            lemma_vars_finite(*arg);
            lemma_vars_finite(*ret);
        },
        TyForm::ChanSend(x) => {
            lemma_vars_finite(*x);
        },
        TyForm::ChanRecv(x) => {
            lemma_vars_finite(*x);
        },
        TyForm::Record(es) => {
            lemma_all_vars_finite(es, es.len());
        },
        TyForm::TaggedUnion(es) => {
            lemma_all_vars_finite(es, es.len());
        },
        _ => {},
    }
}

proof fn lemma_all_vars_finite(es: Seq<(Seq<char>, TyForm)>, n: nat)
    requires
        n <= es.len(),
    ensures
        all_vars(es.take(n as int)).finite(),
        n == es.len() ==> all_vars(es).finite(),
    decreases es, n,
{
    let part = es.take(n as int);
    if n == 0 {
        assert(all_vars(part) =~= Set::empty());
    } else {
        let less = es.take(n - 1);
        lemma_all_vars_finite(es, (n - 1) as nat);
        lemma_vars_finite(es[n - 1].1);
        assert forall|v: TyVar| all_vars(part).contains(v) implies all_vars(less).union(vars(es[n - 1].1)).contains(
            v,
        ) by {
            let i = choose|i: int| 0 <= i < part.len() && vars((#[trigger] part[i]).1).contains(v);
            if i < n - 1 {
                assert(vars(less[i].1).contains(v));
            }
        }
        vstd::set_lib::lemma_len_subset(all_vars(part), all_vars(less).union(vars(es[n - 1].1)));
    }
    assert(es.take(es.len() as int) =~= es);
}

/// An instance of a generalized type shares with the type only variables of the environment; all
/// others are new.
pub proof fn law_instances_of_generalized_types(
    t: Ty,
    env: Ty,
    start: TyVar,
    end: TyVar,
    base: TyVar,
    v: TyVar,
)
    requires
        base + env.collected(range_set(start, end).union(vars(t@)), false).len() <= usize::MAX,
        vars(
            renamed(t@, fresh_names(env.collected(range_set(start, end).union(vars(t@)), false), base)),
        ).contains(v),
    ensures
        (vars(t@).contains(v) && vars(env@).contains(v)) || base <= v,
{
    let all = range_set(start, end).union(vars(t@));
    let bound = env.collected(all, false);
    lemma_range_finite(start, end);
    lemma_vars_finite(t@);
    vstd::set_lib::lemma_len_subset(bound, all);
    let names = fresh_names(bound, base);
    law_renamed_variables(t@, names, v);
    let w = choose|w: TyVar| vars(t@).contains(w) && #[trigger] new_name(names, w) == v;
    if bound.contains(w) {
        law_new_names_are_new_and_different(bound, base, w, w);
    }
}

} // verus!
