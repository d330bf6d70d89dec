//! Laws of types part by part, of schemes as environments, and of their instances.
use crate::subst::{FreeVars, Substitutable};
use crate::ty::{
    all_renamed, all_replaced, all_vars, forms, range_set, renamed, replaced, vars, Given, Scheme, Ty, TyForm,
};
use crate::ty_laws::{new_name, put};
use crate::tyvars::{fresh_names, lemma_members, members, TyVar};
use vstd::prelude::*;

verus! {

/// The variable is free in the scheme: it occurs in the type and is not bound.
pub open spec fn free_in(s: Scheme, v: TyVar) -> bool {
    vars(s.ty@).contains(v) && !s.forall@.contains(v)
}

/// Taking the variables of a scheme out of a set takes out all that occur in its type, whether the
/// scheme binds few, many or none: none that is free in it stays, and what does not occur in it does.
pub proof fn law_nothing_free_in_a_scheme_stays(s: Scheme, accu: Set<TyVar>, v: TyVar)
    ensures
        s.collectable(accu, false),
        free_in(s, v) ==> !s.collected(accu, false).contains(v),
        s.collected(accu, false).contains(v) <==> accu.contains(v) && !vars(s.ty@).contains(v),
{
}

/// What a scheme binds makes no difference to what is taken out: it is what is taken out for its type
/// alone.
pub proof fn law_binding_does_not_matter_to_taking_out(s: Scheme, t: Scheme, accu: Set<TyVar>)
    requires
        s.ty@ == t.ty@,
    ensures
        s.collected(accu, false) == t.collected(accu, false),
        s.collected(accu, false) == s.ty.collected(accu, false),
{
}

/// Adding the variables of a scheme adds those that are free in it and leaves what was there, and asks
/// only that none of the bound ones is there.
pub proof fn law_what_is_free_in_a_scheme_is_added(s: Scheme, accu: Set<TyVar>, v: TyVar)
    ensures
        s.collectable(accu, true) <==> forall|w: TyVar| s.forall@.contains(w) ==> !(#[trigger] accu.contains(w)),
        s.collectable(accu, true) ==> (s.collected(accu, true).contains(v) <==> accu.contains(v) || free_in(s, v)),
{
}

/// For a type, adding adds the variables in it, taking out takes them out, and both always can be done.
pub proof fn law_variables_of_a_type_are_added_and_taken_out(t: Ty, accu: Set<TyVar>, v: TyVar)
    ensures
        t.collectable(accu, true) && t.collectable(accu, false),
        t.collected(accu, true).contains(v) <==> accu.contains(v) || vars(t@).contains(v),
        t.collected(accu, false).contains(v) <==> accu.contains(v) && !vars(t@).contains(v),
{
}

/// For a variable the same, with that variable.
pub proof fn law_a_variable_is_added_and_taken_out(u: TyVar, accu: Set<TyVar>, v: TyVar)
    ensures
        u.collectable(accu, true) && u.collectable(accu, false),
        u.collected(accu, true).contains(v) <==> accu.contains(v) || v == u,
        u.collected(accu, false).contains(v) <==> accu.contains(v) && v != u,
{
}

/// A type that is generalized where a scheme is the environment binds none of the variables that are
/// free in the scheme, and all others that occur in the type or belong to the range, save those that
/// occur in the scheme.
pub proof fn law_generalizing_where_a_scheme_is_the_environment(
    t: Ty,
    env: Scheme,
    start: TyVar,
    end: TyVar,
    v: TyVar,
)
    ensures
        free_in(env, v) ==> !env.collected(range_set(start, end).union(vars(t@)), false).contains(v),
        env.collected(range_set(start, end).union(vars(t@)), false).contains(v) <==> (vars(t@).contains(v) || start <= v
            < end) && !vars(env.ty@).contains(v),
{
}

/// A scheme that binds nothing is as an environment what its type is.
pub proof fn law_an_environment_of_one_type(t: Ty, env: Ty, scheme: Scheme, start: TyVar, end: TyVar)
    requires
        scheme.ty@ == env@,
    ensures
        scheme.collected(range_set(start, end).union(vars(t@)), false) == env.collected(
            range_set(start, end).union(vars(t@)),
            false,
        ),
{
}

/// The variables of a type are those of its parts: a variable has itself, a literal none.
pub proof fn law_variables_of_parts(t: TyForm, v: TyVar)
    ensures
        t is Literal ==> !vars(t).contains(v),
        t matches TyForm::Var(u) ==> (vars(t).contains(v) <==> u == v),
        t matches TyForm::Arrow { arg_multi, arg, ret } ==> (vars(t).contains(v) <==> vars(*arg).contains(v) || vars(
            *ret,
        ).contains(v)),
        t matches TyForm::ChanSend(x) ==> (vars(t).contains(v) <==> vars(*x).contains(v)),
        t matches TyForm::ChanRecv(x) ==> (vars(t).contains(v) <==> vars(*x).contains(v)),
        t matches TyForm::Record(es) ==> (vars(t).contains(v) <==> exists|i: int|
            0 <= i < es.len() && vars((#[trigger] es[i]).1).contains(v)),
        t matches TyForm::TaggedUnion(es) ==> (vars(t).contains(v) <==> exists|i: int|
            0 <= i < es.len() && vars((#[trigger] es[i]).1).contains(v)),
{
    match t {
        TyForm::Record(es) => {
            assert(vars(t) == all_vars(es));
            lemma_variables_of_entries(es, v);
        },
        TyForm::TaggedUnion(es) => {
            assert(vars(t) == all_vars(es));
            lemma_variables_of_entries(es, v);
        },
        _ => {},
    }
}

proof fn lemma_variables_of_entries(es: Seq<(Seq<char>, TyForm)>, v: TyVar)
    ensures
        all_vars(es).contains(v) <==> exists|i: int| 0 <= i < es.len() && vars((#[trigger] es[i]).1).contains(v),
{
    if exists|i: int| 0 <= i < es.len() && vars((#[trigger] es[i]).1).contains(v) {
        let i = choose|i: int| 0 <= i < es.len() && vars((#[trigger] es[i]).1).contains(v);
        assert(vars(es[i].1).contains(v));
    }
}

/// A substitution goes into every part of a type and changes nothing but variables: what is no variable
/// stays what it is, with the same multiplicities and names, and its parts are substituted in.
pub proof fn law_substitution_goes_into_every_part(a: TyForm, b: TyForm, given: Given, bound: Set<TyVar>)
    ensures
        a is Literal ==> (replaced(a, b, given, bound) <==> a == b),
        a matches TyForm::Var(v) ==> bound.contains(v) ==> (replaced(a, b, given, bound) <==> a == b),
        a matches TyForm::Var(v) ==> !bound.contains(v) ==> (replaced(a, b, given, bound) <==> exists|r: Option<Ty>|
         #[trigger]
            given(v, r) && b == put(v, r)),
        a matches TyForm::Arrow { arg_multi, arg, ret } ==> (replaced(a, b, given, bound) <==> b is Arrow
            && b->arg_multi == arg_multi && replaced(*arg, *b->arg, given, bound) && replaced(
            *ret,
            *b->ret,
            given,
            bound,
        )),
        a matches TyForm::ChanSend(x) ==> (replaced(a, b, given, bound) <==> b is ChanSend && replaced(
            *x,
            *b->ChanSend_0,
            given,
            bound,
        )),
        a matches TyForm::ChanRecv(x) ==> (replaced(a, b, given, bound) <==> b is ChanRecv && replaced(
            *x,
            *b->ChanRecv_0,
            given,
            bound,
        )),
        a matches TyForm::Record(es) ==> (replaced(a, b, given, bound) <==> b is Record && es.len() == b->Record_0.len()
            && forall|i: int|
            0 <= i < es.len() ==> (#[trigger] es[i]).0 == b->Record_0[i].0 && replaced(
                es[i].1,
                b->Record_0[i].1,
                given,
                bound,
            )),
        a matches TyForm::TaggedUnion(es) ==> (replaced(a, b, given, bound) <==> b is TaggedUnion && es.len()
            == b->TaggedUnion_0.len() && forall|i: int|
            0 <= i < es.len() ==> (#[trigger] es[i]).0 == b->TaggedUnion_0[i].0 && replaced(
                es[i].1,
                b->TaggedUnion_0[i].1,
                given,
                bound,
            )),
{
    match a {
        TyForm::Var(v) => {
            if !bound.contains(v) {
                if replaced(a, b, given, bound) {
                    let r = choose|r: Option<Ty>| #[trigger]
                        given(v, r) && b == (match r {
                            Some(t) => t@,
                            None => a,
                        });
                    assert(given(v, r) && b == put(v, r));
                }
                if exists|r: Option<Ty>| #[trigger] given(v, r) && b == put(v, r) {
                    let r = choose|r: Option<Ty>| #[trigger] given(v, r) && b == put(v, r);
                    assert(given(v, r) && b == (match r {
                        Some(t) => t@,
                        None => a,
                    }));
                }
            }
        },
        TyForm::Record(es) => {
            if b is Record {
                assert(replaced(a, b, given, bound) == all_replaced(es, b->Record_0, given, bound));
            }
        },
        TyForm::TaggedUnion(es) => {
            if b is TaggedUnion {
                assert(replaced(a, b, given, bound) == all_replaced(es, b->TaggedUnion_0, given, bound));
            }
        },
        _ => {},
    }
}

/// To rename is to substitute: what comes out is what a substitution of the new names gives.
pub proof fn law_renaming_is_a_substitution(t: TyForm, names: Map<TyVar, TyVar>, given: Given)
    requires
        forall|v: TyVar, out: Option<Ty>|
            given(v, out) <==> #[trigger] put(v, out) == TyForm::Var(new_name(names, v)) && out is Some,
    ensures
        replaced(t, renamed(t, names), given, Set::empty()),
    decreases t,
{
    match t {
        TyForm::Literal(lit) => {},
        TyForm::Var(v) => {
            let out = Some(Ty::Var(new_name(names, v)));
            assert(put(v, out) == TyForm::Var(new_name(names, v)));
            assert(given(v, out));
        },
        TyForm::Arrow { arg_multi, arg, ret } => {
            law_renaming_is_a_substitution(*arg, names, given);
            law_renaming_is_a_substitution(*ret, names, given);
        },
        TyForm::ChanSend(x) => {
            law_renaming_is_a_substitution(*x, names, given);
        },
        TyForm::ChanRecv(x) => {
            law_renaming_is_a_substitution(*x, names, given);
        },
        TyForm::Record(es) => {
            lemma_all_renamed_are_replaced(es, names, given);
        },
        TyForm::TaggedUnion(es) => {
            lemma_all_renamed_are_replaced(es, names, given);
        },
    }
}

proof fn lemma_all_renamed_are_replaced(es: Seq<(Seq<char>, TyForm)>, names: Map<TyVar, TyVar>, given: Given)
    requires
        forall|v: TyVar, out: Option<Ty>|
            given(v, out) <==> #[trigger] put(v, out) == TyForm::Var(new_name(names, v)) && out is Some,
    ensures
        all_replaced(es, all_renamed(es, names), given, Set::empty()),
    decreases es,
{
    let fs = all_renamed(es, names);
    assert forall|i: int| 0 <= i < es.len() implies (#[trigger] es[i]).0 == fs[i].0 && replaced(
        es[i].1,
        fs[i].1,
        given,
        Set::empty(),
    ) by {
        law_renaming_is_a_substitution(es[i].1, names, given);
    }
}

/// A renaming can be undone: where the way back leads from each new name to the old one, and from no
/// variable of the type that was not renamed, it leads from the renamed type to the type.
pub proof fn law_renaming_can_be_undone(t: TyForm, names: Map<TyVar, TyVar>, back: Map<TyVar, TyVar>)
    requires
        forall|v: TyVar| #[trigger]
            vars(t).contains(v) ==> new_name(back, new_name(names, v)) == v,
    ensures
        renamed(renamed(t, names), back) == t,
    decreases t,
{
    match t {
        TyForm::Literal(lit) => {},
        TyForm::Var(v) => {
            assert(vars(t).contains(v));
            assert(renamed(t, names) == TyForm::Var(new_name(names, v)));
        },
        TyForm::Arrow { arg_multi, arg, ret } => {
            assert forall|v: TyVar| #[trigger] vars(*arg).contains(v) implies new_name(back, new_name(names, v)) == v by {
                assert(vars(t).contains(v));
            }
            assert forall|v: TyVar| #[trigger] vars(*ret).contains(v) implies new_name(back, new_name(names, v)) == v by {
                assert(vars(t).contains(v));
            }
            law_renaming_can_be_undone(*arg, names, back);
            law_renaming_can_be_undone(*ret, names, back);
        },
        TyForm::ChanSend(x) => {
            assert(vars(t) == vars(*x));
            law_renaming_can_be_undone(*x, names, back);
        },
        TyForm::ChanRecv(x) => {
            assert(vars(t) == vars(*x));
            law_renaming_can_be_undone(*x, names, back);
        },
        TyForm::Record(es) => {
            assert(vars(t) == all_vars(es));
            lemma_all_renamed_back(es, names, back);
        },
        TyForm::TaggedUnion(es) => {
            assert(vars(t) == all_vars(es));
            lemma_all_renamed_back(es, names, back);
        },
    }
}

proof fn lemma_all_renamed_back(
    es: Seq<(Seq<char>, TyForm)>,
    names: Map<TyVar, TyVar>,
    back: Map<TyVar, TyVar>,
)
    requires
        forall|v: TyVar| #[trigger]
            all_vars(es).contains(v) ==> new_name(back, new_name(names, v)) == v,
    ensures
        all_renamed(all_renamed(es, names), back) == es,
    decreases es,
{
    let fs = all_renamed(all_renamed(es, names), back);
    assert forall|i: int| 0 <= i < es.len() implies #[trigger] fs[i] == es[i] by {
        assert forall|v: TyVar| #[trigger] vars(es[i].1).contains(v) implies new_name(back, new_name(names, v)) == v by {
            assert(vars(es[i].1).contains(v));
            assert(all_vars(es).contains(v));
        }
        law_renaming_can_be_undone(es[i].1, names, back);
    }
    assert(fs =~= es);
}

/// The new names of a set: exactly its members have one, the first number of the supply goes to the
/// smallest member, and the numbers follow one another as the members do.
pub proof fn law_new_names_keep_the_order(s: Set<TyVar>, base: TyVar, v: TyVar, w: TyVar)
    requires
        s.finite(),
        base + s.len() <= usize::MAX,
    ensures
        fresh_names(s, base).contains_key(v) <==> s.contains(v),
        s.contains(v) && s.contains(w) && v < w ==> fresh_names(s, base)[v] < fresh_names(s, base)[w],
        s.contains(v) ==> base <= fresh_names(s, base)[v] < base + s.len(),
        s.contains(v) && (forall|x: TyVar| #[trigger] s.contains(x) ==> v <= x) ==> fresh_names(s, base)[v] == base,
{
    lemma_members(s);
    let e = members(s);
    if s.contains(v) {
        assert(e.to_set().contains(v));
        assert(e.contains(v) && e[e.index_of(v)] == v);
        if forall|x: TyVar| #[trigger] s.contains(x) ==> v <= x {
            assert(e.to_set().contains(e[0]));
            assert(s.contains(e[0]));
            assert(e.index_of(v) == 0);
        }
    }
    if s.contains(w) {
        assert(e.to_set().contains(w));
        assert(e.contains(w) && e[e.index_of(w)] == w);
    }
    if s.contains(v) && s.contains(w) && v < w {
        let (i, j) = (e.index_of(v), e.index_of(w));
        if j <= i {
            assert(e[j] <= e[i]);
        }
    }
}

/// What a type is built of, whatever memory it lives in.
pub proof fn law_types_are_what_they_are_built_of(t: Ty)
    ensures
        t matches Ty::Literal(lit) ==> t@ == TyForm::Literal(lit),
        t matches Ty::Var(v) ==> t@ == TyForm::Var(v),
        t matches Ty::Arrow { arg_multi, arg, ret } ==> t@ == (TyForm::Arrow {
            arg_multi,
            arg: Box::new((*arg)@),
            ret: Box::new((*ret)@),
        }),
        t matches Ty::ChanSend(x) ==> t@ == TyForm::ChanSend(Box::new((*x)@)),
        t matches Ty::ChanRecv(x) ==> t@ == TyForm::ChanRecv(Box::new((*x)@)),
        t matches Ty::Record(m) ==> t@ is Record && t@->Record_0.len() == m.spine().len() && forall|i: int|
            0 <= i < m.spine().len() ==> #[trigger] t@->Record_0[i] == (m.spine()[i].0@, m.spine()[i].1@),
        t matches Ty::TaggedUnion(m) ==> t@ is TaggedUnion && t@->TaggedUnion_0.len() == m.spine().len() && forall|
            i: int,
        |
            0 <= i < m.spine().len() ==> #[trigger] t@->TaggedUnion_0[i] == (m.spine()[i].0@, m.spine()[i].1@),
{
    match t {
        Ty::Record(m) => {
            assert(t@ == TyForm::Record(forms(m)));
        },
        Ty::TaggedUnion(m) => {
            assert(t@ == TyForm::TaggedUnion(forms(m)));
        },
        _ => {},
    }
}

/// A substitution in a type: for a variable comes what is given for it, a literal stays, and anything
/// else stays what it is with the substitution made in its parts.
pub proof fn law_types_are_substituted_part_by_part(a: Ty, b: Ty, given: Given)
    ensures
        a is Literal ==> (Ty::applied(a, b, given) <==> a@ == b@),
        a matches Ty::Var(v) ==> (Ty::applied(a, b, given) <==> exists|r: Option<Ty>| #[trigger]
            given(v, r) && b@ == put(v, r)),
        a matches Ty::Arrow { arg_multi, arg, ret } ==> (Ty::applied(a, b, given) <==> b is Arrow && b->arg_multi
            == arg_multi && Ty::applied(*arg, *b->arg, given) && Ty::applied(*ret, *b->ret, given)),
        a matches Ty::ChanSend(x) ==> (Ty::applied(a, b, given) <==> b is ChanSend && Ty::applied(
            *x,
            *b->ChanSend_0,
            given,
        )),
        a matches Ty::ChanRecv(x) ==> (Ty::applied(a, b, given) <==> b is ChanRecv && Ty::applied(
            *x,
            *b->ChanRecv_0,
            given,
        )),
        a matches Ty::Record(m) ==> (Ty::applied(a, b, given) <==> b is Record && m.spine().len()
            == b->Record_0.spine().len() && forall|i: int|
            0 <= i < m.spine().len() ==> (#[trigger] m.spine()[i]).0@ == b->Record_0.spine()[i].0@ && Ty::applied(
                m.spine()[i].1,
                b->Record_0.spine()[i].1,
                given,
            )),
        a matches Ty::TaggedUnion(m) ==> (Ty::applied(a, b, given) <==> b is TaggedUnion && m.spine().len()
            == b->TaggedUnion_0.spine().len() && forall|i: int|
            0 <= i < m.spine().len() ==> (#[trigger] m.spine()[i]).0@ == b->TaggedUnion_0.spine()[i].0@
                && Ty::applied(m.spine()[i].1, b->TaggedUnion_0.spine()[i].1, given)),
{
    law_substitution_goes_into_every_part(a@, b@, given, Set::empty());
    law_types_are_what_they_are_built_of(a);
    law_types_are_what_they_are_built_of(b);
    match a {
        Ty::Record(m) => {
            if b is Record {
                lemma_entries_substituted(m.spine(), b->Record_0.spine(), a@->Record_0, b@->Record_0, given);
            }
        },
        Ty::TaggedUnion(m) => {
            if b is TaggedUnion {
                lemma_entries_substituted(
                    m.spine(),
                    b->TaggedUnion_0.spine(),
                    a@->TaggedUnion_0,
                    b@->TaggedUnion_0,
                    given,
                );
            }
        },
        _ => {},
    }
}

proof fn lemma_entries_substituted(
    m: Seq<(crate::ty::Symbol, Ty)>,
    n: Seq<(crate::ty::Symbol, Ty)>,
    es: Seq<(Seq<char>, TyForm)>,
    fs: Seq<(Seq<char>, TyForm)>,
    given: Given,
)
    requires
        m.len() == es.len(),
        n.len() == fs.len(),
        forall|i: int| 0 <= i < m.len() ==> #[trigger] es[i] == (m[i].0@, m[i].1@),
        forall|i: int| 0 <= i < n.len() ==> #[trigger] fs[i] == (n[i].0@, n[i].1@),
    ensures
        (es.len() == fs.len() && forall|i: int|
            0 <= i < es.len() ==> (#[trigger] es[i]).0 == fs[i].0 && replaced(es[i].1, fs[i].1, given, Set::empty()))
            <==> (m.len() == n.len() && forall|i: int|
            0 <= i < m.len() ==> (#[trigger] m[i]).0@ == n[i].0@ && Ty::applied(m[i].1, n[i].1, given)),
{
    if m.len() == n.len() {
        if forall|i: int|
            0 <= i < es.len() ==> (#[trigger] es[i]).0 == fs[i].0 && replaced(es[i].1, fs[i].1, given, Set::empty()) {
            assert forall|i: int| 0 <= i < m.len() implies (#[trigger] m[i]).0@ == n[i].0@ && Ty::applied(
                m[i].1,
                n[i].1,
                given,
            ) by {
                assert(es[i] == (m[i].0@, m[i].1@) && fs[i] == (n[i].0@, n[i].1@));
            }
        }
        if forall|i: int| 0 <= i < m.len() ==> (#[trigger] m[i]).0@ == n[i].0@ && Ty::applied(m[i].1, n[i].1, given) {
            assert forall|i: int| 0 <= i < es.len() implies (#[trigger] es[i]).0 == fs[i].0 && replaced(
                es[i].1,
                fs[i].1,
                given,
                Set::empty(),
            ) by {
                assert(es[i] == (m[i].0@, m[i].1@) && fs[i] == (n[i].0@, n[i].1@));
                assert(m[i].0@ == n[i].0@);
            }
        }
    }
}

/// A substitution in a scheme leaves what it binds bound, and is the one in its type where nothing is
/// given for the bound variables.
pub proof fn law_schemes_are_substituted_outside_what_they_bind(
    s: Scheme,
    t: Scheme,
    given: Given,
    outside: Given,
)
    requires
        forall|v: TyVar, r: Option<Ty>| #[trigger]
            outside(v, r) <==> if s.forall@.contains(v) {
                r is None
            } else {
                given(v, r)
            },
    ensures
        Scheme::applied(s, t, given) <==> t.forall@ == s.forall@ && Ty::applied(s.ty, t.ty, outside),
{
    lemma_outside(s.ty@, t.ty@, given, outside, s.forall@);
}

proof fn lemma_outside(a: TyForm, b: TyForm, given: Given, outside: Given, bound: Set<TyVar>)
    requires
        forall|v: TyVar, r: Option<Ty>| #[trigger]
            outside(v, r) <==> if bound.contains(v) {
                r is None
            } else {
                given(v, r)
            },
    ensures
        replaced(a, b, given, bound) <==> replaced(a, b, outside, Set::empty()),
    decreases a,
{
    law_substitution_goes_into_every_part(a, b, given, bound);
    law_substitution_goes_into_every_part(a, b, outside, Set::empty());
    match a {
        TyForm::Literal(lit) => {},
        TyForm::Var(v) => {
            if bound.contains(v) {
                assert(outside(v, None) && put(v, None) == a);
            } else {
                if exists|r: Option<Ty>| #[trigger] given(v, r) && b == put(v, r) {
                    let r = choose|r: Option<Ty>| #[trigger] given(v, r) && b == put(v, r);
                    assert(outside(v, r) && b == put(v, r));
                }
            }
        },
        TyForm::Arrow { arg_multi, arg, ret } => {
            if b is Arrow {
                lemma_outside(*arg, *b->arg, given, outside, bound);
                lemma_outside(*ret, *b->ret, given, outside, bound);
            }
        },
        TyForm::ChanSend(x) => {
            if b is ChanSend {
                lemma_outside(*x, *b->ChanSend_0, given, outside, bound);
            }
        },
        TyForm::ChanRecv(x) => {
            if b is ChanRecv {
                lemma_outside(*x, *b->ChanRecv_0, given, outside, bound);
            }
        },
        TyForm::Record(es) => {
            if b is Record {
                lemma_all_outside(es, b->Record_0, given, outside, bound);
            }
        },
        TyForm::TaggedUnion(es) => {
            if b is TaggedUnion {
                lemma_all_outside(es, b->TaggedUnion_0, given, outside, bound);
            }
        },
    }
}

proof fn lemma_all_outside(
    a: Seq<(Seq<char>, TyForm)>,
    b: Seq<(Seq<char>, TyForm)>,
    given: Given,
    outside: Given,
    bound: Set<TyVar>,
)
    requires
        forall|v: TyVar, r: Option<Ty>| #[trigger]
            outside(v, r) <==> if bound.contains(v) {
                r is None
            } else {
                given(v, r)
            },
    ensures
        all_replaced(a, b, given, bound) <==> all_replaced(a, b, outside, Set::empty()),
    decreases a,
{
    if a.len() == b.len() {
        assert forall|i: int| 0 <= i < a.len() implies replaced((#[trigger] a[i]).1, b[i].1, given, bound) == replaced(
            a[i].1,
            b[i].1,
            outside,
            Set::empty(),
        ) by {
            lemma_outside(a[i].1, b[i].1, given, outside, bound);
        }
        if all_replaced(a, b, given, bound) {
            assert forall|i: int| 0 <= i < a.len() implies (#[trigger] a[i]).0 == b[i].0 && replaced(
                a[i].1,
                b[i].1,
                outside,
                Set::empty(),
            ) by {}
        }
        if all_replaced(a, b, outside, Set::empty()) {
            assert forall|i: int| 0 <= i < a.len() implies (#[trigger] a[i]).0 == b[i].0 && replaced(
                a[i].1,
                b[i].1,
                given,
                bound,
            ) by {}
        }
    }
}

} // verus!
