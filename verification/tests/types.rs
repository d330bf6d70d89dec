use gardswag::names::NameMap;
use gardswag::subst::{FreeVars, Substitutable};
use gardswag::ty::{FinalArgMultiplicity, Scheme, Ty, TyLit};
use gardswag::ty_text::push_map;
use gardswag::tyvars::{push_set, CollectContext, TyVar};
use std::collections::BTreeSet;

fn set(vs: &[TyVar]) -> BTreeSet<TyVar> {
    vs.iter().copied().collect()
}

fn arrow(arg_multi: FinalArgMultiplicity, arg: Ty, ret: Ty) -> Ty {
    Ty::Arrow { arg_multi, arg: Box::new(arg), ret: Box::new(ret) }
}

fn many(arg: Ty, ret: Ty) -> Ty {
    arrow(FinalArgMultiplicity::Unrestricted, arg, ret)
}

fn int_ty() -> Ty {
    Ty::Literal(TyLit::Int)
}

/// Compares types, and shows both where they differ.
fn same_type(a: &Ty, b: &Ty) {
    assert!(a == b, "{} {}", a.debug_text(), b.debug_text());
}

fn entries(es: Vec<(&str, Ty)>) -> NameMap<String, Ty> {
    let mut m = NameMap::new();
    for (k, t) in es {
        m.insert(k.to_string(), t);
    }
    m
}

#[test]
fn literals_and_multiplicities_as_text() {
    assert_eq!(TyLit::Unit.to_string(), "()");
    assert_eq!(TyLit::Bool.to_string(), "Bool");
    assert_eq!(TyLit::Int.to_string(), "Int");
    assert_eq!(TyLit::String.to_string(), "Str");
    assert_eq!(FinalArgMultiplicity::Erased.to_string(), "0");
    assert_eq!(FinalArgMultiplicity::Linear.to_string(), "1");
    assert_eq!(FinalArgMultiplicity::Unrestricted.to_string(), "*");
}

#[test]
fn types_as_text() {
    assert_eq!(Ty::Var(42).to_string(), "$42");
    assert_eq!(Ty::Var(0).to_string(), "$0");
    assert_eq!(arrow(FinalArgMultiplicity::Linear, int_ty(), int_ty()).to_string(), "1Int -> Int");
    assert_eq!(many(int_ty(), many(int_ty(), Ty::Var(1))).to_string(), "*Int -> *Int -> $1");
    assert_eq!(
        arrow(FinalArgMultiplicity::Erased, many(int_ty(), int_ty()), int_ty()).to_string(),
        "0(*Int -> Int) -> Int"
    );
    assert_eq!(Ty::ChanSend(Box::new(int_ty())).to_string(), "Chan:send(Int)");
    assert_eq!(Ty::ChanRecv(Box::new(many(int_ty(), int_ty()))).to_string(), "Chan:recv(*Int -> Int)");
    assert_eq!(Ty::Record(entries(vec![])).to_string(), "{}");
    assert_eq!(
        Ty::Record(entries(vec![("b", Ty::Var(3)), ("a", int_ty())])).to_string(),
        "{\"a\": Ty{Int}, \"b\": Ty{$3}}"
    );
    assert_eq!(
        Ty::TaggedUnion(entries(vec![("Some", int_ty()), ("None", Ty::Literal(TyLit::Unit))])).to_string(),
        "any({\"None\": Ty{()}, \"Some\": Ty{Int}})"
    );
    assert_eq!(int_ty().debug_text(), "Ty{Int}");
}

#[test]
fn names_are_quoted() {
    assert_eq!(
        Ty::Record(entries(vec![("Az_09", int_ty()), ("", int_ty())])).to_string(),
        "{\"\": Ty{Int}, \"Az_09\": Ty{Int}}"
    );
    assert_eq!(
        Ty::Record(entries(vec![("a\"b\n", int_ty())])).to_string(),
        "{\"a\\\"b\\n\": Ty{Int}}"
    );
}

#[test]
fn maps_as_text() {
    let mut out = "m=".to_string();
    let pair = |a: &str, b: &str| (a.to_string(), b.to_string());
    push_map(&mut out, &vec![pair("x", "1"), pair("y", "2"), pair("z", "3")]);
    assert_eq!(out, "m={x: 1, y: 2, z: 3}");
}

#[test]
fn schemes_as_text() {
    let s = Scheme { forall: set(&[3, 1, 20]), ty: many(Ty::Var(1), Ty::Var(3)) };
    assert_eq!(s.to_string(), "<{1, 3, 20}>(*$1 -> $3)");
    assert_eq!(s.debug_text(), "Scheme { forall: {1, 3, 20}, ty: Ty{*$1 -> $3} }");
    let mut out = String::new();
    push_set(&mut out, &set(&[]));
    assert_eq!(out, "{}");
}

fn sample() -> Ty {
    Ty::Record(entries(vec![
        ("a", many(Ty::Var(1), Ty::Var(2))),
        ("b", Ty::TaggedUnion(entries(vec![("x", Ty::Var(3)), ("y", Ty::ChanSend(Box::new(Ty::Var(1))))]))),
        ("c", Ty::ChanRecv(Box::new(Ty::Var(5)))),
        ("d", int_ty()),
    ]))
}

#[test]
fn free_variables_of_types() {
    let mut accu = set(&[7]);
    sample().fv(&mut accu, true);
    assert_eq!(accu, set(&[1, 2, 3, 5, 7]));
    let mut accu = set(&[1, 4, 5, 7]);
    sample().fv(&mut accu, false);
    assert_eq!(accu, set(&[4, 7]));
    let mut accu = set(&[4]);
    sample().fv(&mut accu, true);
    sample().fv(&mut accu, false);
    assert_eq!(accu, set(&[4]));
}

#[test]
fn free_variables_of_variables() {
    let v: TyVar = 4;
    let mut accu = set(&[1]);
    v.fv(&mut accu, true);
    assert_eq!(accu, set(&[1, 4]));
    v.fv(&mut accu, false);
    assert_eq!(accu, set(&[1]));
}

#[test]
fn free_variables_of_schemes() {
    let s = Scheme { forall: set(&[1, 9]), ty: sample() };
    let mut accu = set(&[2, 7]);
    s.fv(&mut accu, true);
    assert_eq!(accu, set(&[2, 3, 5, 7]));
    let mut accu = set(&[1, 2, 4, 9]);
    s.fv(&mut accu, false);
    assert_eq!(accu, set(&[4, 9]));
    let closed = Scheme { forall: set(&[0]), ty: Ty::Var(0) };
    let mut accu = set(&[]);
    closed.fv(&mut accu, true);
    assert_eq!(accu, set(&[]));
}

#[test]
fn substitution_in_types() {
    let mut t = sample();
    t.apply(&mut |v: &TyVar| match *v {
        1 => Some(int_ty()),
        3 => Some(Ty::Var(1)),
        _ => None,
    });
    let expected = Ty::Record(entries(vec![
        ("a", many(int_ty(), Ty::Var(2))),
        ("b", Ty::TaggedUnion(entries(vec![("x", Ty::Var(1)), ("y", Ty::ChanSend(Box::new(int_ty())))]))),
        ("c", Ty::ChanRecv(Box::new(Ty::Var(5)))),
        ("d", int_ty()),
    ]));
    same_type(&t, &expected);
    let mut t = sample();
    t.apply(&mut |_: &TyVar| None);
    same_type(&t, &sample());
}

#[test]
fn substitution_in_schemes_leaves_the_bound_variables() {
    let mut s = Scheme { forall: set(&[1, 3]), ty: many(Ty::Var(1), many(Ty::Var(2), Ty::Var(3))) };
    s.apply(&mut |_: &TyVar| Some(int_ty()));
    assert_eq!(s.forall, set(&[1, 3]));
    same_type(&s.ty, &many(Ty::Var(1), many(int_ty(), Ty::Var(3))));
    let t = s.clone();
    assert_eq!(t.forall, s.forall);
    same_type(&t.ty, &s.ty);
}

#[test]
fn variables_are_visited_from_left_to_right() {
    let mut seen = vec![];
    sample().apply(&mut |v: &TyVar| {
        seen.push(*v);
        None
    });
    assert_eq!(seen, vec![1, 2, 3, 1, 5]);
    let mut seen = vec![];
    let mut s = Scheme { forall: set(&[1, 3]), ty: sample() };
    s.apply(&mut |v: &TyVar| {
        seen.push(*v);
        Some(int_ty())
    });
    assert_eq!(seen, vec![1, 2, 3, 1, 5]);
}

#[test]
fn generalizing_binds_all_but_the_environment() {
    let env = many(Ty::Var(3), Ty::Var(12));
    let s = many(Ty::Var(2), many(Ty::Var(3), Ty::Var(9))).generalize(&env, 2..6);
    assert_eq!(s.forall, set(&[2, 4, 5, 9]));
    same_type(&s.ty, &many(Ty::Var(2), many(Ty::Var(3), Ty::Var(9))));
    let s = int_ty().generalize(&env, 6..2);
    assert_eq!(s.forall, set(&[]));
    let outer = Scheme { forall: set(&[3]), ty: env };
    let s = int_ty().generalize(&outer, 2..6);
    assert_eq!(s.forall, set(&[2, 4, 5]));
    let unit = Ty::Literal(TyLit::Unit);
    let s = Ty::Var(5).generalize(&unit, 0..2);
    assert_eq!(s.forall, set(&[0, 1, 5]));
}

#[test]
fn instances_have_new_variables() {
    let mut ctx = CollectContext::new(10);
    let s = Scheme { forall: set(&[5, 2]), ty: many(Ty::Var(5), many(Ty::Var(2), Ty::Var(7))) };
    same_type(&s.instantiate(&mut ctx), &many(Ty::Var(11), many(Ty::Var(10), Ty::Var(7))));
    same_type(&s.instantiate(&mut ctx), &many(Ty::Var(13), many(Ty::Var(12), Ty::Var(7))));
    let plain = Scheme { forall: set(&[]), ty: sample() };
    same_type(&plain.instantiate(&mut ctx), &sample());
    let names = ctx.dup_tyvars(&set(&[0, 100]));
    assert_eq!(names.get(&0), Some(&14));
    assert_eq!(names.get(&100), Some(&15));
    assert_eq!(names.len(), 2);
}

#[test]
fn substitution_passes_through_instances() {
    let scheme = || Scheme { forall: set(&[1]), ty: many(Ty::Var(1), many(Ty::Var(2), Ty::Var(1))) };
    let mut give = |v: &TyVar| if *v == 2 { Some(Ty::Var(4)) } else { None };
    let mut first = scheme();
    first.apply(&mut give);
    let one = first.instantiate(&mut CollectContext::new(10));
    let mut other = scheme().instantiate(&mut CollectContext::new(10));
    other.apply(&mut give);
    same_type(&one, &other);
    same_type(&one, &many(Ty::Var(10), many(Ty::Var(4), Ty::Var(10))));
}

#[test]
fn instances_of_generalized_types() {
    let env = Ty::Var(3);
    let s = many(Ty::Var(1), many(Ty::Var(3), Ty::Var(4))).generalize(&env, 2..6);
    let instance = s.instantiate(&mut CollectContext::new(6));
    same_type(&instance, &many(Ty::Var(6), many(Ty::Var(3), Ty::Var(8))));
}

#[test]
fn different_types_are_written_differently() {
    let unit = || Ty::Literal(TyLit::Unit);
    let types = vec![
        unit(),
        int_ty(),
        Ty::Var(1),
        Ty::Var(11),
        Ty::Var(111),
        many(unit(), unit()),
        arrow(FinalArgMultiplicity::Linear, unit(), unit()),
        arrow(FinalArgMultiplicity::Erased, unit(), unit()),
        many(many(unit(), unit()), unit()),
        many(unit(), many(unit(), unit())),
        Ty::ChanSend(Box::new(Ty::Var(1))),
        Ty::ChanRecv(Box::new(Ty::Var(1))),
        Ty::Record(entries(vec![])),
        Ty::TaggedUnion(entries(vec![])),
        Ty::Record(entries(vec![("a", int_ty())])),
        Ty::Record(entries(vec![("a\": Ty{Int}, \"b", int_ty())])),
        Ty::Record(entries(vec![("a", int_ty()), ("b", int_ty())])),
    ];
    for (i, a) in types.iter().enumerate() {
        for (j, b) in types.iter().enumerate() {
            assert_eq!(a.to_string() == b.to_string(), i == j, "{} {}", a.debug_text(), b.debug_text());
        }
    }
}

#[test]
fn substitutions_compose() {
    let first = |v: &TyVar| match *v {
        1 => Some(many(Ty::Var(2), Ty::Var(3))),
        2 => Some(int_ty()),
        _ => None,
    };
    let second = |v: &TyVar| match *v {
        2 => Some(Ty::Var(9)),
        5 => Some(int_ty()),
        _ => None,
    };
    let mut in_turn = sample();
    in_turn.apply(&mut |v: &TyVar| first(v));
    in_turn.apply(&mut |v: &TyVar| second(v));
    let mut at_once = sample();
    at_once.apply(&mut |v: &TyVar| {
        let mut t = first(v).unwrap_or(Ty::Var(*v));
        t.apply(&mut |w: &TyVar| second(w));
        Some(t)
    });
    same_type(&in_turn, &at_once);
    let mut vars = set(&[]);
    in_turn.fv(&mut vars, true);
    assert_eq!(vars, set(&[3, 9]));
}
