//! Laws of `==` on values.
use crate::syntax::{
    same_block, same_cases, same_expr, same_exprs, same_kind, same_pattern, Block, Case, Expr, ExprKind, Pattern,
};
use crate::value::{same, same_fields, same_list, Val};
use vstd::prelude::*;

verus! {

proof fn lemma_pattern_reflexive(a: Pattern)
    ensures
        same_pattern(a, a),
    decreases a,
{
    match a {
        Pattern::Identifier(x) => {},
        Pattern::Tagged { key, value } => {
            lemma_pattern_reflexive(*value);
        },
        Pattern::Record(x) => {
            x.inner.lemma_values_smaller();
            assert forall|i: int| 0 <= i < x.inner.spine().len() implies same_pattern(
                (#[trigger] x.inner.spine()[i]).1,
                x.inner.spine()[i].1,
            ) by {
                lemma_pattern_reflexive(x.inner.spine()[i].1);
            }
        },
        Pattern::Unit => {},
    }
}

proof fn lemma_expr_reflexive(a: Expr)
    ensures
        same_expr(a, a),
    decreases a,
{
    lemma_kind_reflexive(a.inner);
}

proof fn lemma_exprs_reflexive(a: Seq<Expr>)
    ensures
        same_exprs(a, a),
    decreases a,
{
    assert forall|i: int| 0 <= i < a.len() implies same_expr(#[trigger] a[i], a[i]) by {
        lemma_expr_reflexive(a[i]);
    }
}

proof fn lemma_block_reflexive(a: Block)
    ensures
        same_block(a, a),
    decreases a,
{
    lemma_exprs_reflexive(a.stmts@);
    match a.term {
        Some(x) => {
            lemma_expr_reflexive(*x);
        },
        None => {},
    }
}

proof fn lemma_cases_reflexive(a: Seq<Case>)
    ensures
        same_cases(a, a),
    decreases a,
{
    assert forall|i: int| 0 <= i < a.len() implies same_pattern((#[trigger] a[i]).pat, a[i].pat) && same_expr(
        a[i].body,
        a[i].body,
    ) by {
        lemma_pattern_reflexive(a[i].pat);
        lemma_expr_reflexive(a[i].body);
    }
}

proof fn lemma_kind_reflexive(a: ExprKind)
    ensures
        same_kind(a, a),
    decreases a,
{
    match a {
        ExprKind::Let { lhs, rhs, rest } => {
            lemma_expr_reflexive(*rhs);
            lemma_block_reflexive(rest);
        },
        ExprKind::Block(x) => {
            lemma_block_reflexive(x);
        },
        ExprKind::If { cond, then_blk, or_else } => {
            lemma_expr_reflexive(*cond);
            lemma_block_reflexive(then_blk);
            lemma_block_reflexive(or_else);
        },
        ExprKind::Lambda { arg, body } => {
            lemma_expr_reflexive(*body);
        },
        ExprKind::Call { prim, arg } => {
            lemma_expr_reflexive(*prim);
            lemma_expr_reflexive(*arg);
        },
        ExprKind::Dot { prim, key } => {
            lemma_expr_reflexive(*prim);
        },
        ExprKind::Fix { arg, body } => {
            lemma_expr_reflexive(*body);
        },
        ExprKind::FormatString(x) => {
            lemma_exprs_reflexive(x@);
        },
        ExprKind::Record(x) => {
            x.lemma_values_smaller();
            assert forall|i: int| 0 <= i < x.spine().len() implies same_expr(
                (#[trigger] x.spine()[i]).1,
                x.spine()[i].1,
            ) by {
                lemma_expr_reflexive(x.spine()[i].1);
            }
        },
        ExprKind::Update { orig, ovrd } => {
            lemma_expr_reflexive(*orig);
            lemma_expr_reflexive(*ovrd);
        },
        ExprKind::Match { inp, cases } => {
            lemma_expr_reflexive(*inp);
            lemma_cases_reflexive(cases@);
        },
        _ => {},
    }
}

/// Patterns that are the same as one are the same.
proof fn lemma_pattern_common(a: Pattern, b: Pattern, c: Pattern)
    requires
        same_pattern(a, b),
        same_pattern(a, c),
    ensures
        same_pattern(b, c),
    decreases a,
{
    match a {
        Pattern::Identifier(x) => {},
        Pattern::Tagged { key, value } => {
            lemma_pattern_common(*value, *b->value, *c->value);
        },
        Pattern::Record(x) => {
            x.inner.lemma_values_smaller();
            let y = b->Record_0.inner.spine();
            let z = c->Record_0.inner.spine();
            assert forall|i: int| 0 <= i < y.len() implies (#[trigger] y[i]).0@ == z[i].0@ && same_pattern(
                y[i].1,
                z[i].1,
            ) by {
                assert(x.inner.spine()[i].0@ == y[i].0@);
                lemma_pattern_common(x.inner.spine()[i].1, y[i].1, z[i].1);
            }
        },
        Pattern::Unit => {},
    }
}

/// Expressions that are the same as one are the same.
proof fn lemma_expr_common(a: Expr, b: Expr, c: Expr)
    requires
        same_expr(a, b),
        same_expr(a, c),
    ensures
        same_expr(b, c),
    decreases a,
{
    lemma_kind_common(a.inner, b.inner, c.inner);
}

proof fn lemma_exprs_common(a: Seq<Expr>, b: Seq<Expr>, c: Seq<Expr>)
    requires
        same_exprs(a, b),
        same_exprs(a, c),
    ensures
        same_exprs(b, c),
    decreases a,
{
    assert forall|i: int| 0 <= i < b.len() implies same_expr(#[trigger] b[i], c[i]) by {
        assert(same_expr(a[i], b[i]));
        lemma_expr_common(a[i], b[i], c[i]);
    }
}

proof fn lemma_block_common(a: Block, b: Block, c: Block)
    requires
        same_block(a, b),
        same_block(a, c),
    ensures
        same_block(b, c),
    decreases a,
{
    lemma_exprs_common(a.stmts@, b.stmts@, c.stmts@);
    match a.term {
        Some(x) => {
            lemma_expr_common(*x, *b.term->Some_0, *c.term->Some_0);
        },
        None => {},
    }
}

proof fn lemma_cases_common(a: Seq<Case>, b: Seq<Case>, c: Seq<Case>)
    requires
        same_cases(a, b),
        same_cases(a, c),
    ensures
        same_cases(b, c),
    decreases a,
{
    assert forall|i: int| 0 <= i < b.len() implies same_pattern((#[trigger] b[i]).pat, c[i].pat) && same_expr(
        b[i].body,
        c[i].body,
    ) by {
        assert(same_pattern(a[i].pat, b[i].pat));
        lemma_pattern_common(a[i].pat, b[i].pat, c[i].pat);
        lemma_expr_common(a[i].body, b[i].body, c[i].body);
    }
}

proof fn lemma_kind_common(a: ExprKind, b: ExprKind, c: ExprKind)
    requires
        same_kind(a, b),
        same_kind(a, c),
    ensures
        same_kind(b, c),
    decreases a,
{
    match (a, b, c) {
        (
            ExprKind::Let { lhs: l1, rhs: r1, rest: t1 },
            ExprKind::Let { lhs: l2, rhs: r2, rest: t2 },
            ExprKind::Let { lhs: l3, rhs: r3, rest: t3 },
        ) => {
            lemma_expr_common(*r1, *r2, *r3);
            lemma_block_common(t1, t2, t3);
        },
        (ExprKind::Block(x), ExprKind::Block(y), ExprKind::Block(z)) => {
            lemma_block_common(x, y, z);
        },
        (
            ExprKind::If { cond: c1, then_blk: t1, or_else: o1 },
            ExprKind::If { cond: c2, then_blk: t2, or_else: o2 },
            ExprKind::If { cond: c3, then_blk: t3, or_else: o3 },
        ) => {
            lemma_expr_common(*c1, *c2, *c3);
            lemma_block_common(t1, t2, t3);
            lemma_block_common(o1, o2, o3);
        },
        (
            ExprKind::Lambda { arg: a1, body: b1 },
            ExprKind::Lambda { arg: a2, body: b2 },
            ExprKind::Lambda { arg: a3, body: b3 },
        ) => {
            lemma_expr_common(*b1, *b2, *b3);
        },
        (
            ExprKind::Call { prim: p1, arg: a1 },
            ExprKind::Call { prim: p2, arg: a2 },
            ExprKind::Call { prim: p3, arg: a3 },
        ) => {
            lemma_expr_common(*p1, *p2, *p3);
            lemma_expr_common(*a1, *a2, *a3);
        },
        (
            ExprKind::Dot { prim: p1, key: k1 },
            ExprKind::Dot { prim: p2, key: k2 },
            ExprKind::Dot { prim: p3, key: k3 },
        ) => {
            lemma_expr_common(*p1, *p2, *p3);
        },
        (
            ExprKind::Fix { arg: a1, body: b1 },
            ExprKind::Fix { arg: a2, body: b2 },
            ExprKind::Fix { arg: a3, body: b3 },
        ) => {
            lemma_expr_common(*b1, *b2, *b3);
        },
        (ExprKind::FormatString(x), ExprKind::FormatString(y), ExprKind::FormatString(z)) => {
            lemma_exprs_common(x@, y@, z@);
        },
        (ExprKind::Record(x), ExprKind::Record(y), ExprKind::Record(z)) => {
            x.lemma_values_smaller();
            assert forall|i: int| 0 <= i < y.spine().len() implies (#[trigger] y.spine()[i]).0@ == z.spine()[i].0@
                && same_expr(y.spine()[i].1, z.spine()[i].1) by {
                assert(x.spine()[i].0@ == y.spine()[i].0@);
                lemma_expr_common(x.spine()[i].1, y.spine()[i].1, z.spine()[i].1);
            }
        },
        (
            ExprKind::Update { orig: o1, ovrd: v1 },
            ExprKind::Update { orig: o2, ovrd: v2 },
            ExprKind::Update { orig: o3, ovrd: v3 },
        ) => {
            lemma_expr_common(*o1, *o2, *o3);
            lemma_expr_common(*v1, *v2, *v3);
        },
        (
            ExprKind::Match { inp: i1, cases: c1 },
            ExprKind::Match { inp: i2, cases: c2 },
            ExprKind::Match { inp: i3, cases: c3 },
        ) => {
            lemma_expr_common(*i1, *i2, *i3);
            lemma_cases_common(c1@, c2@, c3@);
        },
        _ => {},
    }
}

/// No end of a channel is in the value, at any depth.
pub open spec fn channel_free<'a>(v: Val<'a>) -> bool
    decreases v,
{
    match v {
        Val::Record(m) => all_channel_free(m),
        Val::Tagged(key, x) => channel_free(*x),
        Val::Builtin(f, args) => each_channel_free(args),
        Val::Lambda { arg, body, saved } => all_channel_free(saved),
        Val::ChanSend(tx) => false,
        Val::ChanRecv(rx) => false,
        _ => true,
    }
}

/// No end of a channel is in any of the values.
pub open spec fn each_channel_free<'a>(s: Seq<Val<'a>>) -> bool
    decreases s,
{
    forall|i: int| 0 <= i < s.len() ==> channel_free(#[trigger] s[i])
}

/// No end of a channel is in any of the values, which are finitely many.
pub open spec fn all_channel_free<'a>(m: Map<Seq<char>, Val<'a>>) -> bool
    decreases m,
{
    &&& m.dom().finite()
    &&& forall|k: Seq<char>| #[trigger] m.dom().contains(k) ==> channel_free(m[k])
}

/// A value is equal to itself exactly where no end of a channel is in it.
pub proof fn law_equality_is_reflexive_without_channels<'a>(v: Val<'a>)
    ensures
        same(v, v) == channel_free(v),
    decreases v,
{
    match v {
        Val::Record(m) => {
            lemma_fields_reflexive(m);
        },
        Val::Tagged(key, x) => {
            law_equality_is_reflexive_without_channels(*x);
        },
        Val::Builtin(f, args) => {
            lemma_list_reflexive(args);
        },
        Val::Lambda { arg, body, saved } => {
            lemma_expr_reflexive(body);
            lemma_fields_reflexive(saved);
        },
        Val::FixLambda { arg, body } => {
            lemma_expr_reflexive(body);
        },
        _ => {},
    }
}

proof fn lemma_list_reflexive<'a>(s: Seq<Val<'a>>)
    ensures
        same_list(s, s) == each_channel_free(s),
    decreases s,
{
    assert forall|i: int| 0 <= i < s.len() implies same(#[trigger] s[i], s[i]) == channel_free(s[i]) by {
        law_equality_is_reflexive_without_channels(s[i]);
    }
}

proof fn lemma_fields_reflexive<'a>(m: Map<Seq<char>, Val<'a>>)
    ensures
        same_fields(m, m) == all_channel_free(m),
    decreases m,
{
    if m.dom().finite() {
        assert forall|k: Seq<char>| #[trigger] m.dom().contains(k) implies same(m[k], m[k]) == channel_free(m[k]) by {
            law_equality_is_reflexive_without_channels(m[k]);
        }
    }
}

/// Values that are equal to one are equal.
proof fn lemma_common<'a>(a: Val<'a>, b: Val<'a>, c: Val<'a>)
    requires
        same(a, b),
        same(a, c),
    ensures
        same(b, c),
        channel_free(a),
    decreases a,
{
    match (a, b, c) {
        (Val::Record(x), Val::Record(y), Val::Record(z)) => {
            lemma_fields_common(x, y, z);
        },
        (Val::Tagged(kx, x), Val::Tagged(ky, y), Val::Tagged(kz, z)) => {
            lemma_common(*x, *y, *z);
        },
        (Val::Builtin(fx, x), Val::Builtin(fy, y), Val::Builtin(fz, z)) => {
            lemma_list_common(x, y, z);
        },
        (
            Val::Lambda { arg: a1, body: b1, saved: s1 },
            Val::Lambda { arg: a2, body: b2, saved: s2 },
            Val::Lambda { arg: a3, body: b3, saved: s3 },
        ) => {
            lemma_expr_common(b1, b2, b3);
            lemma_fields_common(s1, s2, s3);
        },
        (
            Val::FixLambda { arg: a1, body: b1 },
            Val::FixLambda { arg: a2, body: b2 },
            Val::FixLambda { arg: a3, body: b3 },
        ) => {
            lemma_expr_common(b1, b2, b3);
        },
        _ => {},
    }
}

proof fn lemma_list_common<'a>(a: Seq<Val<'a>>, b: Seq<Val<'a>>, c: Seq<Val<'a>>)
    requires
        same_list(a, b),
        same_list(a, c),
    ensures
        same_list(b, c),
        each_channel_free(a),
    decreases a,
{
    assert forall|i: int| 0 <= i < a.len() implies same(b[i], c[i]) && channel_free(#[trigger] a[i]) by {
        lemma_common(a[i], b[i], c[i]);
    }
    assert forall|i: int| 0 <= i < b.len() implies same(#[trigger] b[i], c[i]) by {
        assert(channel_free(a[i]));
    }
}

proof fn lemma_fields_common<'a>(
    a: Map<Seq<char>, Val<'a>>,
    b: Map<Seq<char>, Val<'a>>,
    c: Map<Seq<char>, Val<'a>>,
)
    requires
        same_fields(a, b),
        same_fields(a, c),
    ensures
        same_fields(b, c),
        all_channel_free(a),
    decreases a,
{
    assert forall|k: Seq<char>| #[trigger] a.dom().contains(k) implies same(b[k], c[k]) && channel_free(a[k]) by {
        lemma_common(a[k], b[k], c[k]);
    }
}

/// Of two values, either both are equal to the other or none is.
pub proof fn law_equality_is_symmetric<'a>(a: Val<'a>, b: Val<'a>)
    ensures
        same(a, b) == same(b, a),
{
    if same(a, b) {
        lemma_common(a, b, b);
        law_equality_is_reflexive_without_channels(a);
        lemma_common(a, b, a);
    }
    if same(b, a) {
        lemma_common(b, a, a);
        law_equality_is_reflexive_without_channels(b);
        lemma_common(b, a, b);
    }
}

/// What is equal to something equal is equal.
pub proof fn law_equality_is_transitive<'a>(a: Val<'a>, b: Val<'a>, c: Val<'a>)
    requires
        same(a, b),
        same(b, c),
    ensures
        same(a, c),
{
    law_equality_is_symmetric(a, b);
    lemma_common(b, a, c);
}

/// The value holds no function that was written in a program, and no end of a channel, at any depth.
pub open spec fn plain_data<'a>(v: Val<'a>) -> bool
    decreases v,
{
    match v {
        Val::Unit => true,
        Val::Boolean(b) => true,
        Val::Integer(i) => true,
        Val::Text(s) => true,
        Val::Tagger(key) => true,
        Val::Tagged(key, x) => plain_data(*x),
        Val::Builtin(f, args) => each_plain_data(args),
        Val::Record(m) => all_plain_data(m),
        _ => false,
    }
}

/// Each of the values is such.
pub open spec fn each_plain_data<'a>(s: Seq<Val<'a>>) -> bool
    decreases s,
{
    forall|i: int| 0 <= i < s.len() ==> plain_data(#[trigger] s[i])
}

/// Each of the values, which are finitely many, is such.
pub open spec fn all_plain_data<'a>(m: Map<Seq<char>, Val<'a>>) -> bool
    decreases m,
{
    &&& m.dom().finite()
    &&& forall|k: Seq<char>| #[trigger] m.dom().contains(k) ==> plain_data(m[k])
}

/// Of data, exactly what is one and the same is equal: the same kind, the same numbers, texts and tags,
/// and in lists and records the same at each place.
pub proof fn law_equal_data_is_the_same<'a>(a: Val<'a>, b: Val<'a>)
    requires
        plain_data(a),
    ensures
        same(a, b) <==> a == b,
    decreases a,
{
    match (a, b) {
        (Val::Record(x), Val::Record(y)) => {
            lemma_equal_fields_are_the_same(x, y);
        },
        (Val::Tagged(kx, x), Val::Tagged(ky, y)) => {
            law_equal_data_is_the_same(*x, *y);
        },
        (Val::Builtin(fx, x), Val::Builtin(fy, y)) => {
            lemma_equal_lists_are_the_same(x, y);
        },
        _ => {},
    }
}

proof fn lemma_equal_lists_are_the_same<'a>(a: Seq<Val<'a>>, b: Seq<Val<'a>>)
    requires
        each_plain_data(a),
    ensures
        same_list(a, b) <==> a == b,
    decreases a,
{
    if a.len() == b.len() {
        assert forall|i: int| 0 <= i < a.len() implies same(#[trigger] a[i], b[i]) == (a[i] == b[i]) by {
            law_equal_data_is_the_same(a[i], b[i]);
        }
        if same_list(a, b) {
            assert forall|i: int| 0 <= i < a.len() implies a[i] == b[i] by {
                assert(same(a[i], b[i]));
            }
            assert(a =~= b);
        }
    }
}

proof fn lemma_equal_fields_are_the_same<'a>(a: Map<Seq<char>, Val<'a>>, b: Map<Seq<char>, Val<'a>>)
    requires
        all_plain_data(a),
    ensures
        same_fields(a, b) <==> a == b,
    decreases a,
{
    if a.dom() == b.dom() {
        assert forall|k: Seq<char>| #[trigger] a.dom().contains(k) implies same(a[k], b[k]) == (a[k] == b[k]) by {
            law_equal_data_is_the_same(a[k], b[k]);
        }
        if same_fields(a, b) {
            assert forall|k: Seq<char>| a.contains_key(k) implies a[k] == b[k] by {
                assert(a.dom().contains(k));
            }
            assert(a =~= b);
        }
    }
}

/// Values are equal kind by kind and part by part: functions where their arguments have one name, their
/// bodies are the same, and what they took along is equal; recursive ones where name and body are; and
/// records where they have the same fields, each equal to the other.
pub proof fn law_equal_values_have_equal_parts<'a>(a: Val<'a>, b: Val<'a>)
    ensures
        same(a, b) ==> !(a is ChanSend) && !(a is ChanRecv) && !(b is ChanSend) && !(b is ChanRecv),
        same(a, b) ==> a is Record == b is Record && a is Builtin == b is Builtin && a is Lambda == b is Lambda
            && a is FixLambda == b is FixLambda && a is Tagged == b is Tagged && a is Tagger == b is Tagger && a is Text
            == b is Text && a is Integer == b is Integer && a is Boolean == b is Boolean && a is Unit == b is Unit,
        a is Tagged && b is Tagged ==> (same(a, b) <==> a->Tagged_0 == b->Tagged_0 && same(
            *a->Tagged_1,
            *b->Tagged_1,
        )),
        a is Builtin && b is Builtin ==> (same(a, b) <==> a->Builtin_0 == b->Builtin_0 && a->Builtin_1.len()
            == b->Builtin_1.len() && forall|i: int|
            0 <= i < a->Builtin_1.len() ==> same(#[trigger] a->Builtin_1[i], b->Builtin_1[i])),
        a is Record && b is Record && a->Record_0.dom().finite() ==> (same(a, b) <==> a->Record_0.dom()
            == b->Record_0.dom() && forall|k: Seq<char>| #[trigger]
            a->Record_0.dom().contains(k) ==> same(a->Record_0[k], b->Record_0[k])),
        a is Lambda && b is Lambda ==> (same(a, b) <==> a->Lambda_arg == b->Lambda_arg && same_expr(
            a->Lambda_body,
            b->Lambda_body,
        ) && same(Val::Record(a->saved), Val::Record(b->saved))),
        a is FixLambda && b is FixLambda ==> (same(a, b) <==> a->FixLambda_arg == b->FixLambda_arg && same_expr(
            a->FixLambda_body,
            b->FixLambda_body,
        )),
{
    if a is Lambda && b is Lambda {
        assert(same(Val::Record(a->saved), Val::Record(b->saved)) == same_fields(a->saved, b->saved));
    }
    if a is Record && b is Record {
        let (x, y) = (a->Record_0, b->Record_0);
        assert(same(a, b) == same_fields(x, y));
        assert(same_fields(x, y) == (x.dom().finite() && x.dom() == y.dom() && forall|k: Seq<char>| #[trigger]
            x.dom().contains(k) ==> same(x[k], y[k])));
    }
    if a is Builtin && b is Builtin {
        assert(same_list(a->Builtin_1, b->Builtin_1) == (a->Builtin_1.len() == b->Builtin_1.len() && forall|i: int|
            0 <= i < a->Builtin_1.len() ==> same(#[trigger] a->Builtin_1[i], b->Builtin_1[i])));
    }
}

} // verus!
