//! Laws of what programs mean.
use crate::adequacy::{ends_within, law_meaning_is_computed, same_end, start};
use crate::exchange::law_exchange;
use crate::names::NameMap;
use crate::semantics::{
    builtin, call, eval, eval_block, eval_call, eval_fields, eval_parts, field, fit, fit_fields, mismatched, select,
    shown, updated, Answer, Called, Choice, Fault, Fit, Io, Scope,
};
use crate::small_step::advance;
use crate::syntax::{binds, Block, Case, Expr, ExprKind, Pattern};
use crate::value::{arity, Builtin, Val};
use vstd::prelude::*;

verus! {

/// What an expression means does not rest on the depth: an evaluation that comes to an end within
/// some depth comes to the same end within every greater one.
pub proof fn law_deeper_means_the_same<'a>(d1: nat, d2: nat, e: Expr, scope: Scope<'a>, io: Io<'a>)
    requires
        d1 <= d2,
        !(eval(d1, e, scope, io).0 is Deep),
    ensures
        eval(d2, e, scope, io) == eval(d1, e, scope, io),
    decreases d1,
{
    let c1 = (d1 - 1) as nat;
    let c2 = (d2 - 1) as nat;
    match e.inner {
        ExprKind::Let { lhs, rhs, rest } => {
            law_deeper_means_the_same(c1, c2, *rhs, scope, io);
            match eval(c1, *rhs, scope, io) {
                (Answer::Value(v), io1) => {
                    law_deeper_block_means_the_same(c1, c2, rest, 0, scope.insert(lhs.inner@, v), io1);
                },
                _ => {},
            }
        },
        ExprKind::Block(blk) => {
            law_deeper_block_means_the_same(c1, c2, blk, 0, scope, io);
        },
        ExprKind::If { cond, then_blk, or_else } => {
            law_deeper_means_the_same(c1, c2, *cond, scope, io);
            match eval(c1, *cond, scope, io) {
                (Answer::Value(Val::Boolean(b)), io1) => {
                    let blk = if b {
                        then_blk
                    } else {
                        or_else
                    };
                    law_deeper_block_means_the_same(c1, c2, blk, 0, scope, io1);
                },
                _ => {},
            }
        },
        ExprKind::Call { prim, arg } => {
            law_deeper_means_the_same(c1, c2, *arg, scope, io);
            match eval(c1, *arg, scope, io) {
                (Answer::Value(v_arg), io1) => {
                    law_deeper_means_the_same(c1, c2, *prim, scope, io1);
                    match eval(c1, *prim, scope, io1) {
                        (Answer::Value(v_prim), io2) => {
                            lemma_deeper_call(c1, c2, v_prim, v_arg, scope, io2);
                        },
                        _ => {},
                    }
                },
                _ => {},
            }
        },
        ExprKind::Dot { prim, key } => {
            law_deeper_means_the_same(c1, c2, *prim, scope, io);
        },
        ExprKind::Fix { arg, body } => {
            law_deeper_means_the_same(
                c1,
                c2,
                *body,
                scope.insert(arg@, Val::FixLambda { arg: arg@, body: *body }),
                io,
            );
        },
        ExprKind::FormatString(parts) => {
            lemma_deeper_parts(c1, c2, parts@, 0, Seq::empty(), scope, io);
        },
        ExprKind::Record(fields) => {
            lemma_deeper_fields(c1, c2, fields, 0, Map::empty(), scope, io);
        },
        ExprKind::Update { orig, ovrd } => {
            law_deeper_means_the_same(c1, c2, *orig, scope, io);
            match eval(c1, *orig, scope, io) {
                (Answer::Value(v), io1) => {
                    law_deeper_means_the_same(c1, c2, *ovrd, scope, io1);
                },
                _ => {},
            }
        },
        ExprKind::Match { inp, cases } => {
            law_deeper_means_the_same(c1, c2, *inp, scope, io);
            match eval(c1, *inp, scope, io) {
                (Answer::Value(v), io1) => {
                    match select(cases@, 0, v) {
                        Choice::Taken(i, found) => {
                            law_deeper_means_the_same(c1, c2, cases@[i].body, scope.union_prefer_right(found), io1);
                        },
                        _ => {},
                    }
                },
                _ => {},
            }
        },
        ExprKind::Identifier(id) => {
            if scope.contains_key(id@) {
                match scope[id@] {
                    Val::FixLambda { arg, body } => {
                        law_deeper_means_the_same(
                            c1,
                            c2,
                            body,
                            scope.insert(arg, Val::FixLambda { arg, body }),
                            io,
                        );
                    },
                    _ => {},
                }
            }
        },
        _ => {},
    }
}

/// What a block means does not rest on the depth either.
pub proof fn law_deeper_block_means_the_same<'a>(
    d1: nat,
    d2: nat,
    blk: Block,
    i: int,
    scope: Scope<'a>,
    io: Io<'a>,
)
    requires
        d1 <= d2,
        !(eval_block(d1, blk, i, scope, io).0 is Deep),
    ensures
        eval_block(d2, blk, i, scope, io) == eval_block(d1, blk, i, scope, io),
    decreases d1,
{
    let c1 = (d1 - 1) as nat;
    let c2 = (d2 - 1) as nat;
    if 0 <= i < blk.stmts@.len() {
        law_deeper_means_the_same(c1, c2, blk.stmts@[i], scope, io);
        match eval(c1, blk.stmts@[i], scope, io) {
            (Answer::Value(v), io1) => {
                law_deeper_block_means_the_same(c1, c2, blk, i + 1, scope, io1);
            },
            _ => {},
        }
    } else {
        match blk.term {
            Some(t) => {
                law_deeper_means_the_same(c1, c2, *t, scope, io);
            },
            None => {},
        }
    }
}

proof fn lemma_deeper_parts<'a>(
    d1: nat,
    d2: nat,
    parts: Seq<Expr>,
    i: int,
    text: Seq<char>,
    scope: Scope<'a>,
    io: Io<'a>,
)
    requires
        d1 <= d2,
        !(eval_parts(d1, parts, i, text, scope, io).0 is Deep),
    ensures
        eval_parts(d2, parts, i, text, scope, io) == eval_parts(d1, parts, i, text, scope, io),
    decreases d1,
{
    let c1 = (d1 - 1) as nat;
    let c2 = (d2 - 1) as nat;
    if 0 <= i < parts.len() {
        law_deeper_means_the_same(c1, c2, parts[i], scope, io);
        match eval(c1, parts[i], scope, io) {
            (Answer::Value(v), io1) => {
                match shown(v) {
                    Some(t) => {
                        lemma_deeper_parts(c1, c2, parts, i + 1, text + t, scope, io1);
                    },
                    None => {},
                }
            },
            _ => {},
        }
    }
}

proof fn lemma_deeper_fields<'a>(
    d1: nat,
    d2: nat,
    fields: NameMap<String, Expr>,
    i: int,
    done: Map<Seq<char>, Val<'a>>,
    scope: Scope<'a>,
    io: Io<'a>,
)
    requires
        d1 <= d2,
        !(eval_fields(d1, fields, i, done, scope, io).0 is Deep),
    ensures
        eval_fields(d2, fields, i, done, scope, io) == eval_fields(d1, fields, i, done, scope, io),
    decreases d1,
{
    let c1 = (d1 - 1) as nat;
    let c2 = (d2 - 1) as nat;
    if 0 <= i < fields.spine().len() {
        law_deeper_means_the_same(c1, c2, fields.spine()[i].1, scope, io);
        match eval(c1, fields.spine()[i].1, scope, io) {
            (Answer::Value(v), io1) => {
                lemma_deeper_fields(c1, c2, fields, i + 1, done.insert(fields.spine()[i].0@, v), scope, io1);
            },
            _ => {},
        }
    }
}

proof fn lemma_deeper_call<'a>(d1: nat, d2: nat, prim: Val<'a>, arg: Val<'a>, scope: Scope<'a>, io: Io<'a>)
    requires
        d1 <= d2,
        !(eval_call(d1, prim, arg, scope, io).0 is Deep),
    ensures
        eval_call(d2, prim, arg, scope, io) == eval_call(d1, prim, arg, scope, io),
    decreases d1,
{
    match call(prim, arg) {
        Called::Enter { name, arg, saved, body } => {
            law_deeper_means_the_same(
                (d1 - 1) as nat,
                (d2 - 1) as nat,
                body,
                scope.insert(name, arg).union_prefer_right(saved),
                io,
            );
        },
        _ => {},
    }
}

/// Evaluating an expression asks more and takes replies, in order, one for each request save the one
/// that is waited for.
pub proof fn law_meaning_exchanges<'a>(depth: nat, e: Expr, scope: Scope<'a>, io: Io<'a>)
    requires
        !(eval(depth, e, scope, io).0 is Deep),
    ensures
        io.asked.is_prefix_of(eval(depth, e, scope, io).1.asked),
        eval(depth, e, scope, io).1.replies.is_suffix_of(io.replies),
        eval(depth, e, scope, io).1.asked.len() - io.asked.len() == io.replies.len() - eval(
            depth,
            e,
            scope,
            io,
        ).1.replies.len() + (if eval(depth, e, scope, io).0 is Waiting {
            1int
        } else {
            0
        }),
{
    law_meaning_is_computed(depth, e, scope, io);
    let r = eval(depth, e, scope, io);
    let n = choose|n: nat| ends_within(n, start(e, scope), io, r);
    assert(same_end(advance(n, start(e, scope), io), r));
    law_exchange(n, start(e, scope), io);
}

/// A builtin function takes its arguments one by one: until the last one it is a function still, and
/// with the last one it does its work on all of them, in the order in which they came.
pub proof fn law_builtins_take_their_arguments_one_by_one<'a>(f: Builtin, args: Seq<Val<'a>>, last: Val<'a>)
    ensures
        args.len() + 1 < arity(f) ==> call(Val::Builtin(f, args), last) == Called::Value(
            Val::Builtin(f, args.push(last)),
        ),
        args.len() + 1 == arity(f) ==> call(Val::Builtin(f, args), last) == builtin(f, args.push(last)),
        args.len() + 1 > arity(f) ==> call(Val::Builtin(f, args), last) == Called::<'a>::Stuck(
            Fault::TooManyArguments,
        ),
{
}

/// A field of an updated record is the one of the record that goes over it, where that has one, and
/// the one that it had before where not.
pub proof fn law_update_prefers_the_new_fields<'a>(orig: Val<'a>, ovrd: Val<'a>, key: Seq<char>)
    requires
        orig is Record,
        ovrd is Record,
    ensures
        updated(orig, ovrd) is Ok,
        field(updated(orig, ovrd)->Ok_0, key) == (if field(ovrd, key) is Ok {
            field(ovrd, key)
        } else {
            field(orig, key)
        }),
{
}

/// To update by two records in turn is to update by the first as updated by the second.
pub proof fn law_updates_join<'a>(a: Val<'a>, b: Val<'a>, c: Val<'a>)
    requires
        a is Record,
        b is Record,
        c is Record,
    ensures
        updated(updated(a, b)->Ok_0, c) == updated(a, updated(b, c)->Ok_0),
{
    let x = a->Record_0;
    let y = b->Record_0;
    let z = c->Record_0;
    assert(x.union_prefer_right(y).union_prefer_right(z) =~= x.union_prefer_right(y.union_prefer_right(z)));
}

/// A record is not changed by an update by itself, or by a record without fields.
pub proof fn law_update_by_nothing_new<'a>(a: Val<'a>)
    requires
        a is Record,
    ensures
        updated(a, a) == Ok::<Val<'a>, Fault>(a),
        updated(a, Val::Record(Map::empty())) == Ok::<Val<'a>, Fault>(a),
        updated(Val::Record(Map::empty()), a) == Ok::<Val<'a>, Fault>(a),
{
    let x = a->Record_0;
    assert(x.union_prefer_right(x) =~= x);
    assert(x.union_prefer_right(Map::empty()) =~= x);
    assert(Map::<Seq<char>, Val<'a>>::empty().union_prefer_right(x) =~= x);
}

/// A value that was tagged fits a pattern with that tag just as the value itself fits what the
/// pattern holds.
pub proof fn law_tags_match<'a>(key: Seq<char>, v: Val<'a>, pat: Pattern, found: Scope<'a>)
    requires
        pat is Tagged,
    ensures
        call(Val::Tagger(key), v) == Called::Value(Val::Tagged(key, Box::new(v))),
        fit(pat, Val::Tagged(key, Box::new(v)), found) == (if pat->key.inner@ == key {
            fit(*pat->value, v, found)
        } else {
            Fit::Differs(found)
        }),
{
}

/// The variables that were found, whether or not the value fits.
pub open spec fn found_by<'a>(f: Fit<'a>) -> Scope<'a> {
    match f {
        Fit::Fits(found) => found,
        Fit::Differs(found) => found,
        Fit::Faulty(found) => found,
    }
}

/// A pattern takes away no variable, and leaves those alone that it does not bind, whether or not the
/// value fits.
pub proof fn law_patterns_leave_other_variables_alone<'a>(pat: Pattern, v: Val<'a>, found: Scope<'a>, k: Seq<char>)
    ensures
        found.contains_key(k) ==> found_by(fit(pat, v, found)).contains_key(k),
        !binds(pat, k) ==> found_by(fit(pat, v, found)).contains_key(k) == found.contains_key(k),
        !binds(pat, k) && found.contains_key(k) ==> found_by(fit(pat, v, found))[k] == found[k],
    decreases pat, 0nat,
{
    match pat {
        Pattern::Identifier(id) => {},
        Pattern::Tagged { key, value } => {
            match v {
                Val::Tagged(_, inner) => {
                    law_patterns_leave_other_variables_alone(*value, *inner, found, k);
                    assert(binds(pat, k) == binds(*value, k));
                },
                _ => {},
            }
        },
        Pattern::Record(rec) => {
            match v {
                Val::Record(m) => {
                    lemma_field_patterns_leave_others_alone(rec.inner, 0, m, found, k);
                    if exists|j: int| 0 <= j < rec.inner.spine().len() && binds(rec.inner.spine()[j].1, k) {
                        let j = choose|j: int| 0 <= j < rec.inner.spine().len() && binds(rec.inner.spine()[j].1, k);
                        assert(binds((rec.inner.spine()[j]).1, k));
                    }
                },
                _ => {},
            }
        },
        Pattern::Unit => {},
    }
}

proof fn lemma_field_patterns_leave_others_alone<'a>(
    pats: NameMap<String, Pattern>,
    i: int,
    m: Map<Seq<char>, Val<'a>>,
    found: Scope<'a>,
    k: Seq<char>,
)
    requires
        0 <= i <= pats.spine().len(),
    ensures
        ({
            let after = found_by(fit_fields(pats, i, m, found));
            let bound = exists|j: int| i <= j < pats.spine().len() && binds((#[trigger] pats.spine()[j]).1, k);
            &&& found.contains_key(k) ==> after.contains_key(k)
            &&& !bound ==> after.contains_key(k) == found.contains_key(k)
            &&& !bound && found.contains_key(k) ==> after[k] == found[k]
        }),
    decreases pats, (pats.spine().len() - i) as nat,
{
    if i < pats.spine().len() {
        pats.lemma_values_smaller();
        let key = pats.spine()[i].0@;
        let pat = pats.spine()[i].1;
        if m.contains_key(key) {
            law_patterns_leave_other_variables_alone(pat, m[key], found, k);
            match fit(pat, m[key], found) {
                Fit::Fits(more) => {
                    lemma_field_patterns_leave_others_alone(pats, i + 1, m, more, k);
                },
                _ => {},
            }
        }
    }
}

/// A value of another tag or another kind leaves all as it was found.
pub proof fn law_a_mismatch_finds_nothing<'a>(pat: Pattern, v: Val<'a>, found: Scope<'a>)
    requires
        mismatched(pat, v),
    ensures
        fit(pat, v, found) == (if pat is Unit {
            Fit::Faulty(found)
        } else {
            Fit::Differs(found)
        }),
{
}

/// A match takes an alternative whose pattern fits, and none that stands before it fits.
pub proof fn law_match_takes_the_first_that_fits<'a>(cases: Seq<Case>, i: int, v: Val<'a>)
    requires
        0 <= i,
    ensures
        match select(cases, i, v) {
            Choice::Taken(at, found) => i <= at < cases.len() && fit(cases[at].pat, v, Map::empty()) == Fit::Fits(found)
                && forall|j: int| i <= j < at ==> fit(#[trigger] cases[j].pat, v, Map::empty()) is Differs,
            Choice::Stuck(f) => f != Fault::NoCaseFits || forall|j: int|
                i <= j < cases.len() ==> fit(#[trigger] cases[j].pat, v, Map::empty()) is Differs,
        },
    decreases cases.len() - i,
{
    if i < cases.len() {
        if fit(cases[i].pat, v, Map::empty()) is Differs {
            law_match_takes_the_first_that_fits(cases, i + 1, v);
        }
    }
}

} // verus!
