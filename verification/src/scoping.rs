//! Laws of scoping: which of the variables in sight matter to an evaluation.
use crate::adequacy::worker_scope;
use crate::names::NameMap;
use crate::semantics::{
    ask, call, captured, eval, eval_block, eval_call, eval_fields, eval_parts, fit, fit_fields, select, shown, Answer,
    Called, Choice, Fit, Io, Rep, Req, Scope,
};
use crate::syntax::{accesses, binds, block_accesses, Block, Case, Expr, ExprKind, Pattern};
use crate::value::{Builtin, Val};
use vstd::prelude::*;

verus! {

/// The expression defines nothing recursively.
pub open spec fn straight(e: ExprKind) -> bool
    decreases e,
{
    match e {
        ExprKind::Let { lhs, rhs, rest } => straight(rhs.inner) && straight_block(rest),
        ExprKind::Block(blk) => straight_block(blk),
        ExprKind::If { cond, then_blk, or_else } => straight(cond.inner) && straight_block(then_blk) && straight_block(
            or_else,
        ),
        ExprKind::Lambda { arg, body } => straight(body.inner),
        ExprKind::Call { prim, arg } => straight(prim.inner) && straight(arg.inner),
        ExprKind::Dot { prim, key } => straight(prim.inner),
        ExprKind::Fix { arg, body } => false,
        ExprKind::FormatString(parts) => forall|i: int| 0 <= i < parts@.len() ==> straight((#[trigger] parts@[i]).inner),
        ExprKind::Record(fields) => {
            proof {
                fields.lemma_values_smaller();
            }
            forall|i: int| 0 <= i < fields.spine().len() ==> straight((#[trigger] fields.spine()[i]).1.inner)
        },
        ExprKind::Update { orig, ovrd } => straight(orig.inner) && straight(ovrd.inner),
        ExprKind::Match { inp, cases } => straight(inp.inner) && forall|i: int|
            0 <= i < cases@.len() ==> straight((#[trigger] cases@[i]).body.inner),
        _ => true,
    }
}

/// The block defines nothing recursively.
pub open spec fn straight_block(blk: Block) -> bool
    decreases blk,
{
    &&& forall|i: int| 0 <= i < blk.stmts@.len() ==> straight((#[trigger] blk.stmts@[i]).inner)
    &&& match blk.term {
        Some(t) => straight(t.inner),
        None => true,
    }
}

/// All functions in the value define nothing recursively, and have taken along all that they read.
pub open spec fn closed_value<'a>(v: Val<'a>) -> bool
    decreases v,
{
    match v {
        Val::Record(m) => closed_scope(m),
        Val::Tagged(key, x) => closed_value(*x),
        Val::Builtin(f, args) => closed_values(args),
        Val::Lambda { arg, body, saved } => straight(body.inner) && closed_scope(saved) && forall|k: Seq<char>| #[trigger]
            accesses(body.inner, k) ==> k == arg || saved.contains_key(k),
        Val::FixLambda { arg, body } => false,
        _ => true,
    }
}

/// So do all functions in the values.
pub open spec fn closed_values<'a>(s: Seq<Val<'a>>) -> bool
    decreases s,
{
    forall|i: int| 0 <= i < s.len() ==> closed_value(#[trigger] s[i])
}

/// So do all functions in the values of the variables, which are finitely many.
pub open spec fn closed_scope<'a>(m: Scope<'a>) -> bool
    decreases m,
{
    &&& m.dom().finite()
    &&& forall|k: Seq<char>| #[trigger] m.dom().contains(k) ==> closed_value(m[k])
}

/// So do all functions in the replies to come.
pub open spec fn closed_replies<'a>(replies: Seq<Rep<'a>>) -> bool {
    forall|i: int|
        0 <= i < replies.len() ==> (#[trigger] replies[i] matches Rep::Received(Some(v)) ==> closed_value(v))
}

/// Two scopes with the same values for all that an expression reads.
pub open spec fn agree<'a>(e: Expr, s: Scope<'a>, t: Scope<'a>) -> bool {
    &&& straight(e.inner)
    &&& closed_scope(s)
    &&& closed_scope(t)
    &&& forall|k: Seq<char>| #[trigger]
        accesses(e.inner, k) ==> s.contains_key(k) && t.contains_key(k) && s[k] == t[k]
}

/// Two scopes with the same values for all that a block reads.
pub open spec fn agree_block<'a>(blk: Block, s: Scope<'a>, t: Scope<'a>) -> bool {
    &&& straight_block(blk)
    &&& closed_scope(s)
    &&& closed_scope(t)
    &&& forall|k: Seq<char>| #[trigger]
        block_accesses(blk, k) ==> s.contains_key(k) && t.contains_key(k) && s[k] == t[k]
}

/// An evaluation that ends with such a value, and leaves such replies.
pub open spec fn ends_closed<'a>(r: (Answer<'a>, Io<'a>)) -> bool {
    &&& r.0 matches Answer::Value(v) ==> closed_value(v)
    &&& closed_replies(r.1.replies)
}

proof fn lemma_closed_insert<'a>(s: Scope<'a>, k: Seq<char>, v: Val<'a>)
    requires
        closed_scope(s),
        closed_value(v),
    ensures
        closed_scope(s.insert(k, v)),
{
    assert forall|j: Seq<char>| #[trigger] s.insert(k, v).dom().contains(j) implies closed_value(s.insert(k, v)[j]) by {
        if j != k {
            assert(s.dom().contains(j));
        }
    }
}

proof fn lemma_closed_union<'a>(s: Scope<'a>, t: Scope<'a>)
    requires
        closed_scope(s),
        closed_scope(t),
    ensures
        closed_scope(s.union_prefer_right(t)),
{
    let u = s.union_prefer_right(t);
    assert(u.dom() =~= s.dom().union(t.dom()));
    assert forall|j: Seq<char>| #[trigger] u.dom().contains(j) implies closed_value(u[j]) by {
        if t.dom().contains(j) {
            assert(u[j] == t[j]);
        } else {
            assert(s.dom().contains(j));
        }
    }
}

/// A pattern that fits binds its variables, to parts of the value.
proof fn lemma_fit<'a>(pat: Pattern, v: Val<'a>, found: Scope<'a>)
    requires
        closed_value(v),
        closed_scope(found),
        fit(pat, v, found) is Fits,
    ensures
        closed_scope(fit(pat, v, found)->Fits_0),
        forall|k: Seq<char>| found.contains_key(k) ==> #[trigger] fit(pat, v, found)->Fits_0.contains_key(k),
        forall|k: Seq<char>| #[trigger] binds(pat, k) ==> fit(pat, v, found)->Fits_0.contains_key(k),
    decreases pat, 0nat,
{
    match pat {
        Pattern::Identifier(id) => {
            lemma_closed_insert(found, id.inner@, v);
        },
        Pattern::Tagged { key, value } => {
            lemma_fit(*value, *v->Tagged_1, found);
            assert forall|k: Seq<char>| #[trigger] binds(pat, k) implies fit(pat, v, found)->Fits_0.contains_key(k) by {
                assert(binds(*value, k));
            }
        },
        Pattern::Record(rec) => {
            lemma_fit_fields(rec.inner, 0, v->Record_0, found);
            assert forall|k: Seq<char>| #[trigger] binds(pat, k) implies fit(pat, v, found)->Fits_0.contains_key(k) by {
                let i = choose|i: int|
                    0 <= i < rec.inner.spine().len() && binds((#[trigger] rec.inner.spine()[i]).1, k);
                assert(0 <= i < rec.inner.spine().len() && binds(rec.inner.spine()[i].1, k));
            }
        },
        Pattern::Unit => {},
    }
}

proof fn lemma_fit_fields<'a>(pats: NameMap<String, Pattern>, i: int, m: Map<Seq<char>, Val<'a>>, found: Scope<'a>)
    requires
        0 <= i <= pats.spine().len(),
        closed_scope(m),
        closed_scope(found),
        fit_fields(pats, i, m, found) is Fits,
    ensures
        closed_scope(fit_fields(pats, i, m, found)->Fits_0),
        forall|k: Seq<char>|
            found.contains_key(k) ==> #[trigger] fit_fields(pats, i, m, found)->Fits_0.contains_key(k),
        forall|j: int, k: Seq<char>|
            i <= j < pats.spine().len() && #[trigger] binds(pats.spine()[j].1, k) ==> fit_fields(
                pats,
                i,
                m,
                found,
            )->Fits_0.contains_key(k),
    decreases pats, (pats.spine().len() - i) as nat,
{
    if i < pats.spine().len() {
        pats.lemma_values_smaller();
        let key = pats.spine()[i].0@;
        let pat = pats.spine()[i].1;
        assert(m.dom().contains(key));
        lemma_fit(pat, m[key], found);
        let more = fit(pat, m[key], found)->Fits_0;
        lemma_fit_fields(pats, i + 1, m, more);
        let all = fit_fields(pats, i, m, found)->Fits_0;
        assert(all == fit_fields(pats, i + 1, m, more)->Fits_0);
        assert forall|j: int, k: Seq<char>|
            i <= j < pats.spine().len() && #[trigger] binds(pats.spine()[j].1, k) implies all.contains_key(k) by {
            if j == i {
                assert(more.contains_key(k));
            }
        }
        assert forall|k: Seq<char>| found.contains_key(k) implies #[trigger] all.contains_key(k) by {
            assert(more.contains_key(k));
        }
    }
}

proof fn lemma_select<'a>(cases: Seq<Case>, i: int, v: Val<'a>)
    requires
        0 <= i,
        closed_value(v),
        select(cases, i, v) is Taken,
    ensures
        0 <= select(cases, i, v)->Taken_0 < cases.len(),
        closed_scope(select(cases, i, v)->Taken_1),
        forall|k: Seq<char>| #[trigger]
            binds(cases[select(cases, i, v)->Taken_0].pat, k) ==> select(cases, i, v)->Taken_1.contains_key(k),
    decreases cases.len() - i,
{
    if i < cases.len() {
        match fit(cases[i].pat, v, Map::empty()) {
            Fit::Fits(found) => {
                lemma_fit(cases[i].pat, v, Map::empty());
            },
            Fit::Differs(_) => {
                lemma_select(cases, i + 1, v);
            },
            Fit::Faulty(_) => {},
        }
    }
}

proof fn lemma_ask<'a>(q: Req<'a>, io: Io<'a>)
    requires
        closed_replies(io.replies),
    ensures
        ends_closed(ask(q, io)),
{
    if io.replies.len() > 0 {
        let r = io.replies[0];
        let rest = io.replies.drop_first();
        assert forall|i: int| 0 <= i < rest.len() implies (#[trigger] rest[i] matches Rep::Received(Some(v))
            ==> closed_value(v)) by {
            assert(rest[i] == io.replies[i + 1]);
        }
        assert(closed_replies(rest));
        match (q, r) {
            (Req::ChanRecv(rx), Rep::Received(Some(v))) => {
                assert(closed_value(v));
            },
            (Req::ChanRecv(rx), Rep::Received(None)) => {
                assert(closed_value(Val::<'a>::Unit));
            },
            (Req::MakeChan, Rep::Channel(tx, rx)) => {
                let none = Map::<Seq<char>, Val<'a>>::empty();
                lemma_closed_insert(none, "send"@, Val::ChanSend(tx));
                let one = none.insert("send"@, Val::ChanSend(tx));
                lemma_closed_insert(one, "recv"@, Val::ChanRecv(rx));
                assert(closed_value(Val::Record(one.insert("recv"@, Val::ChanRecv(rx)))));
            },
            _ => {},
        }
    }
}

proof fn lemma_called<'a>(prim: Val<'a>, arg: Val<'a>)
    requires
        closed_value(prim),
        closed_value(arg),
        call(prim, arg) is Value,
    ensures
        closed_value(call(prim, arg)->Value_0),
{
    match prim {
        Val::Builtin(f, args) => {
            let all = args.push(arg);
            assert(closed_values(args));
            assert forall|i: int| 0 <= i < all.len() implies closed_value(#[trigger] all[i]) by {
                if i < args.len() {
                    assert(all[i] == args[i]);
                }
            }
            assert(closed_values(all));
        },
        _ => {},
    }
}

/// In a program without recursion, evaluation rests on the variables that the expression reads and
/// on no others, whatever functions it calls.
pub proof fn law_only_what_is_read_matters<'a>(d: nat, e: Expr, s: Scope<'a>, t: Scope<'a>, io: Io<'a>)
    requires
        agree(e, s, t),
        closed_replies(io.replies),
    ensures
        eval(d, e, s, io) == eval(d, e, t, io),
        ends_closed(eval(d, e, s, io)),
    decreases d,
{
    if d > 0 {
        let c = (d - 1) as nat;
        match e.inner {
            ExprKind::Let { lhs, rhs, rest } => {
                lemma_part(e, *rhs, s, t);
                law_only_what_is_read_matters(c, *rhs, s, t, io);
                match eval(c, *rhs, s, io) {
                    (Answer::Value(v), io1) => {
                        lemma_closed_insert(s, lhs.inner@, v);
                        lemma_closed_insert(t, lhs.inner@, v);
                        let s1 = s.insert(lhs.inner@, v);
                        let t1 = t.insert(lhs.inner@, v);
                        assert forall|k: Seq<char>| #[trigger] block_accesses(rest, k) implies s1.contains_key(k)
                            && t1.contains_key(k) && s1[k] == t1[k] by {
                            if k != lhs.inner@ {
                                assert(accesses(e.inner, k));
                            }
                        }
                        lemma_block_matters(c, rest, 0, s1, t1, io1);
                    },
                    _ => {},
                }
            },
            ExprKind::Block(blk) => {
                lemma_part_block(e, blk, s, t);
                lemma_block_matters(c, blk, 0, s, t, io);
            },
            ExprKind::If { cond, then_blk, or_else } => {
                lemma_part(e, *cond, s, t);
                law_only_what_is_read_matters(c, *cond, s, t, io);
                match eval(c, *cond, s, io) {
                    (Answer::Value(Val::Boolean(b)), io1) => {
                        let blk = if b {
                            then_blk
                        } else {
                            or_else
                        };
                        lemma_part_block(e, blk, s, t);
                        lemma_block_matters(c, blk, 0, s, t, io1);
                    },
                    _ => {},
                }
            },
            ExprKind::Lambda { arg, body } => {
                let a = captured(s, arg@, *body);
                let b = captured(t, arg@, *body);
                assert forall|k: Seq<char>| #[trigger] a.contains_key(k) == b.contains_key(k) && (a.contains_key(k)
                    ==> a[k] == b[k]) by {
                    if k != arg@ && accesses(body.inner, k) {
                        assert(accesses(e.inner, k));
                    }
                }
                assert(a =~= b);
                vstd::set_lib::lemma_len_subset(a.dom(), s.dom());
                assert forall|k: Seq<char>| #[trigger] a.dom().contains(k) implies closed_value(a[k]) by {
                    assert(s.dom().contains(k));
                }
                assert(closed_scope(a));
                assert(straight(body.inner));
                assert forall|k: Seq<char>| #[trigger] accesses(body.inner, k) implies k == arg@ || a.contains_key(
                    k,
                ) by {
                    if k != arg@ {
                        assert(accesses(e.inner, k));
                    }
                }
                assert(closed_value(Val::Lambda { arg: arg@, body: *body, saved: a }));
            },
            ExprKind::Call { prim, arg } => {
                lemma_part(e, *arg, s, t);
                law_only_what_is_read_matters(c, *arg, s, t, io);
                match eval(c, *arg, s, io) {
                    (Answer::Value(v_arg), io1) => {
                        lemma_part(e, *prim, s, t);
                        law_only_what_is_read_matters(c, *prim, s, t, io1);
                        match eval(c, *prim, s, io1) {
                            (Answer::Value(v_prim), io2) => {
                                lemma_call_matters(c, v_prim, v_arg, s, t, io2);
                            },
                            _ => {},
                        }
                    },
                    _ => {},
                }
            },
            ExprKind::Dot { prim, key } => {
                lemma_part(e, *prim, s, t);
                law_only_what_is_read_matters(c, *prim, s, t, io);
                match eval(c, *prim, s, io) {
                    (Answer::Value(Val::Record(m)), io1) => {
                        assert(closed_scope(m));
                        if m.contains_key(key.inner@) {
                            assert(m.dom().contains(key.inner@));
                        }
                    },
                    _ => {},
                }
            },
            ExprKind::FormatString(parts) => {
                assert forall|i: int| 0 <= i < parts@.len() implies agree(#[trigger] parts@[i], s, t) by {
                    lemma_part(e, parts@[i], s, t);
                }
                lemma_parts_matter(c, parts@, 0, Seq::empty(), s, t, io);
            },
            ExprKind::Record(fields) => {
                assert forall|i: int| 0 <= i < fields.spine().len() implies agree(
                    (#[trigger] fields.spine()[i]).1,
                    s,
                    t,
                ) by {
                    lemma_part(e, fields.spine()[i].1, s, t);
                }
                lemma_fields_matter(c, fields, 0, Map::empty(), s, t, io);
            },
            ExprKind::Update { orig, ovrd } => {
                lemma_part(e, *orig, s, t);
                law_only_what_is_read_matters(c, *orig, s, t, io);
                match eval(c, *orig, s, io) {
                    (Answer::Value(v), io1) => {
                        lemma_part(e, *ovrd, s, t);
                        law_only_what_is_read_matters(c, *ovrd, s, t, io1);
                        match (v, eval(c, *ovrd, s, io1).0) {
                            (Val::Record(under), Answer::Value(Val::Record(over))) => {
                                lemma_closed_union(under, over);
                                assert(closed_value(Val::Record(under.union_prefer_right(over))));
                            },
                            _ => {},
                        }
                    },
                    _ => {},
                }
            },
            ExprKind::Match { inp, cases } => {
                lemma_part(e, *inp, s, t);
                law_only_what_is_read_matters(c, *inp, s, t, io);
                match eval(c, *inp, s, io) {
                    (Answer::Value(v), io1) => {
                        match select(cases@, 0, v) {
                            Choice::Taken(i, found) => {
                                lemma_select(cases@, 0, v);
                                lemma_closed_union(s, found);
                                lemma_closed_union(t, found);
                                let s1 = s.union_prefer_right(found);
                                let t1 = t.union_prefer_right(found);
                                assert forall|k: Seq<char>| #[trigger]
                                    accesses(cases@[i].body.inner, k) implies s1.contains_key(k) && t1.contains_key(k)
                                    && s1[k] == t1[k] by {
                                    if binds(cases@[i].pat, k) {
                                        assert(found.contains_key(k));
                                    } else {
                                        assert(accesses(e.inner, k));
                                    }
                                }
                                law_only_what_is_read_matters(c, cases@[i].body, s1, t1, io1);
                            },
                            _ => {},
                        }
                    },
                    _ => {},
                }
            },
            ExprKind::Identifier(id) => {
                assert(accesses(e.inner, id@));
                assert(s.dom().contains(id@));
            },
            _ => {},
        }
    }
}

/// What a part of an expression reads is read by the expression, where the part binds no variable.
proof fn lemma_part<'a>(e: Expr, part: Expr, s: Scope<'a>, t: Scope<'a>)
    requires
        agree(e, s, t),
        straight(part.inner),
        forall|k: Seq<char>| #[trigger] accesses(part.inner, k) ==> accesses(e.inner, k),
    ensures
        agree(part, s, t),
{
}

proof fn lemma_part_block<'a>(e: Expr, blk: Block, s: Scope<'a>, t: Scope<'a>)
    requires
        agree(e, s, t),
        straight_block(blk),
        forall|k: Seq<char>| #[trigger] block_accesses(blk, k) ==> accesses(e.inner, k),
    ensures
        agree_block(blk, s, t),
{
}

proof fn lemma_block_matters<'a>(d: nat, blk: Block, i: int, s: Scope<'a>, t: Scope<'a>, io: Io<'a>)
    requires
        0 <= i,
        agree_block(blk, s, t),
        closed_replies(io.replies),
    ensures
        eval_block(d, blk, i, s, io) == eval_block(d, blk, i, t, io),
        ends_closed(eval_block(d, blk, i, s, io)),
    decreases d,
{
    if d > 0 {
        let c = (d - 1) as nat;
        if i < blk.stmts@.len() {
            let e = blk.stmts@[i];
            assert forall|k: Seq<char>| #[trigger] accesses(e.inner, k) implies s.contains_key(k) && t.contains_key(k)
                && s[k] == t[k] by {
                assert(block_accesses(blk, k));
            }
            law_only_what_is_read_matters(c, e, s, t, io);
            match eval(c, e, s, io) {
                (Answer::Value(_), io1) => {
                    lemma_block_matters(c, blk, i + 1, s, t, io1);
                },
                _ => {},
            }
        } else {
            match blk.term {
                Some(x) => {
                    assert forall|k: Seq<char>| #[trigger] accesses(x.inner, k) implies s.contains_key(k)
                        && t.contains_key(k) && s[k] == t[k] by {
                        assert(block_accesses(blk, k));
                    }
                    law_only_what_is_read_matters(c, *x, s, t, io);
                },
                None => {},
            }
        }
    }
}

proof fn lemma_parts_matter<'a>(
    d: nat,
    parts: Seq<Expr>,
    i: int,
    text: Seq<char>,
    s: Scope<'a>,
    t: Scope<'a>,
    io: Io<'a>,
)
    requires
        0 <= i,
        forall|j: int| 0 <= j < parts.len() ==> agree(#[trigger] parts[j], s, t),
        closed_replies(io.replies),
    ensures
        eval_parts(d, parts, i, text, s, io) == eval_parts(d, parts, i, text, t, io),
        ends_closed(eval_parts(d, parts, i, text, s, io)),
    decreases d,
{
    if d > 0 && i < parts.len() {
        let c = (d - 1) as nat;
        law_only_what_is_read_matters(c, parts[i], s, t, io);
        match eval(c, parts[i], s, io) {
            (Answer::Value(v), io1) => {
                match shown(v) {
                    Some(x) => {
                        lemma_parts_matter(c, parts, i + 1, text + x, s, t, io1);
                    },
                    None => {},
                }
            },
            _ => {},
        }
    }
}

proof fn lemma_fields_matter<'a>(
    d: nat,
    fields: NameMap<String, Expr>,
    i: int,
    done: Map<Seq<char>, Val<'a>>,
    s: Scope<'a>,
    t: Scope<'a>,
    io: Io<'a>,
)
    requires
        0 <= i,
        closed_scope(done),
        forall|j: int| 0 <= j < fields.spine().len() ==> agree((#[trigger] fields.spine()[j]).1, s, t),
        closed_replies(io.replies),
    ensures
        eval_fields(d, fields, i, done, s, io) == eval_fields(d, fields, i, done, t, io),
        ends_closed(eval_fields(d, fields, i, done, s, io)),
    decreases d,
{
    if d > 0 && i < fields.spine().len() {
        let c = (d - 1) as nat;
        law_only_what_is_read_matters(c, fields.spine()[i].1, s, t, io);
        match eval(c, fields.spine()[i].1, s, io) {
            (Answer::Value(v), io1) => {
                lemma_closed_insert(done, fields.spine()[i].0@, v);
                lemma_fields_matter(c, fields, i + 1, done.insert(fields.spine()[i].0@, v), s, t, io1);
            },
            _ => {},
        }
    }
}

proof fn lemma_call_matters<'a>(d: nat, prim: Val<'a>, arg: Val<'a>, s: Scope<'a>, t: Scope<'a>, io: Io<'a>)
    requires
        closed_value(prim),
        closed_value(arg),
        closed_scope(s),
        closed_scope(t),
        closed_replies(io.replies),
    ensures
        eval_call(d, prim, arg, s, io) == eval_call(d, prim, arg, t, io),
        ends_closed(eval_call(d, prim, arg, s, io)),
    decreases d,
{
    if d > 0 {
        match call(prim, arg) {
            Called::Value(v) => {
                lemma_called(prim, arg);
            },
            Called::Ask(q) => {
                lemma_ask(q, io);
            },
            Called::Enter { name, arg, saved, body } => {
                lemma_closed_insert(s, name, arg);
                lemma_closed_insert(t, name, arg);
                lemma_closed_union(s.insert(name, arg), saved);
                lemma_closed_union(t.insert(name, arg), saved);
                law_only_what_is_read_matters(
                    (d - 1) as nat,
                    body,
                    s.insert(name, arg).union_prefer_right(saved),
                    t.insert(name, arg).union_prefer_right(saved),
                    io,
                );
            },
            Called::Stuck(f) => {},
        }
    }
}

/// The work of a thread rests on what its function took along and on nothing else: in a program
/// without recursion, it is a call of the function with unit, wherever that would be made.
pub proof fn law_a_worker_needs_only_what_it_took_along<'a>(
    d: nat,
    arg: Seq<char>,
    body: Expr,
    saved: Scope<'a>,
    s: Scope<'a>,
    io: Io<'a>,
)
    requires
        d > 0,
        closed_value(Val::Lambda { arg, body, saved }),
        closed_scope(s),
        closed_replies(io.replies),
    ensures
        eval((d - 1) as nat, body, worker_scope(arg, saved), io) == eval_call(
            d,
            Val::Lambda { arg, body, saved },
            Val::Unit,
            s,
            io,
        ),
{
    let none = Map::<Seq<char>, Val<'a>>::empty();
    lemma_call_matters(d, Val::Lambda { arg, body, saved }, Val::Unit, none, s, io);
}

} // verus!
