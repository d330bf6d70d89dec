//! Laws of evaluation: how what an expression means comes from what its parts mean, and which
//! expressions mean the same.
use crate::adequacy::worker_scope;
use crate::meaning::law_deeper_means_the_same;
use crate::names::{lemma_increasing_distinct, names_of, NameMap};
use crate::semantics::{
    eval, eval_block, eval_call, eval_fields, eval_parts, select, shown, Answer, Choice, Fault, Io, Scope,
};
use crate::syntax::{accesses, Block, Case, Expr, ExprKind, Identifier, Pattern};
use crate::value::Val;
use vstd::prelude::*;

verus! {

/// The first of some expressions have the given values, evaluated one after the other; `ios` is the
/// exchange before each of them, and after the last.
pub open spec fn valued<'a>(d: nat, es: Seq<Expr>, scope: Scope<'a>, ios: Seq<Io<'a>>, vs: Seq<Val<'a>>) -> bool {
    &&& vs.len() <= es.len()
    &&& ios.len() == vs.len() + 1
    &&& forall|i: int|
        0 <= i < vs.len() ==> eval(d, #[trigger] es[i], scope, ios[i]) == (Answer::Value(vs[i]), ios[i + 1])
}

/// All of them have values, or the one behind those that have does not.
pub open spec fn stops_after<'a>(d: nat, es: Seq<Expr>, scope: Scope<'a>, ios: Seq<Io<'a>>, vs: Seq<Val<'a>>) -> bool {
    vs.len() < es.len() ==> !(eval(d, es[vs.len() as int], scope, ios.last()).0 is Value)
}

/// What a branch means is what its block means: an `if` whose condition has a boolean value means, from
/// there on, what the block of the branch taken means on its own, all its statements included; where
/// the condition has another value, or none, no branch is run.
pub proof fn law_if_means_its_branch<'a>(
    d: nat,
    e: Expr,
    cond: Expr,
    yes: Block,
    no: Block,
    yes_alone: Expr,
    no_alone: Expr,
    scope: Scope<'a>,
    io: Io<'a>,
)
    requires
        e.inner == (ExprKind::If { cond: Box::new(cond), then_blk: yes, or_else: no }),
        yes_alone.inner == ExprKind::Block(yes),
        no_alone.inner == ExprKind::Block(no),
    ensures
        ({
            let (c, io1) = eval(d, cond, scope, io);
            &&& c == Answer::<'a>::Value(Val::Boolean(true)) ==> eval(d + 1, e, scope, io) == eval(
                d + 1,
                yes_alone,
                scope,
                io1,
            )
            &&& c == Answer::<'a>::Value(Val::Boolean(false)) ==> eval(d + 1, e, scope, io) == eval(
                d + 1,
                no_alone,
                scope,
                io1,
            )
            &&& c is Value && !(c->Value_0 is Boolean) ==> eval(d + 1, e, scope, io) == (
                Answer::<'a>::Fault(Fault::ConditionNotBoolean),
                io1,
            )
            &&& !(c is Value) ==> eval(d + 1, e, scope, io) == (c, io1)
        }),
{
}

/// The two branches of an `if` change places where the condition is negated.
pub proof fn law_negated_conditions_swap_branches<'a>(
    d: nat,
    e: Expr,
    f: Expr,
    cond: Expr,
    negated: Expr,
    yes: Block,
    no: Block,
    scope: Scope<'a>,
    io: Io<'a>,
)
    requires
        e.inner == (ExprKind::If { cond: Box::new(cond), then_blk: yes, or_else: no }),
        f.inner == (ExprKind::If { cond: Box::new(negated), then_blk: no, or_else: yes }),
        eval(d, cond, scope, io).0 is Value,
        eval(d, cond, scope, io).0->Value_0 is Boolean,
        eval(d, negated, scope, io) == (
            Answer::<'a>::Value(Val::Boolean(!eval(d, cond, scope, io).0->Value_0->Boolean_0)),
            eval(d, cond, scope, io).1,
        ),
    ensures
        eval(d + 1, e, scope, io) == eval(d + 1, f, scope, io),
{
}

/// Statements that have values are passed over, one after the other.
proof fn lemma_statements<'a>(
    d: nat,
    k: nat,
    blk: Block,
    i: int,
    scope: Scope<'a>,
    ios: Seq<Io<'a>>,
    vs: Seq<Val<'a>>,
)
    requires
        0 <= i <= vs.len(),
        valued(d, blk.stmts@, scope, ios, vs),
    ensures
        eval_block((d + 1 + k + vs.len() - i) as nat, blk, i, scope, ios[i]) == eval_block(
            d + 1 + k,
            blk,
            vs.len() as int,
            scope,
            ios.last(),
        ),
    decreases vs.len() - i,
{
    if i < vs.len() {
        let c = (d + k + vs.len() - i) as nat;
        let s = blk.stmts@[i];
        assert(eval(d, s, scope, ios[i]) == (Answer::Value(vs[i]), ios[i + 1]));
        law_deeper_means_the_same(d, c, s, scope, ios[i]);
        lemma_statements(d, k, blk, i + 1, scope, ios, vs);
    }
}

/// A block runs all its statements, in order, each in the scope of the block and with the exchange as
/// the one before left it; the value of the block is that of its term, evaluated last, or unit. The
/// first statement without a value ends the block as it ended itself.
pub proof fn law_blocks_run_all_their_statements<'a>(
    d: nat,
    e: Expr,
    blk: Block,
    scope: Scope<'a>,
    ios: Seq<Io<'a>>,
    vs: Seq<Val<'a>>,
)
    requires
        e.inner == ExprKind::Block(blk),
        valued(d, blk.stmts@, scope, ios, vs),
        stops_after(d, blk.stmts@, scope, ios, vs),
    ensures
        eval(d + vs.len() + 2, e, scope, ios[0]) == eval_block(d + vs.len() + 1, blk, 0, scope, ios[0]),
        eval(d + vs.len() + 2, e, scope, ios[0]) == (if vs.len() < blk.stmts@.len() {
            eval(d, blk.stmts@[vs.len() as int], scope, ios.last())
        } else {
            match blk.term {
                Some(t) => eval(d, *t, scope, ios.last()),
                None => (Answer::Value(Val::Unit), ios.last()),
            }
        }),
{
    lemma_statements(d, 0, blk, 0, scope, ios, vs);
}

/// To run a block is to evaluate it as an expression.
pub proof fn law_a_block_is_an_expression<'a>(d: nat, e: Expr, blk: Block, scope: Scope<'a>, io: Io<'a>)
    requires
        e.inner == ExprKind::Block(blk),
    ensures
        eval_block(d, blk, 0, scope, io) == eval(d + 1, e, scope, io),
{
}

/// A block without statements means its term.
pub proof fn law_a_block_of_a_term_means_the_term<'a>(d: nat, e: Expr, blk: Block, scope: Scope<'a>, io: Io<'a>)
    requires
        e.inner == ExprKind::Block(blk),
        blk.stmts@.len() == 0,
    ensures
        blk.term matches Some(t) ==> eval(d + 2, e, scope, io) == eval(d, *t, scope, io),
        blk.term is None ==> eval(d + 2, e, scope, io) == (Answer::<'a>::Value(Val::Unit), io),
{
    assert(eval(d + 2, e, scope, io) == eval_block(d + 1, blk, 0, scope, io));
}

/// A binding evaluates its right side once, in the scope around it, and means what the rest means as a
/// block where the name has that value; a right side without a value ends the binding.
pub proof fn law_let_means_its_rest<'a>(
    d: nat,
    e: Expr,
    lhs: Identifier,
    rhs: Expr,
    rest: Block,
    rest_alone: Expr,
    scope: Scope<'a>,
    io: Io<'a>,
)
    requires
        e.inner == (ExprKind::Let { lhs, rhs: Box::new(rhs), rest }),
        rest_alone.inner == ExprKind::Block(rest),
    ensures
        match eval(d, rhs, scope, io) {
            (Answer::Value(v), io1) => eval(d + 1, e, scope, io) == eval(
                d + 1,
                rest_alone,
                scope.insert(lhs.inner@, v),
                io1,
            ),
            r => eval(d + 1, e, scope, io) == r,
        },
{
}

/// A binding means what the call of a function does whose body is the rest: `let x = r; b` is
/// `(\x b) r`.
pub proof fn law_let_is_a_call<'a>(
    d: nat,
    bind: Expr,
    called: Expr,
    f: Expr,
    lhs: Identifier,
    rhs: Expr,
    rest: Block,
    body: Expr,
    scope: Scope<'a>,
    io: Io<'a>,
)
    requires
        bind.inner == (ExprKind::Let { lhs, rhs: Box::new(rhs), rest }),
        called.inner == (ExprKind::Call { prim: Box::new(f), arg: Box::new(rhs) }),
        f.inner == (ExprKind::Lambda { arg: lhs.inner, body: Box::new(body) }),
        body.inner == ExprKind::Block(rest),
        !(eval(d, bind, scope, io).0 is Deep),
    ensures
        eval(d + 2, called, scope, io) == eval(d, bind, scope, io),
{
    let c = (d - 1) as nat;
    match eval(c, rhs, scope, io) {
        (Answer::Value(v), io1) => {
            law_deeper_means_the_same(c, d + 1, rhs, scope, io);
            law_called_where_it_is_written((d + 1) as nat, f, lhs.inner, body, v, scope, io1);
            let inner = scope.insert(lhs.inner@, v);
            assert(eval(d, body, inner, io1) == eval(d, bind, scope, io));
        },
        _ => {
            law_deeper_means_the_same(c, d + 1, rhs, scope, io);
        },
    }
}

/// A function that is called where it is written runs its body in the scope around it, where its
/// argument has the value it is called with.
pub proof fn law_called_where_it_is_written<'a>(
    d: nat,
    f: Expr,
    arg: String,
    body: Expr,
    v: Val<'a>,
    scope: Scope<'a>,
    io: Io<'a>,
)
    requires
        d > 0,
        f.inner == (ExprKind::Lambda { arg, body: Box::new(body) }),
    ensures
        eval(d, f, scope, io).0 is Value,
        eval(d, f, scope, io).1 == io,
        eval_call(d, eval(d, f, scope, io).0->Value_0, v, scope, io) == eval(
            (d - 1) as nat,
            body,
            scope.insert(arg@, v),
            io,
        ),
{
    let saved = eval(d, f, scope, io).0->Value_0->saved;
    assert(scope.insert(arg@, v).union_prefer_right(saved) =~= scope.insert(arg@, v));
}

/// A function keeps what it reads: wherever it is called, its body runs where its argument has the
/// value it is called with, the variables that it reads and that were in sight where it was written
/// have the values they had there, and all others are as they are in sight at the call.
pub proof fn law_functions_keep_what_they_read<'a>(
    d: nat,
    f: Expr,
    arg: String,
    body: Expr,
    v: Val<'a>,
    written: Scope<'a>,
    at_call: Scope<'a>,
    inside: Scope<'a>,
    io: Io<'a>,
    io1: Io<'a>,
)
    requires
        d > 0,
        f.inner == (ExprKind::Lambda { arg, body: Box::new(body) }),
        forall|k: Seq<char>|
            #![trigger inside.contains_key(k)]
            inside.contains_key(k) == (k == arg@ || at_call.contains_key(k) || (written.contains_key(k) && accesses(
                body.inner,
                k,
            ))),
        forall|k: Seq<char>|
            #![trigger inside.contains_key(k)]
            inside.contains_key(k) ==> inside[k] == (if k == arg@ {
                v
            } else if written.contains_key(k) && accesses(body.inner, k) {
                written[k]
            } else {
                at_call[k]
            }),
    ensures
        eval_call(d, eval(d, f, written, io).0->Value_0, v, at_call, io1) == eval((d - 1) as nat, body, inside, io1),
{
    let saved = eval(d, f, written, io).0->Value_0->saved;
    let u = at_call.insert(arg@, v).union_prefer_right(saved);
    assert forall|k: Seq<char>| #[trigger] u.contains_key(k) == inside.contains_key(k) && (u.contains_key(k) ==> u[k]
        == inside[k]) by {
        assert(inside.contains_key(k) || !inside.contains_key(k));
    }
    assert(u =~= inside);
}

/// A function takes along exactly the variables in sight that its body reads, save its argument.
pub proof fn law_functions_take_along_what_they_read<'a>(
    d: nat,
    f: Expr,
    arg: String,
    body: Expr,
    scope: Scope<'a>,
    io: Io<'a>,
    k: Seq<char>,
)
    requires
        d > 0,
        f.inner == (ExprKind::Lambda { arg, body: Box::new(body) }),
    ensures
        eval(d, f, scope, io).1 == io,
        eval(d, f, scope, io).0 matches Answer::Value(Val::Lambda { arg: a, body: b, saved }) && a == arg@ && b == body
            && (saved.contains_key(k) <==> scope.contains_key(k) && k != arg@ && accesses(body.inner, k)) && (
        saved.contains_key(k) ==> saved[k] == scope[k]),
{
}

/// A call evaluates the argument first and then the function, each once, and then does what the
/// function does with the argument; where one of the two has no value, the rest is not evaluated.
pub proof fn law_calls_evaluate_the_argument_first<'a>(
    d: nat,
    e: Expr,
    f: Expr,
    x: Expr,
    scope: Scope<'a>,
    io: Io<'a>,
)
    requires
        e.inner == (ExprKind::Call { prim: Box::new(f), arg: Box::new(x) }),
    ensures
        match eval(d, x, scope, io) {
            (Answer::Value(v), io1) => match eval(d, f, scope, io1) {
                (Answer::Value(g), io2) => eval(d + 1, e, scope, io) == eval_call(d, g, v, scope, io2),
                r => eval(d + 1, e, scope, io) == r,
            },
            r => eval(d + 1, e, scope, io) == r,
        },
{
}

/// What can be called: functions, builtin functions and tags. Of all other values a call is a fault,
/// and a tag put on a value leaves the value as it is.
pub proof fn law_only_functions_can_be_called<'a>(d: nat, g: Val<'a>, v: Val<'a>, scope: Scope<'a>, io: Io<'a>)
    requires
        d > 0,
    ensures
        !(g is Builtin) && !(g is Lambda) && !(g is Tagger) ==> eval_call(d, g, v, scope, io) == (
            Answer::<'a>::Fault(Fault::NotCallable),
            io,
        ),
        g matches Val::Tagger(key) ==> eval_call(d, g, v, scope, io) == (
            Answer::Value(Val::Tagged(key, Box::new(v))),
            io,
        ),
        g matches Val::Lambda { arg, body, saved } ==> eval_call(d, g, v, scope, io) == eval(
            (d - 1) as nat,
            body,
            scope.insert(arg, v).union_prefer_right(saved),
            io,
        ),
{
}

/// A recursive definition means its body, where its name stands for the definition itself: to read the
/// name there means what the definition means there.
pub proof fn law_recursion_unrolls<'a>(
    d: nat,
    e: Expr,
    name: String,
    body: Expr,
    again: Expr,
    scope: Scope<'a>,
    io: Io<'a>,
)
    requires
        d > 0,
        e.inner == (ExprKind::Fix { arg: name, body: Box::new(body) }),
        again.inner == ExprKind::Identifier(name),
    ensures
        exists|inside: Scope<'a>|
            #![trigger eval((d - 1) as nat, body, inside, io)]
            eval(d, e, scope, io) == eval((d - 1) as nat, body, inside, io) && inside.dom() == scope.dom().insert(name@)
                && (forall|k: Seq<char>| k != name@ && #[trigger] scope.contains_key(k) ==> inside[k] == scope[k]) && (
            forall|io1: Io<'a>| #[trigger] eval(d, again, inside, io1) == eval(d, e, inside, io1)),
{
    let inside = scope.insert(name@, Val::FixLambda { arg: name@, body });
    assert(inside.insert(name@, Val::FixLambda { arg: name@, body }) =~= inside);
    assert(eval(d, e, scope, io) == eval((d - 1) as nat, body, inside, io));
    assert forall|io1: Io<'a>| #[trigger] eval(d, again, inside, io1) == eval(d, e, inside, io1) by {}
    assert(inside.dom() =~= scope.dom().insert(name@));
}

/// A recursive name means, wherever it is read, what its definition means there.
pub proof fn law_a_recursive_name_means_its_definition<'a>(
    d: nat,
    id: Expr,
    fix: Expr,
    read: String,
    name: String,
    body: Expr,
    scope: Scope<'a>,
    io: Io<'a>,
)
    requires
        id.inner == ExprKind::Identifier(read),
        fix.inner == (ExprKind::Fix { arg: name, body: Box::new(body) }),
        scope.contains_key(read@),
        scope[read@] == (Val::FixLambda { arg: name@, body }),
    ensures
        eval(d, id, scope, io) == eval(d, fix, scope, io),
{
}

/// A variable that is not recursive means the value it is bound to, and asks nothing; one that is not
/// in sight is a fault.
pub proof fn law_variables_mean_what_they_are_bound_to<'a>(
    d: nat,
    id: Expr,
    read: String,
    scope: Scope<'a>,
    io: Io<'a>,
)
    requires
        d > 0,
        id.inner == ExprKind::Identifier(read),
    ensures
        scope.contains_key(read@) && !(scope[read@] is FixLambda) ==> eval(d, id, scope, io) == (
            Answer::Value(scope[read@]),
            io,
        ),
        !scope.contains_key(read@) ==> eval(d, id, scope, io) == (Answer::<'a>::Fault(Fault::Unbound), io),
{
}

/// A literal means itself, and a tag means a function that puts it on; neither asks anything.
pub proof fn law_literals_mean_themselves<'a>(d: nat, e: Expr, scope: Scope<'a>, io: Io<'a>)
    requires
        d > 0,
    ensures
        e.inner is Unit ==> eval(d, e, scope, io) == (Answer::<'a>::Value(Val::Unit), io),
        e.inner matches ExprKind::Boolean(b) ==> eval(d, e, scope, io) == (Answer::<'a>::Value(Val::Boolean(b)), io),
        e.inner matches ExprKind::Integer(i) ==> eval(d, e, scope, io) == (Answer::<'a>::Value(Val::Integer(i)), io),
        e.inner matches ExprKind::PureString(s) ==> eval(d, e, scope, io) == (
            Answer::<'a>::Value(Val::Text(s@)),
            io,
        ),
        e.inner matches ExprKind::Tagger { key } ==> eval(d, e, scope, io) == (
            Answer::<'a>::Value(Val::Tagger(key@)),
            io,
        ),
{
}

/// A field of an expression is the field of its value; a value without that field, or without fields,
/// is a fault.
pub proof fn law_fields_come_from_the_value<'a>(
    d: nat,
    e: Expr,
    prim: Expr,
    key: Identifier,
    scope: Scope<'a>,
    io: Io<'a>,
)
    requires
        e.inner == (ExprKind::Dot { prim: Box::new(prim), key }),
    ensures
        match eval(d, prim, scope, io) {
            (Answer::Value(Val::Record(m)), io1) => eval(d + 1, e, scope, io) == (
                if m.contains_key(key.inner@) {
                    Answer::Value(m[key.inner@])
                } else {
                    Answer::Fault(Fault::MissingKey)
                },
                io1,
            ),
            (Answer::Value(_), io1) => eval(d + 1, e, scope, io) == (Answer::<'a>::Fault(Fault::NotARecord), io1),
            r => eval(d + 1, e, scope, io) == r,
        },
{
}

/// The expressions of the fields of a record, in the order of their names.
pub open spec fn field_exprs(fields: NameMap<String, Expr>) -> Seq<Expr> {
    Seq::new(fields.spine().len(), |i: int| fields.spine()[i].1)
}

/// The names of the first `n` fields, with the values.
spec fn first_fields<'a>(fields: NameMap<String, Expr>, vs: Seq<Val<'a>>, i: int) -> Map<Seq<char>, Val<'a>>
    decreases i,
{
    if i <= 0 {
        Map::empty()
    } else {
        first_fields(fields, vs, i - 1).insert(fields.spine()[i - 1].0@, vs[i - 1])
    }
}

proof fn lemma_record_fields<'a>(
    d: nat,
    k: nat,
    fields: NameMap<String, Expr>,
    i: int,
    scope: Scope<'a>,
    ios: Seq<Io<'a>>,
    vs: Seq<Val<'a>>,
)
    requires
        0 <= i <= vs.len(),
        valued(d, field_exprs(fields), scope, ios, vs),
    ensures
        eval_fields((d + 1 + k + vs.len() - i) as nat, fields, i, first_fields(fields, vs, i), scope, ios[i])
            == eval_fields(
            d + 1 + k,
            fields,
            vs.len() as int,
            first_fields(fields, vs, vs.len() as int),
            scope,
            ios.last(),
        ),
    decreases vs.len() - i,
{
    if i < vs.len() {
        let c = (d + k + vs.len() - i) as nat;
        let s = fields.spine()[i].1;
        assert(field_exprs(fields)[i] == s);
        assert(eval(d, s, scope, ios[i]) == (Answer::Value(vs[i]), ios[i + 1]));
        law_deeper_means_the_same(d, c, s, scope, ios[i]);
        assert(first_fields(fields, vs, i + 1) == first_fields(fields, vs, i).insert(fields.spine()[i].0@, vs[i]));
        lemma_record_fields(d, k, fields, i + 1, scope, ios, vs);
    }
}

proof fn lemma_first_fields<'a>(fields: NameMap<String, Expr>, vs: Seq<Val<'a>>, n: int)
    requires
        0 <= n <= fields.spine().len(),
        n <= vs.len(),
        fields.sorted(),
    ensures
        forall|key: Seq<char>| #[trigger]
            first_fields(fields, vs, n).contains_key(key) <==> exists|i: int|
                0 <= i < n && (#[trigger] fields.spine()[i]).0@ == key,
        forall|i: int|
            0 <= i < n ==> first_fields(fields, vs, n)[(#[trigger] fields.spine()[i]).0@] == vs[i],
    decreases n,
{
    if n > 0 {
        lemma_first_fields(fields, vs, n - 1);
        let names = names_of(fields.spine());
        lemma_increasing_distinct(names);
        let m = first_fields(fields, vs, n - 1);
        let last = fields.spine()[n - 1].0@;
        assert(names[n - 1] == last);
        assert forall|i: int| 0 <= i < n implies first_fields(fields, vs, n)[(#[trigger] fields.spine()[i]).0@]
            == vs[i] by {
            assert(names[i] == fields.spine()[i].0@);
            if i < n - 1 {
                assert(names[i] != names[n - 1]);
                assert(m.contains_key(fields.spine()[i].0@));
            }
        }
        assert forall|key: Seq<char>| #[trigger] first_fields(fields, vs, n).contains_key(key) <==> exists|i: int|
            0 <= i < n && (#[trigger] fields.spine()[i]).0@ == key by {
            assert(m.contains_key(key) <==> exists|i: int| 0 <= i < n - 1 && (#[trigger] fields.spine()[i]).0@ == key);
            if key == last {
                assert(fields.spine()[n - 1].0@ == key);
            }
        }
    }
}

/// A record evaluates all its fields, in the order of their names, and its value has exactly these
/// names, each with the value of the expression beside it. The first field without a value ends the
/// record as it ended itself.
pub proof fn law_records_hold_the_values_of_their_fields<'a>(
    d: nat,
    e: Expr,
    fields: NameMap<String, Expr>,
    scope: Scope<'a>,
    ios: Seq<Io<'a>>,
    vs: Seq<Val<'a>>,
)
    requires
        e.inner == ExprKind::Record(fields),
        fields.sorted(),
        valued(d, field_exprs(fields), scope, ios, vs),
        stops_after(d, field_exprs(fields), scope, ios, vs),
    ensures
        vs.len() < fields.spine().len() ==> eval(d + vs.len() + 2, e, scope, ios[0]) == eval(
            d,
            fields.spine()[vs.len() as int].1,
            scope,
            ios.last(),
        ),
        vs.len() == fields.spine().len() ==> eval(d + vs.len() + 2, e, scope, ios[0]).1 == ios.last() && (eval(
            d + vs.len() + 2,
            e,
            scope,
            ios[0],
        ).0 matches Answer::Value(Val::Record(m)) && (forall|key: Seq<char>| #[trigger]
            m.contains_key(key) <==> exists|i: int|
                0 <= i < fields.spine().len() && (#[trigger] fields.spine()[i]).0@ == key) && (forall|i: int|
            0 <= i < fields.spine().len() ==> m[(#[trigger] fields.spine()[i]).0@] == vs[i])),
{
    lemma_record_fields(d, 0, fields, 0, scope, ios, vs);
    lemma_first_fields(fields, vs, vs.len() as int);
}

/// Texts, one after the other.
pub open spec fn run_together(ts: Seq<Seq<char>>) -> Seq<char>
    decreases ts.len(),
{
    if ts.len() == 0 {
        Seq::empty()
    } else {
        run_together(ts.drop_last()) + ts.last()
    }
}

proof fn lemma_format_parts<'a>(
    d: nat,
    k: nat,
    parts: Seq<Expr>,
    i: int,
    scope: Scope<'a>,
    ios: Seq<Io<'a>>,
    vs: Seq<Val<'a>>,
    ts: Seq<Seq<char>>,
)
    requires
        0 <= i <= vs.len(),
        valued(d, parts, scope, ios, vs),
        ts.len() == vs.len(),
        forall|j: int| 0 <= j < vs.len() ==> shown(#[trigger] vs[j]) == Some(ts[j]),
    ensures
        eval_parts((d + 1 + k + vs.len() - i) as nat, parts, i, run_together(ts.take(i)), scope, ios[i]) == eval_parts(
            d + 1 + k,
            parts,
            vs.len() as int,
            run_together(ts),
            scope,
            ios.last(),
        ),
    decreases vs.len() - i,
{
    if i < vs.len() {
        let c = (d + k + vs.len() - i) as nat;
        assert(eval(d, parts[i], scope, ios[i]) == (Answer::Value(vs[i]), ios[i + 1]));
        law_deeper_means_the_same(d, c, parts[i], scope, ios[i]);
        assert(shown(vs[i]) == Some(ts[i]));
        assert(ts.take(i + 1).drop_last() =~= ts.take(i));
        assert(run_together(ts.take(i + 1)) == run_together(ts.take(i)) + ts[i]);
        lemma_format_parts(d, k, parts, i + 1, scope, ios, vs, ts);
    } else {
        assert(ts.take(i) =~= ts);
    }
}

/// A format string evaluates all its parts, in order, and its value is their texts, one after the
/// other; the first part without a value ends it as that ended itself.
pub proof fn law_format_strings_join_their_parts<'a>(
    d: nat,
    e: Expr,
    parts: Vec<Expr>,
    scope: Scope<'a>,
    ios: Seq<Io<'a>>,
    vs: Seq<Val<'a>>,
    ts: Seq<Seq<char>>,
)
    requires
        e.inner == ExprKind::FormatString(parts),
        valued(d, parts@, scope, ios, vs),
        stops_after(d, parts@, scope, ios, vs),
        ts.len() == vs.len(),
        forall|j: int| 0 <= j < vs.len() ==> shown(#[trigger] vs[j]) == Some(ts[j]),
    ensures
        eval(d + vs.len() + 2, e, scope, ios[0]) == (if vs.len() < parts@.len() {
            eval(d, parts@[vs.len() as int], scope, ios.last())
        } else {
            (Answer::Value(Val::Text(run_together(ts))), ios.last())
        }),
{
    assert(ts.take(0) =~= Seq::empty());
    lemma_format_parts(d, 0, parts@, 0, scope, ios, vs, ts);
}

/// A format string stops at the first part that cannot be written as text.
pub proof fn law_format_strings_need_text<'a>(
    d: nat,
    e: Expr,
    parts: Vec<Expr>,
    scope: Scope<'a>,
    ios: Seq<Io<'a>>,
    vs: Seq<Val<'a>>,
    ts: Seq<Seq<char>>,
)
    requires
        e.inner == ExprKind::FormatString(parts),
        valued(d, parts@, scope, ios, vs),
        ts.len() == vs.len(),
        forall|j: int| 0 <= j < vs.len() ==> shown(#[trigger] vs[j]) == Some(ts[j]),
        vs.len() < parts@.len(),
        eval(d, parts@[vs.len() as int], scope, ios.last()).0 matches Answer::Value(v) && shown(v) is None,
    ensures
        eval(d + vs.len() + 2, e, scope, ios[0]) == (
            Answer::<'a>::Fault(Fault::NotText),
            eval(d, parts@[vs.len() as int], scope, ios.last()).1,
        ),
{
    assert(ts.take(0) =~= Seq::empty());
    lemma_format_parts(d, 0, parts@, 0, scope, ios, vs, ts);
}

/// What can be written as text: texts as they are, unit as nothing, booleans as marked digits and
/// integers as numbers; functions, records, tagged values and ends of channels cannot.
pub proof fn law_what_can_be_written<'a>(v: Val<'a>)
    ensures
        shown(v) is Some <==> v is Text || v is Unit || v is Boolean || v is Integer,
        v matches Val::Text(s) ==> shown(v) == Some(s),
        v is Unit ==> shown(v) == Some(Seq::<char>::empty()),
        v matches Val::Boolean(b) ==> shown(v) == Some(
            seq!['_', if b {
                '1'
            } else {
                '0'
            }],
        ),
        v matches Val::Integer(i) ==> shown(v) == Some(crate::text::decimal(i as int)),
{
    reveal_strlit("_1");
    reveal_strlit("_0");
    assert("_1"@ =~= seq!['_', '1']);
    assert("_0"@ =~= seq!['_', '0']);
}

/// An update evaluates what is updated first and then what goes over it, and its value has each field
/// of the second, and those of the first that the second does not have. Something else than records
/// is a fault, and of two the second is the one that is told of.
pub proof fn law_updates_put_one_record_over_another<'a>(
    d: nat,
    e: Expr,
    orig: Expr,
    ovrd: Expr,
    scope: Scope<'a>,
    io: Io<'a>,
)
    requires
        e.inner == (ExprKind::Update { orig: Box::new(orig), ovrd: Box::new(ovrd) }),
    ensures
        match eval(d, orig, scope, io) {
            (Answer::Value(v), io1) => match eval(d, ovrd, scope, io1) {
                (Answer::Value(Val::Record(over)), io2) => match v {
                    Val::Record(under) => eval(d + 1, e, scope, io).1 == io2 && (eval(
                        d + 1,
                        e,
                        scope,
                        io,
                    ).0 matches Answer::Value(Val::Record(m)) && (forall|k: Seq<char>| #[trigger]
                        m.contains_key(k) <==> under.contains_key(k) || over.contains_key(k)) && (forall|k: Seq<char>|
                     #[trigger]
                        over.contains_key(k) ==> m[k] == over[k]) && (forall|k: Seq<char>| #[trigger]
                        under.contains_key(k) && !over.contains_key(k) ==> m[k] == under[k])),
                    _ => eval(d + 1, e, scope, io) == (Answer::<'a>::Fault(Fault::UpdateOfNonRecord), io2),
                },
                (Answer::Value(_), io2) => eval(d + 1, e, scope, io) == (
                    Answer::<'a>::Fault(Fault::UpdateByNonRecord),
                    io2,
                ),
                r => eval(d + 1, e, scope, io) == r,
            },
            r => eval(d + 1, e, scope, io) == r,
        },
{
}

/// A match evaluates what it looks at once, and then means the body of the alternative that is taken,
/// where the variables of its pattern lie over those in sight; where none is taken, no body is run.
pub proof fn law_match_means_the_alternative_taken<'a>(
    d: nat,
    e: Expr,
    inp: Expr,
    cases: Vec<Case>,
    scope: Scope<'a>,
    io: Io<'a>,
)
    requires
        e.inner == (ExprKind::Match { inp: Box::new(inp), cases }),
    ensures
        match eval(d, inp, scope, io) {
            (Answer::Value(v), io1) => match select(cases@, 0, v) {
                Choice::Taken(i, found) => forall|inside: Scope<'a>|
                    (forall|k: Seq<char>| #[trigger]
                        inside.contains_key(k) <==> scope.contains_key(k) || found.contains_key(k)) && (forall|
                        k: Seq<char>,
                    |
                     #[trigger]
                        inside.contains_key(k) ==> inside[k] == (if found.contains_key(k) {
                            found[k]
                        } else {
                            scope[k]
                        })) ==> eval(d + 1, e, scope, io) == #[trigger] eval(d, cases@[i].body, inside, io1),
                Choice::Stuck(f) => eval(d + 1, e, scope, io) == (Answer::<'a>::Fault(f), io1),
            },
            r => eval(d + 1, e, scope, io) == r,
        },
{
    match eval(d, inp, scope, io) {
        (Answer::Value(v), io1) => {
            match select(cases@, 0, v) {
                Choice::Taken(i, found) => {
                    assert forall|inside: Scope<'a>|
                        (forall|k: Seq<char>| #[trigger]
                            inside.contains_key(k) <==> scope.contains_key(k) || found.contains_key(k)) && (forall|
                            k: Seq<char>,
                        |
                         #[trigger]
                            inside.contains_key(k) ==> inside[k] == (if found.contains_key(k) {
                                found[k]
                            } else {
                                scope[k]
                            })) implies eval(d + 1, e, scope, io) == #[trigger] eval(
                        d,
                        cases@[i].body,
                        inside,
                        io1,
                    ) by {
                        assert(inside =~= scope.union_prefer_right(found));
                    }
                },
                _ => {},
            }
        },
        _ => {},
    }
}

/// A match whose first pattern is a variable is a binding: `match v | x => b` is `let x = v; b`.
pub proof fn law_match_on_a_variable_is_a_binding<'a>(
    d: nat,
    matched: Expr,
    bind: Expr,
    inp: Expr,
    cases: Vec<Case>,
    x: Identifier,
    rest: Block,
    scope: Scope<'a>,
    io: Io<'a>,
)
    requires
        matched.inner == (ExprKind::Match { inp: Box::new(inp), cases }),
        cases@.len() > 0,
        cases@[0].pat == Pattern::Identifier(x),
        bind.inner == (ExprKind::Let { lhs: x, rhs: Box::new(inp), rest }),
        rest.stmts@.len() == 0,
        rest.term == Some(Box::new(cases@[0].body)),
        !(eval(d, matched, scope, io).0 is Deep),
    ensures
        eval(d + 1, bind, scope, io) == eval(d, matched, scope, io),
{
    let c = (d - 1) as nat;
    law_deeper_means_the_same(c, d, inp, scope, io);
    match eval(c, inp, scope, io) {
        (Answer::Value(v), io1) => {
            let found = Map::<Seq<char>, Val<'a>>::empty().insert(x.inner@, v);
            assert(scope.union_prefer_right(found) =~= scope.insert(x.inner@, v));
            assert(select(cases@, 0, v) == Choice::Taken(0, found));
            assert(eval(d, matched, scope, io) == eval(c, cases@[0].body, scope.insert(x.inner@, v), io1));
            assert(eval_block(d, rest, 0, scope.insert(x.inner@, v), io1) == eval(
                c,
                cases@[0].body,
                scope.insert(x.inner@, v),
                io1,
            ));
        },
        _ => {},
    }
}

/// A new thread calls its function with unit where nothing is in sight: what the function has taken
/// along is there, its argument is unit unless it has taken along something of that name, and nothing
/// else is there.
pub proof fn law_a_worker_calls_its_function_with_unit<'a>(
    d: nat,
    arg: Seq<char>,
    body: Expr,
    saved: Scope<'a>,
    io: Io<'a>,
    k: Seq<char>,
)
    ensures
        eval_call(d + 1, Val::Lambda { arg, body, saved }, Val::Unit, Map::empty(), io) == eval(
            d,
            body,
            worker_scope(arg, saved),
            io,
        ),
        worker_scope(arg, saved).contains_key(k) <==> k == arg || saved.contains_key(k),
        saved.contains_key(k) ==> worker_scope(arg, saved)[k] == saved[k],
        !saved.contains_key(arg) ==> worker_scope(arg, saved)[arg] == Val::<'a>::Unit,
{
}

} // verus!
