//! Laws of syntax trees: which variables they read, and which of them are the same.
use crate::syntax::{
    accesses, binds, block_accesses, same_block, same_cases, same_expr, same_exprs, same_kind, same_pattern, Block,
    Case, Expr, ExprKind, Identifier, Pattern,
};
use vstd::prelude::*;

verus! {

/// A name reads itself and no other variable; literals and tags read none.
pub proof fn law_names_read_themselves(e: ExprKind, k: Seq<char>)
    ensures
        e matches ExprKind::Identifier(id) ==> (accesses(e, k) <==> id@ == k),
        e is Unit || e is Boolean || e is Integer || e is PureString || e is Tagger ==> !accesses(e, k),
{
}

/// A function does not read its argument, nor a recursive definition its name; otherwise both read what
/// their bodies read.
pub proof fn law_arguments_are_not_read(arg: String, body: Expr, k: Seq<char>)
    ensures
        !accesses(ExprKind::Lambda { arg, body: Box::new(body) }, arg@),
        k != arg@ ==> (accesses(ExprKind::Lambda { arg, body: Box::new(body) }, k) <==> accesses(body.inner, k)),
        accesses(ExprKind::Fix { arg, body: Box::new(body) }, k) <==> accesses(
            ExprKind::Lambda { arg, body: Box::new(body) },
            k,
        ),
{
}

/// A binding reads what the call reads that it is: its right side, and the rest save its name.
pub proof fn law_a_binding_reads_what_its_call_reads(
    lhs: Identifier,
    rhs: Expr,
    rest: Block,
    f: Expr,
    body: Expr,
    k: Seq<char>,
)
    requires
        f.inner == (ExprKind::Lambda { arg: lhs.inner, body: Box::new(body) }),
        body.inner == ExprKind::Block(rest),
    ensures
        accesses(ExprKind::Let { lhs, rhs: Box::new(rhs), rest }, k) <==> accesses(
            ExprKind::Call { prim: Box::new(f), arg: Box::new(rhs) },
            k,
        ),
{
    assert(accesses(body.inner, k) == block_accesses(rest, k));
    assert(accesses(f.inner, k) == (lhs.inner@ != k && accesses(body.inner, k)));
}

/// What binds no variable reads what its parts read.
pub proof fn law_parts_are_read(e: ExprKind, k: Seq<char>)
    ensures
        e matches ExprKind::Call { prim, arg } ==> (accesses(e, k) <==> accesses(prim.inner, k) || accesses(
            arg.inner,
            k,
        )),
        e matches ExprKind::Dot { prim, key } ==> (accesses(e, k) <==> accesses(prim.inner, k)),
        e matches ExprKind::Update { orig, ovrd } ==> (accesses(e, k) <==> accesses(orig.inner, k) || accesses(
            ovrd.inner,
            k,
        )),
        e matches ExprKind::If { cond, then_blk, or_else } ==> (accesses(e, k) <==> accesses(cond.inner, k) || accesses(
            ExprKind::Block(then_blk),
            k,
        ) || accesses(ExprKind::Block(or_else), k)),
        e matches ExprKind::FormatString(parts) ==> (accesses(e, k) <==> exists|i: int|
            0 <= i < parts@.len() && accesses((#[trigger] parts@[i]).inner, k)),
        e matches ExprKind::Record(fields) ==> (accesses(e, k) <==> exists|i: int|
            0 <= i < fields.spine().len() && accesses((#[trigger] fields.spine()[i]).1.inner, k)),
        e matches ExprKind::Block(blk) ==> (accesses(e, k) <==> (exists|i: int|
            0 <= i < blk.stmts@.len() && accesses((#[trigger] blk.stmts@[i]).inner, k)) || (blk.term matches Some(t)
            && accesses(t.inner, k))),
        e matches ExprKind::Block(blk) ==> (accesses(e, k) <==> block_accesses(blk, k)),
{
    match e {
        ExprKind::Block(blk) => {
            assert(accesses(e, k) == block_accesses(blk, k));
            assert(block_accesses(blk, k) == ((exists|i: int|
                0 <= i < blk.stmts@.len() && accesses((#[trigger] blk.stmts@[i]).inner, k)) || (
            blk.term matches Some(t) && accesses(t.inner, k))));
        },
        ExprKind::If { cond, then_blk, or_else } => {
            assert(accesses(ExprKind::Block(then_blk), k) == block_accesses(then_blk, k));
            assert(accesses(ExprKind::Block(or_else), k) == block_accesses(or_else, k));
        },
        _ => {},
    }
}

/// A match reads what it looks at, and of each alternative what the body reads save the variables of
/// its pattern.
pub proof fn law_pattern_variables_are_not_read(inp: Expr, cases: Vec<Case>, k: Seq<char>)
    ensures
        accesses(ExprKind::Match { inp: Box::new(inp), cases }, k) <==> accesses(inp.inner, k) || exists|i: int|
            0 <= i < cases@.len() && accesses((#[trigger] cases@[i]).body.inner, k) && !binds(cases@[i].pat, k),
{
}

/// A pattern binds the variables in it: a variable itself, a tagged pattern those inside, a record
/// pattern those of its fields, and unit none.
pub proof fn law_what_patterns_bind(pat: Pattern, k: Seq<char>)
    ensures
        pat matches Pattern::Identifier(id) ==> (binds(pat, k) <==> id.inner@ == k),
        pat matches Pattern::Tagged { key, value } ==> (binds(pat, k) <==> binds(*value, k)),
        pat matches Pattern::Record(rec) ==> (binds(pat, k) <==> exists|i: int|
            0 <= i < rec.inner.spine().len() && binds((#[trigger] rec.inner.spine()[i]).1, k)),
        pat is Unit ==> !binds(pat, k),
{
}

/// Trees of different kinds are not the same; literals, names and tags are the same where what they say
/// is.
pub proof fn law_different_leaves_are_different(a: Expr, b: Expr)
    requires
        same_expr(a, b),
    ensures
        a.offset == b.offset,
        a.inner is Unit == b.inner is Unit,
        a.inner is Boolean == b.inner is Boolean,
        a.inner is Integer == b.inner is Integer,
        a.inner is PureString == b.inner is PureString,
        a.inner is Identifier == b.inner is Identifier,
        a.inner is Tagger == b.inner is Tagger,
        a.inner is Let == b.inner is Let,
        a.inner is Block == b.inner is Block,
        a.inner is If == b.inner is If,
        a.inner is Lambda == b.inner is Lambda,
        a.inner is Call == b.inner is Call,
        a.inner is Dot == b.inner is Dot,
        a.inner is Fix == b.inner is Fix,
        a.inner is FormatString == b.inner is FormatString,
        a.inner is Record == b.inner is Record,
        a.inner is Update == b.inner is Update,
        a.inner is Match == b.inner is Match,
        a.inner is Boolean ==> a.inner == b.inner,
        a.inner is Integer ==> a.inner == b.inner,
        a.inner is PureString ==> a.inner->PureString_0@ == b.inner->PureString_0@,
        a.inner is Identifier ==> a.inner->Identifier_0@ == b.inner->Identifier_0@,
        a.inner is Tagger ==> a.inner->Tagger_key@ == b.inner->Tagger_key@,
{
}

/// Trees that are the same have the same parts in the same places, and trees with the same parts are
/// the same.
pub proof fn law_same_trees_have_the_same_parts(a: ExprKind, b: ExprKind)
    ensures
        a is Unit && b is Unit ==> same_kind(a, b),
        a is Boolean && a == b ==> same_kind(a, b),
        a is Integer && a == b ==> same_kind(a, b),
        a is PureString && b is PureString && a->PureString_0@ == b->PureString_0@ ==> same_kind(a, b),
        a is Identifier && b is Identifier && a->Identifier_0@ == b->Identifier_0@ ==> same_kind(a, b),
        a is Tagger && b is Tagger && a->Tagger_key@ == b->Tagger_key@ ==> same_kind(a, b),
        a is Let && b is Let ==> (same_kind(a, b) <==> a->lhs.offset == b->lhs.offset && a->lhs.inner@ == b->lhs.inner@
            && same_expr(*a->rhs, *b->rhs) && same_kind(ExprKind::Block(a->rest), ExprKind::Block(b->rest))),
        a is If && b is If ==> (same_kind(a, b) <==> same_expr(*a->cond, *b->cond) && same_kind(
            ExprKind::Block(a->then_blk),
            ExprKind::Block(b->then_blk),
        ) && same_kind(ExprKind::Block(a->or_else), ExprKind::Block(b->or_else))),
        a is Block && b is Block ==> (same_kind(a, b) <==> a->Block_0.stmts@.len() == b->Block_0.stmts@.len() && (
        forall|i: int|
            0 <= i < a->Block_0.stmts@.len() ==> same_expr(#[trigger] a->Block_0.stmts@[i], b->Block_0.stmts@[i])) && (
        a->Block_0.term is Some) == (b->Block_0.term is Some) && (a->Block_0.term is Some ==> same_expr(
            *a->Block_0.term->Some_0,
            *b->Block_0.term->Some_0,
        ))),
        a is Lambda && b is Lambda ==> (same_kind(a, b) <==> a->Lambda_arg@ == b->Lambda_arg@ && same_expr(
            *a->Lambda_body,
            *b->Lambda_body,
        )),
        a is Fix && b is Fix ==> (same_kind(a, b) <==> a->Fix_arg@ == b->Fix_arg@ && same_expr(
            *a->Fix_body,
            *b->Fix_body,
        )),
        a is Call && b is Call ==> (same_kind(a, b) <==> same_expr(*a->Call_prim, *b->Call_prim) && same_expr(
            *a->Call_arg,
            *b->Call_arg,
        )),
        a is Dot && b is Dot ==> (same_kind(a, b) <==> same_expr(*a->Dot_prim, *b->Dot_prim) && a->Dot_key.offset
            == b->Dot_key.offset && a->Dot_key.inner@ == b->Dot_key.inner@),
        a is Update && b is Update ==> (same_kind(a, b) <==> same_expr(*a->orig, *b->orig) && same_expr(
            *a->ovrd,
            *b->ovrd,
        )),
        a is FormatString && b is FormatString ==> (same_kind(a, b) <==> a->FormatString_0@.len()
            == b->FormatString_0@.len() && forall|i: int|
            0 <= i < a->FormatString_0@.len() ==> same_expr(#[trigger] a->FormatString_0@[i], b->FormatString_0@[i])),
        a is Record && b is Record ==> (same_kind(a, b) <==> a->Record_0.spine().len() == b->Record_0.spine().len()
            && forall|i: int|
            0 <= i < a->Record_0.spine().len() ==> (#[trigger] a->Record_0.spine()[i]).0@ == b->Record_0.spine()[i].0@
                && same_expr(a->Record_0.spine()[i].1, b->Record_0.spine()[i].1)),
        a is Match && b is Match ==> (same_kind(a, b) <==> same_expr(*a->inp, *b->inp) && a->cases@.len()
            == b->cases@.len() && forall|i: int|
            0 <= i < a->cases@.len() ==> same_pattern((#[trigger] a->cases@[i]).pat, b->cases@[i].pat) && same_expr(
                a->cases@[i].body,
                b->cases@[i].body,
            )),
{
    if a is Let && b is Let {
        assert(same_kind(ExprKind::Block(a->rest), ExprKind::Block(b->rest)) == same_block(a->rest, b->rest));
    }
    if a is If && b is If {
        assert(same_kind(ExprKind::Block(a->then_blk), ExprKind::Block(b->then_blk)) == same_block(
            a->then_blk,
            b->then_blk,
        ));
        assert(same_kind(ExprKind::Block(a->or_else), ExprKind::Block(b->or_else)) == same_block(
            a->or_else,
            b->or_else,
        ));
    }
    if a is Block && b is Block {
        assert(same_kind(a, b) == same_block(a->Block_0, b->Block_0));
        assert(same_exprs(a->Block_0.stmts@, b->Block_0.stmts@) == (a->Block_0.stmts@.len() == b->Block_0.stmts@.len()
            && forall|i: int|
            0 <= i < a->Block_0.stmts@.len() ==> same_expr(#[trigger] a->Block_0.stmts@[i], b->Block_0.stmts@[i])));
    }
    if a is FormatString && b is FormatString {
        assert(same_kind(a, b) == same_exprs(a->FormatString_0@, b->FormatString_0@));
    }
    if a is Match && b is Match {
        assert(same_kind(a, b) == (same_expr(*a->inp, *b->inp) && same_cases(a->cases@, b->cases@)));
    }
}

/// Patterns are the same where they are of one kind, read at the same places, and have the same names
/// and the same patterns inside.
pub proof fn law_same_patterns_have_the_same_parts(a: Pattern, b: Pattern)
    ensures
        same_pattern(a, b) ==> a is Identifier == b is Identifier && a is Tagged == b is Tagged && a is Record
            == b is Record && a is Unit == b is Unit,
        a is Unit && b is Unit ==> same_pattern(a, b),
        a is Identifier && b is Identifier ==> (same_pattern(a, b) <==> a->Identifier_0.offset
            == b->Identifier_0.offset && a->Identifier_0.inner@ == b->Identifier_0.inner@),
        a is Tagged && b is Tagged ==> (same_pattern(a, b) <==> a->key.offset == b->key.offset && a->key.inner@
            == b->key.inner@ && same_pattern(*a->value, *b->value)),
        a is Record && b is Record ==> (same_pattern(a, b) <==> a->Record_0.offset == b->Record_0.offset
            && a->Record_0.inner.spine().len() == b->Record_0.inner.spine().len() && forall|i: int|
            0 <= i < a->Record_0.inner.spine().len() ==> (#[trigger] a->Record_0.inner.spine()[i]).0@
                == b->Record_0.inner.spine()[i].0@ && same_pattern(
                a->Record_0.inner.spine()[i].1,
                b->Record_0.inner.spine()[i].1,
            )),
{
}

/// Patterns that are the same bind the same variables.
proof fn lemma_same_patterns_bind_the_same(a: Pattern, b: Pattern, k: Seq<char>)
    requires
        same_pattern(a, b),
    ensures
        binds(a, k) == binds(b, k),
    decreases a,
{
    match (a, b) {
        (Pattern::Tagged { key: ka, value: va }, Pattern::Tagged { key: kb, value: vb }) => {
            lemma_same_patterns_bind_the_same(*va, *vb, k);
        },
        (Pattern::Record(x), Pattern::Record(y)) => {
            x.inner.lemma_values_smaller();
            let (p, q) = (x.inner.spine(), y.inner.spine());
            assert forall|i: int| 0 <= i < p.len() implies binds((#[trigger] p[i]).1, k) == binds(q[i].1, k) by {
                lemma_same_patterns_bind_the_same(p[i].1, q[i].1, k);
            }
            if binds(a, k) {
                let i = choose|i: int| 0 <= i < p.len() && binds((#[trigger] p[i]).1, k);
                assert(binds(q[i].1, k));
            }
            if binds(b, k) {
                let i = choose|i: int| 0 <= i < q.len() && binds((#[trigger] q[i]).1, k);
                assert(binds(p[i].1, k));
            }
        },
        _ => {},
    }
}

proof fn lemma_same_exprs_read_the_same(a: Seq<Expr>, b: Seq<Expr>, k: Seq<char>)
    requires
        same_exprs(a, b),
    ensures
        (exists|i: int| 0 <= i < a.len() && accesses((#[trigger] a[i]).inner, k)) == (exists|i: int|
            0 <= i < b.len() && accesses((#[trigger] b[i]).inner, k)),
    decreases a,
{
    assert forall|i: int| 0 <= i < a.len() implies accesses((#[trigger] a[i]).inner, k) == accesses(b[i].inner, k) by {
        law_same_trees_read_the_same(a[i], b[i], k);
    }
    if exists|i: int| 0 <= i < a.len() && accesses((#[trigger] a[i]).inner, k) {
        let i = choose|i: int| 0 <= i < a.len() && accesses((#[trigger] a[i]).inner, k);
        assert(accesses(b[i].inner, k));
    }
    if exists|i: int| 0 <= i < b.len() && accesses((#[trigger] b[i]).inner, k) {
        let i = choose|i: int| 0 <= i < b.len() && accesses((#[trigger] b[i]).inner, k);
        assert(accesses(a[i].inner, k));
    }
}

proof fn lemma_same_blocks_read_the_same(a: Block, b: Block, k: Seq<char>)
    requires
        same_block(a, b),
    ensures
        block_accesses(a, k) == block_accesses(b, k),
    decreases a,
{
    lemma_same_exprs_read_the_same(a.stmts@, b.stmts@, k);
    match (a.term, b.term) {
        (Some(x), Some(y)) => {
            law_same_trees_read_the_same(*x, *y, k);
        },
        _ => {},
    }
}

proof fn lemma_same_cases_read_the_same(a: Seq<Case>, b: Seq<Case>, k: Seq<char>)
    requires
        same_cases(a, b),
    ensures
        (exists|i: int| 0 <= i < a.len() && !binds((#[trigger] a[i]).pat, k) && accesses(a[i].body.inner, k)) == (
        exists|i: int| 0 <= i < b.len() && !binds((#[trigger] b[i]).pat, k) && accesses(b[i].body.inner, k)),
    decreases a,
{
    assert forall|i: int| 0 <= i < a.len() implies (!binds((#[trigger] a[i]).pat, k) && accesses(a[i].body.inner, k))
        == (!binds(b[i].pat, k) && accesses(b[i].body.inner, k)) by {
        lemma_same_patterns_bind_the_same(a[i].pat, b[i].pat, k);
        law_same_trees_read_the_same(a[i].body, b[i].body, k);
    }
    if exists|i: int| 0 <= i < a.len() && !binds((#[trigger] a[i]).pat, k) && accesses(a[i].body.inner, k) {
        let i = choose|i: int| 0 <= i < a.len() && !binds((#[trigger] a[i]).pat, k) && accesses(a[i].body.inner, k);
        assert(!binds(b[i].pat, k));
    }
    if exists|i: int| 0 <= i < b.len() && !binds((#[trigger] b[i]).pat, k) && accesses(b[i].body.inner, k) {
        let i = choose|i: int| 0 <= i < b.len() && !binds((#[trigger] b[i]).pat, k) && accesses(b[i].body.inner, k);
        assert(!binds(a[i].pat, k));
    }
}

/// Trees that are the same read the same variables.
pub proof fn law_same_trees_read_the_same(a: Expr, b: Expr, k: Seq<char>)
    requires
        same_expr(a, b),
    ensures
        accesses(a.inner, k) == accesses(b.inner, k),
    decreases a,
{
    match (a.inner, b.inner) {
        (ExprKind::Let { lhs: l1, rhs: r1, rest: t1 }, ExprKind::Let { lhs: l2, rhs: r2, rest: t2 }) => {
            law_same_trees_read_the_same(*r1, *r2, k);
            lemma_same_blocks_read_the_same(t1, t2, k);
        },
        (ExprKind::Block(x), ExprKind::Block(y)) => {
            lemma_same_blocks_read_the_same(x, y, k);
        },
        (
            ExprKind::If { cond: c1, then_blk: t1, or_else: o1 },
            ExprKind::If { cond: c2, then_blk: t2, or_else: o2 },
        ) => {
            law_same_trees_read_the_same(*c1, *c2, k);
            lemma_same_blocks_read_the_same(t1, t2, k);
            lemma_same_blocks_read_the_same(o1, o2, k);
        },
        (ExprKind::Lambda { arg: a1, body: b1 }, ExprKind::Lambda { arg: a2, body: b2 }) => {
            law_same_trees_read_the_same(*b1, *b2, k);
        },
        (ExprKind::Call { prim: p1, arg: a1 }, ExprKind::Call { prim: p2, arg: a2 }) => {
            law_same_trees_read_the_same(*p1, *p2, k);
            law_same_trees_read_the_same(*a1, *a2, k);
        },
        (ExprKind::Dot { prim: p1, key: k1 }, ExprKind::Dot { prim: p2, key: k2 }) => {
            law_same_trees_read_the_same(*p1, *p2, k);
        },
        (ExprKind::Fix { arg: a1, body: b1 }, ExprKind::Fix { arg: a2, body: b2 }) => {
            law_same_trees_read_the_same(*b1, *b2, k);
        },
        (ExprKind::FormatString(x), ExprKind::FormatString(y)) => {
            lemma_same_exprs_read_the_same(x@, y@, k);
        },
        (ExprKind::Record(x), ExprKind::Record(y)) => {
            x.lemma_values_smaller();
            let (p, q) = (x.spine(), y.spine());
            assert forall|i: int| 0 <= i < p.len() implies accesses((#[trigger] p[i]).1.inner, k) == accesses(
                q[i].1.inner,
                k,
            ) by {
                law_same_trees_read_the_same(p[i].1, q[i].1, k);
            }
            if accesses(a.inner, k) {
                let i = choose|i: int| 0 <= i < p.len() && accesses((#[trigger] p[i]).1.inner, k);
                assert(accesses(q[i].1.inner, k));
            }
            if accesses(b.inner, k) {
                let i = choose|i: int| 0 <= i < q.len() && accesses((#[trigger] q[i]).1.inner, k);
                assert(accesses(p[i].1.inner, k));
            }
        },
        (ExprKind::Update { orig: o1, ovrd: v1 }, ExprKind::Update { orig: o2, ovrd: v2 }) => {
            law_same_trees_read_the_same(*o1, *o2, k);
            law_same_trees_read_the_same(*v1, *v2, k);
        },
        (ExprKind::Match { inp: i1, cases: c1 }, ExprKind::Match { inp: i2, cases: c2 }) => {
            law_same_trees_read_the_same(*i1, *i2, k);
            lemma_same_cases_read_the_same(c1@, c2@, k);
        },
        _ => {},
    }
}

} // verus!
