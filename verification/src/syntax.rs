//! The syntax tree of programs: which variables an expression reads, and when two trees are the same.
use crate::names::{Name, NameMap};
use crate::text::same_text;
use vstd::prelude::*;

verus! {

/// Something that was read at an offset of the source.
#[derive(Debug)]
pub struct Offsetted<T> {
    pub offset: usize,
    pub inner: T,
}

pub type Identifier = Offsetted<String>;

pub type Expr = Offsetted<ExprKind>;

/// Statements, run for their effects, then a term, whose value is that of the block.
#[derive(Debug)]
pub struct Block {
    pub stmts: Vec<Expr>,
    pub term: Option<Box<Expr>>,
}

/// One alternative of a match.
#[derive(Debug)]
pub struct Case {
    pub pat: Pattern,
    pub body: Expr,
}

#[derive(Debug)]
pub enum Pattern {
    Identifier(Identifier),
    Tagged { key: Identifier, value: Box<Pattern> },
    Record(Offsetted<NameMap<String, Pattern>>),
    Unit,
}

#[derive(Debug)]
#[allow(inconsistent_fields)]
pub enum ExprKind {
    Let { lhs: Identifier, rhs: Box<Expr>, rest: Block },
    Block(Block),
    If { cond: Box<Expr>, then_blk: Block, or_else: Block },
    Lambda { arg: String, body: Box<Expr> },
    Call { prim: Box<Expr>, arg: Box<Expr> },
    Dot { prim: Box<Expr>, key: Identifier },
    Fix { arg: String, body: Box<Expr> },
    FormatString(Vec<Expr>),
    Record(NameMap<String, Expr>),
    Update { orig: Box<Expr>, ovrd: Box<Expr> },
    Tagger { key: String },
    Match { inp: Box<Expr>, cases: Vec<Case> },
    Identifier(String),
    Unit,
    Boolean(bool),
    Integer(i32),
    PureString(String),
}

/// The pattern binds the name.
pub open spec fn binds(pat: Pattern, name: Seq<char>) -> bool
    decreases pat,
{
    match pat {
        Pattern::Identifier(id) => id.inner@ == name,
        Pattern::Tagged { key, value } => binds(*value, name),
        Pattern::Record(rec) => {
            proof {
                rec.inner.lemma_values_smaller();
            }
            exists|i: int|
                0 <= i < rec.inner.spine().len() && binds((#[trigger] rec.inner.spine()[i]).1, name)
        },
        Pattern::Unit => false,
    }
}

/// The expression reads the variable, as it stands where the expression does.
pub open spec fn accesses(e: ExprKind, name: Seq<char>) -> bool
    decreases e,
{
    match e {
        ExprKind::Let { lhs, rhs, rest } => accesses(rhs.inner, name) || (lhs.inner@ != name && block_accesses(
            rest,
            name,
        )),
        ExprKind::Block(blk) => block_accesses(blk, name),
        ExprKind::If { cond, then_blk, or_else } => accesses(cond.inner, name) || block_accesses(then_blk, name)
            || block_accesses(or_else, name),
        ExprKind::Lambda { arg, body } => arg@ != name && accesses(body.inner, name),
        ExprKind::Call { prim, arg } => accesses(prim.inner, name) || accesses(arg.inner, name),
        ExprKind::Dot { prim, key } => accesses(prim.inner, name),
        ExprKind::Fix { arg, body } => arg@ != name && accesses(body.inner, name),
        ExprKind::FormatString(parts) => exists|i: int|
            0 <= i < parts@.len() && accesses((#[trigger] parts@[i]).inner, name),
        ExprKind::Record(fields) => {
            proof {
                fields.lemma_values_smaller();
            }
            exists|i: int| 0 <= i < fields.spine().len() && accesses((#[trigger] fields.spine()[i]).1.inner, name)
        },
        ExprKind::Update { orig, ovrd } => accesses(orig.inner, name) || accesses(ovrd.inner, name),
        ExprKind::Tagger { key } => false,
        ExprKind::Match { inp, cases } => accesses(inp.inner, name) || exists|i: int|
            0 <= i < cases@.len() && !binds((#[trigger] cases@[i]).pat, name) && accesses(
                cases@[i].body.inner,
                name,
            ),
        ExprKind::Identifier(id) => id@ == name,
        ExprKind::Unit => false,
        ExprKind::Boolean(b) => false,
        ExprKind::Integer(i) => false,
        ExprKind::PureString(s) => false,
    }
}

/// The block reads the variable, as it stands where the block does.
pub open spec fn block_accesses(blk: Block, name: Seq<char>) -> bool
    decreases blk,
{
    ||| exists|i: int| 0 <= i < blk.stmts@.len() && accesses((#[trigger] blk.stmts@[i]).inner, name)
    ||| blk.term matches Some(t) && accesses(t.inner, name)
}

impl Pattern {
    /// Whether the pattern binds the name.
    pub fn is_var_bound(&self, name: &str) -> (r: bool)
        ensures
            r == binds(*self, name@),
        decreases self,
    {
        match self {
            Pattern::Identifier(id) => same_text(id.inner.as_str(), name),
            Pattern::Tagged { key, value } => value.is_var_bound(name),
            Pattern::Record(rec) => {
                proof {
                    rec.inner.lemma_values_smaller();
                }
                let n: usize = rec.inner.len();
                let mut i: usize = 0;
                while i < n
                    invariant
                        n == rec.inner.spine().len(),
                        i <= n,
                        *self is Record,
                        *rec == self->Record_0,
                        forall|j: int|
                            0 <= j < n ==> decreases_to!(rec.inner => (#[trigger] rec.inner.spine()[j]).1),
                        forall|j: int| 0 <= j < i ==> !binds((#[trigger] rec.inner.spine()[j]).1, name@),
                    decreases n - i,
                {
                    if rec.inner.value_at(i).is_var_bound(name) {
                        return true;
                    }
                    i += 1;
                }
                false
            },
            Pattern::Unit => false,
        }
    }
}

impl Block {
    /// Whether the block reads the variable.
    pub fn is_var_accessed(&self, name: &str) -> (r: bool)
        ensures
            r == block_accesses(*self, name@),
        decreases self,
    {
        let mut i: usize = 0;
        while i < self.stmts.len()
            invariant
                i <= self.stmts@.len(),
                forall|j: int| 0 <= j < i ==> !accesses((#[trigger] self.stmts@[j]).inner, name@),
            decreases self.stmts@.len() - i,
        {
            if self.stmts[i].inner.is_var_accessed(name) {
                return true;
            }
            i += 1;
        }
        match &self.term {
            Some(t) => t.inner.is_var_accessed(name),
            None => false,
        }
    }
}

impl ExprKind {
    /// Whether the expression reads the variable.
    pub fn is_var_accessed(&self, name: &str) -> (r: bool)
        ensures
            r == accesses(*self, name@),
        decreases self,
    {
        match self {
            ExprKind::Let { lhs, rhs, rest } => rhs.inner.is_var_accessed(name) || (!same_text(
                lhs.inner.as_str(),
                name,
            ) && rest.is_var_accessed(name)),
            ExprKind::Block(blk) => blk.is_var_accessed(name),
            ExprKind::If { cond, then_blk, or_else } => cond.inner.is_var_accessed(name)
                || then_blk.is_var_accessed(name) || or_else.is_var_accessed(name),
            ExprKind::Lambda { arg, body } => !same_text(arg.as_str(), name) && body.inner.is_var_accessed(name),
            ExprKind::Call { prim, arg } => prim.inner.is_var_accessed(name) || arg.inner.is_var_accessed(name),
            ExprKind::Dot { prim, key } => prim.inner.is_var_accessed(name),
            ExprKind::Fix { arg, body } => !same_text(arg.as_str(), name) && body.inner.is_var_accessed(name),
            ExprKind::FormatString(parts) => {
                let mut i: usize = 0;
                while i < parts.len()
                    invariant
                        i <= parts@.len(),
                        *self is FormatString,
                        *parts == self->FormatString_0,
                        forall|j: int| 0 <= j < i ==> !accesses((#[trigger] parts@[j]).inner, name@),
                    decreases parts@.len() - i,
                {
                    if parts[i].inner.is_var_accessed(name) {
                        return true;
                    }
                    i += 1;
                }
                false
            },
            ExprKind::Record(fields) => {
                proof {
                    fields.lemma_values_smaller();
                }
                let n: usize = fields.len();
                let mut i: usize = 0;
                while i < n
                    invariant
                        n == fields.spine().len(),
                        i <= n,
                        *self is Record,
                        *fields == self->Record_0,
                        forall|j: int| 0 <= j < n ==> decreases_to!(fields => (#[trigger] fields.spine()[j]).1),
                        forall|j: int| 0 <= j < i ==> !accesses((#[trigger] fields.spine()[j]).1.inner, name@),
                    decreases n - i,
                {
                    if fields.value_at(i).inner.is_var_accessed(name) {
                        return true;
                    }
                    i += 1;
                }
                false
            },
            ExprKind::Update { orig, ovrd } => orig.inner.is_var_accessed(name) || ovrd.inner.is_var_accessed(name),
            ExprKind::Tagger { key } => false,
            ExprKind::Match { inp, cases } => {
                if inp.inner.is_var_accessed(name) {
                    return true;
                }
                let mut i: usize = 0;
                while i < cases.len()
                    invariant
                        i <= cases@.len(),
                        *self is Match,
                        *cases == self->cases,
                        forall|j: int|
                            0 <= j < i ==> binds((#[trigger] cases@[j]).pat, name@) || !accesses(
                                cases@[j].body.inner,
                                name@,
                            ),
                    decreases cases@.len() - i,
                {
                    if !cases[i].pat.is_var_bound(name) && cases[i].body.inner.is_var_accessed(name) {
                        return true;
                    }
                    i += 1;
                }
                false
            },
            ExprKind::Identifier(id) => same_text(id.as_str(), name),
            ExprKind::Unit => false,
            ExprKind::Boolean(_) => false,
            ExprKind::Integer(_) => false,
            ExprKind::PureString(_) => false,
        }
    }
}

/// The same identifier, read at the same offset.
pub open spec fn same_identifier(a: Identifier, b: Identifier) -> bool {
    a.offset == b.offset && a.inner@ == b.inner@
}

/// The same pattern, part by part.
pub open spec fn same_pattern(a: Pattern, b: Pattern) -> bool
    decreases a,
{
    match (a, b) {
        (Pattern::Identifier(x), Pattern::Identifier(y)) => same_identifier(x, y),
        (Pattern::Tagged { key: ka, value: va }, Pattern::Tagged { key: kb, value: vb }) => same_identifier(ka, kb)
            && same_pattern(*va, *vb),
        (Pattern::Record(x), Pattern::Record(y)) => {
            proof {
                x.inner.lemma_values_smaller();
            }
            &&& x.offset == y.offset
            &&& x.inner.spine().len() == y.inner.spine().len()
            &&& forall|i: int|
                0 <= i < x.inner.spine().len() ==> (#[trigger] x.inner.spine()[i]).0@ == y.inner.spine()[i].0@
                    && same_pattern(x.inner.spine()[i].1, y.inner.spine()[i].1)
        },
        (Pattern::Unit, Pattern::Unit) => true,
        _ => false,
    }
}

/// The same expression, part by part, read at the same offset.
pub open spec fn same_expr(a: Expr, b: Expr) -> bool
    decreases a,
{
    a.offset == b.offset && same_kind(a.inner, b.inner)
}

/// The same expressions in the same order.
pub open spec fn same_exprs(a: Seq<Expr>, b: Seq<Expr>) -> bool
    decreases a,
{
    &&& a.len() == b.len()
    &&& forall|i: int| 0 <= i < a.len() ==> same_expr(#[trigger] a[i], b[i])
}

/// The same block, part by part.
pub open spec fn same_block(a: Block, b: Block) -> bool
    decreases a,
{
    &&& same_exprs(a.stmts@, b.stmts@)
    &&& match (a.term, b.term) {
        (Some(x), Some(y)) => same_expr(*x, *y),
        (None, None) => true,
        _ => false,
    }
}

/// The same alternatives in the same order.
pub open spec fn same_cases(a: Seq<Case>, b: Seq<Case>) -> bool
    decreases a,
{
    &&& a.len() == b.len()
    &&& forall|i: int|
        0 <= i < a.len() ==> same_pattern((#[trigger] a[i]).pat, b[i].pat) && same_expr(a[i].body, b[i].body)
}

/// The same kind of expression, part by part.
pub open spec fn same_kind(a: ExprKind, b: ExprKind) -> bool
    decreases a,
{
    match (a, b) {
        (
            ExprKind::Let { lhs: la, rhs: ra, rest: ta },
            ExprKind::Let { lhs: lb, rhs: rb, rest: tb },
        ) => same_identifier(la, lb) && same_expr(*ra, *rb) && same_block(ta, tb),
        (ExprKind::Block(x), ExprKind::Block(y)) => same_block(x, y),
        (
            ExprKind::If { cond: ca, then_blk: ta, or_else: oa },
            ExprKind::If { cond: cb, then_blk: tb, or_else: ob },
        ) => same_expr(*ca, *cb) && same_block(ta, tb) && same_block(oa, ob),
        (ExprKind::Lambda { arg: aa, body: ba }, ExprKind::Lambda { arg: ab, body: bb }) => aa@ == ab@ && same_expr(
            *ba,
            *bb,
        ),
        (ExprKind::Call { prim: pa, arg: aa }, ExprKind::Call { prim: pb, arg: ab }) => same_expr(*pa, *pb)
            && same_expr(*aa, *ab),
        (ExprKind::Dot { prim: pa, key: ka }, ExprKind::Dot { prim: pb, key: kb }) => same_expr(*pa, *pb)
            && same_identifier(ka, kb),
        (ExprKind::Fix { arg: aa, body: ba }, ExprKind::Fix { arg: ab, body: bb }) => aa@ == ab@ && same_expr(
            *ba,
            *bb,
        ),
        (ExprKind::FormatString(x), ExprKind::FormatString(y)) => same_exprs(x@, y@),
        (ExprKind::Record(x), ExprKind::Record(y)) => {
            proof {
                x.lemma_values_smaller();
            }
            &&& x.spine().len() == y.spine().len()
            &&& forall|i: int|
                0 <= i < x.spine().len() ==> (#[trigger] x.spine()[i]).0@ == y.spine()[i].0@ && same_expr(
                    x.spine()[i].1,
                    y.spine()[i].1,
                )
        },
        (ExprKind::Update { orig: oa, ovrd: va }, ExprKind::Update { orig: ob, ovrd: vb }) => same_expr(*oa, *ob)
            && same_expr(*va, *vb),
        (ExprKind::Tagger { key: ka }, ExprKind::Tagger { key: kb }) => ka@ == kb@,
        (ExprKind::Match { inp: ia, cases: ca }, ExprKind::Match { inp: ib, cases: cb }) => same_expr(*ia, *ib)
            && same_cases(ca@, cb@),
        (ExprKind::Identifier(x), ExprKind::Identifier(y)) => x@ == y@,
        (ExprKind::Unit, ExprKind::Unit) => true,
        (ExprKind::Boolean(x), ExprKind::Boolean(y)) => x == y,
        (ExprKind::Integer(x), ExprKind::Integer(y)) => x == y,
        (ExprKind::PureString(x), ExprKind::PureString(y)) => x@ == y@,
        _ => false,
    }
}

fn identifiers_match(a: &Identifier, b: &Identifier) -> (r: bool)
    ensures
        r == same_identifier(*a, *b),
{
    a.offset == b.offset && same_text(a.inner.as_str(), b.inner.as_str())
}

fn pattern_fields_match(a: &NameMap<String, Pattern>, b: &NameMap<String, Pattern>) -> (r: bool)
    ensures
        r == (a.spine().len() == b.spine().len() && forall|i: int|
            0 <= i < a.spine().len() ==> (#[trigger] a.spine()[i]).0@ == b.spine()[i].0@ && same_pattern(
                a.spine()[i].1,
                b.spine()[i].1,
            )),
    decreases a,
{
    let n: usize = a.len();
    if n != b.len() {
        return false;
    }
    proof {
        a.lemma_values_smaller();
    }
    let mut i: usize = 0;
    while i < n
        invariant
            n == a.spine().len(),
            n == b.spine().len(),
            forall|j: int| 0 <= j < n ==> decreases_to!(a => (#[trigger] a.spine()[j]).1),
            forall|j: int|
                0 <= j < i ==> (#[trigger] a.spine()[j]).0@ == b.spine()[j].0@ && same_pattern(
                    a.spine()[j].1,
                    b.spine()[j].1,
                ),
        decreases n - i,
    {
        if !same_text(a.name_at(i).as_str(), b.name_at(i).as_str()) || !patterns_match(a.value_at(i), b.value_at(i)) {
            assert(a.spine()[i as int].0@ != b.spine()[i as int].0@ || !same_pattern(
                a.spine()[i as int].1,
                b.spine()[i as int].1,
            ));
            return false;
        }
        i += 1;
    }
    true
}

/// Whether two patterns are the same.
pub fn patterns_match(a: &Pattern, b: &Pattern) -> (r: bool)
    ensures
        r == same_pattern(*a, *b),
    decreases a,
{
    match (a, b) {
        (Pattern::Identifier(x), Pattern::Identifier(y)) => identifiers_match(x, y),
        (Pattern::Tagged { key: ka, value: va }, Pattern::Tagged { key: kb, value: vb }) => identifiers_match(ka, kb)
            && patterns_match(va, vb),
        (Pattern::Record(x), Pattern::Record(y)) => x.offset == y.offset && pattern_fields_match(&x.inner, &y.inner),
        (Pattern::Unit, Pattern::Unit) => true,
        _ => false,
    }
}

/// Whether two expressions are the same.
pub fn exprs_match(a: &Expr, b: &Expr) -> (r: bool)
    ensures
        r == same_expr(*a, *b),
    decreases a,
{
    a.offset == b.offset && kinds_match(&a.inner, &b.inner)
}

fn expr_lists_match(a: &Vec<Expr>, b: &Vec<Expr>) -> (r: bool)
    ensures
        r == same_exprs(a@, b@),
    decreases a,
{
    if a.len() != b.len() {
        return false;
    }
    let mut i: usize = 0;
    while i < a.len()
        invariant
            a@.len() == b@.len(),
            forall|j: int| 0 <= j < i ==> same_expr(#[trigger] a@[j], b@[j]),
        decreases a@.len() - i,
    {
        if !exprs_match(&a[i], &b[i]) {
            assert(!same_expr(a@[i as int], b@[i as int]));
            return false;
        }
        i += 1;
    }
    true
}

fn expr_fields_match(a: &NameMap<String, Expr>, b: &NameMap<String, Expr>) -> (r: bool)
    ensures
        r == (a.spine().len() == b.spine().len() && forall|i: int|
            0 <= i < a.spine().len() ==> (#[trigger] a.spine()[i]).0@ == b.spine()[i].0@ && same_expr(
                a.spine()[i].1,
                b.spine()[i].1,
            )),
    decreases a,
{
    let n: usize = a.len();
    if n != b.len() {
        return false;
    }
    proof {
        a.lemma_values_smaller();
    }
    let mut i: usize = 0;
    while i < n
        invariant
            n == a.spine().len(),
            n == b.spine().len(),
            forall|j: int| 0 <= j < n ==> decreases_to!(a => (#[trigger] a.spine()[j]).1),
            forall|j: int|
                0 <= j < i ==> (#[trigger] a.spine()[j]).0@ == b.spine()[j].0@ && same_expr(
                    a.spine()[j].1,
                    b.spine()[j].1,
                ),
        decreases n - i,
    {
        if !same_text(a.name_at(i).as_str(), b.name_at(i).as_str()) || !exprs_match(a.value_at(i), b.value_at(i)) {
            assert(a.spine()[i as int].0@ != b.spine()[i as int].0@ || !same_expr(
                a.spine()[i as int].1,
                b.spine()[i as int].1,
            ));
            return false;
        }
        i += 1;
    }
    true
}

fn case_lists_match(a: &Vec<Case>, b: &Vec<Case>) -> (r: bool)
    ensures
        r == same_cases(a@, b@),
    decreases a,
{
    if a.len() != b.len() {
        return false;
    }
    let mut i: usize = 0;
    while i < a.len()
        invariant
            a@.len() == b@.len(),
            forall|j: int|
                0 <= j < i ==> same_pattern((#[trigger] a@[j]).pat, b@[j].pat) && same_expr(a@[j].body, b@[j].body),
        decreases a@.len() - i,
    {
        if !patterns_match(&a[i].pat, &b[i].pat) || !exprs_match(&a[i].body, &b[i].body) {
            assert(!same_pattern(a@[i as int].pat, b@[i as int].pat) || !same_expr(
                a@[i as int].body,
                b@[i as int].body,
            ));
            return false;
        }
        i += 1;
    }
    true
}

fn blocks_match(a: &Block, b: &Block) -> (r: bool)
    ensures
        r == same_block(*a, *b),
    decreases a,
{
    expr_lists_match(&a.stmts, &b.stmts) && match (&a.term, &b.term) {
        (Some(x), Some(y)) => exprs_match(x, y),
        (None, None) => true,
        _ => false,
    }
}

fn kinds_match(a: &ExprKind, b: &ExprKind) -> (r: bool)
    ensures
        r == same_kind(*a, *b),
    decreases a,
{
    match (a, b) {
        (
            ExprKind::Let { lhs: la, rhs: ra, rest: ta },
            ExprKind::Let { lhs: lb, rhs: rb, rest: tb },
        ) => identifiers_match(la, lb) && exprs_match(ra, rb) && blocks_match(ta, tb),
        (ExprKind::Block(x), ExprKind::Block(y)) => blocks_match(x, y),
        (
            ExprKind::If { cond: ca, then_blk: ta, or_else: oa },
            ExprKind::If { cond: cb, then_blk: tb, or_else: ob },
        ) => exprs_match(ca, cb) && blocks_match(ta, tb) && blocks_match(oa, ob),
        (ExprKind::Lambda { arg: aa, body: ba }, ExprKind::Lambda { arg: ab, body: bb }) => same_text(
            aa.as_str(),
            ab.as_str(),
        ) && exprs_match(ba, bb),
        (ExprKind::Call { prim: pa, arg: aa }, ExprKind::Call { prim: pb, arg: ab }) => exprs_match(pa, pb)
            && exprs_match(aa, ab),
        (ExprKind::Dot { prim: pa, key: ka }, ExprKind::Dot { prim: pb, key: kb }) => exprs_match(pa, pb)
            && identifiers_match(ka, kb),
        (ExprKind::Fix { arg: aa, body: ba }, ExprKind::Fix { arg: ab, body: bb }) => same_text(
            aa.as_str(),
            ab.as_str(),
        ) && exprs_match(ba, bb),
        (ExprKind::FormatString(x), ExprKind::FormatString(y)) => expr_lists_match(x, y),
        (ExprKind::Record(x), ExprKind::Record(y)) => expr_fields_match(x, y),
        (ExprKind::Update { orig: oa, ovrd: va }, ExprKind::Update { orig: ob, ovrd: vb }) => exprs_match(oa, ob)
            && exprs_match(va, vb),
        (ExprKind::Tagger { key: ka }, ExprKind::Tagger { key: kb }) => same_text(ka.as_str(), kb.as_str()),
        (ExprKind::Match { inp: ia, cases: ca }, ExprKind::Match { inp: ib, cases: cb }) => exprs_match(ia, ib)
            && case_lists_match(ca, cb),
        (ExprKind::Identifier(x), ExprKind::Identifier(y)) => same_text(x.as_str(), y.as_str()),
        (ExprKind::Unit, ExprKind::Unit) => true,
        (ExprKind::Boolean(x), ExprKind::Boolean(y)) => *x == *y,
        (ExprKind::Integer(x), ExprKind::Integer(y)) => *x == *y,
        (ExprKind::PureString(x), ExprKind::PureString(y)) => same_text(x.as_str(), y.as_str()),
        _ => false,
    }
}

} // verus!
