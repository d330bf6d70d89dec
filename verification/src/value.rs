//! The values that programs compute with.
use crate::chan::{clone_rx, clone_tx, ChanRx, ChanTx};
use crate::names::{assoc, increasing, lemma_assoc_at, lemma_assoc_len, names_of, values_of, Name, NameMap};
use crate::syntax::{exprs_match, same_expr, Expr};
use crate::text::same_text;
use vstd::prelude::*;

verus! {

/// The functions that every program can call.
#[derive(Clone, Copy, Debug, PartialEq, Eq, Structural)]
pub enum Builtin {
    Plus,
    Minus,
    Mult,
    Eq,
    Leq,
    Not,
    SpawnThread,
    MakeChan,
    ChanSend,
    ChanRecv,
    StdioWrite,
}

/// How many arguments a function takes.
pub open spec fn arity(f: Builtin) -> nat {
    match f {
        Builtin::Plus | Builtin::Minus | Builtin::Mult | Builtin::Eq | Builtin::Leq | Builtin::ChanSend => 2,
        Builtin::Not | Builtin::SpawnThread | Builtin::MakeChan | Builtin::ChanRecv | Builtin::StdioWrite => 1,
    }
}

impl Builtin {
    /// How many arguments the function takes.
    pub fn argc(self) -> (r: usize)
        ensures
            r == arity(self),
    {
        match self {
            Self::Plus | Self::Minus | Self::Mult | Self::Eq | Self::Leq => 2,
            Self::Not | Self::SpawnThread | Self::StdioWrite => 1,
            Self::MakeChan => 1,
            Self::ChanSend => 2,
            Self::ChanRecv => 1,
        }
    }
}

/// A value of a running program.
#[derive(Debug)]
#[must_use]
#[allow(inconsistent_fields)]
pub enum Value<'a> {
    Unit,
    Boolean(bool),
    Integer(i32),
    PureString(String),
    Record(NameMap<&'a str, Value<'a>>),
    Tagger { key: &'a str },
    Tagged { key: &'a str, value: Box<Value<'a>> },
    Builtin { f: Builtin, args: Vec<Value<'a>> },
    Lambda { argname: &'a str, f: &'a Expr, stacksave: NameMap<&'a str, Value<'a>> },
    FixLambda { argname: &'a str, f: &'a Expr },
    ChanSend(ChanTx<'a>),
    ChanRecv(ChanRx<'a>),
}

/// What a value is, whatever memory it lives in.
pub enum Val<'a> {
    Unit,
    Boolean(bool),
    Integer(i32),
    Text(Seq<char>),
    Record(Map<Seq<char>, Val<'a>>),
    Tagger(Seq<char>),
    Tagged(Seq<char>, Box<Val<'a>>),
    Builtin(Builtin, Seq<Val<'a>>),
    Lambda { arg: Seq<char>, body: Expr, saved: Map<Seq<char>, Val<'a>> },
    FixLambda { arg: Seq<char>, body: Expr },
    ChanSend(ChanTx<'a>),
    ChanRecv(ChanRx<'a>),
}

/// What a value is.
pub open spec fn val<'a>(v: Value<'a>) -> Val<'a>
    decreases v,
{
    match v {
        Value::Unit => Val::Unit,
        Value::Boolean(b) => Val::Boolean(b),
        Value::Integer(i) => Val::Integer(i),
        Value::PureString(s) => Val::Text(s@),
        Value::Record(m) => Val::Record(fields(m)),
        Value::Tagger { key } => Val::Tagger(key@),
        Value::Tagged { key, value } => Val::Tagged(key@, Box::new(val(*value))),
        Value::Builtin { f, args } => Val::Builtin(f, vals(args@)),
        Value::Lambda { argname, f, stacksave } => Val::Lambda { arg: argname@, body: *f, saved: fields(stacksave) },
        Value::FixLambda { argname, f } => Val::FixLambda { arg: argname@, body: *f },
        Value::ChanSend(tx) => Val::ChanSend(tx),
        Value::ChanRecv(rx) => Val::ChanRecv(rx),
    }
}

/// What some values are, in order.
pub open spec fn vals<'a>(s: Seq<Value<'a>>) -> Seq<Val<'a>>
    decreases s,
{
    Seq::new(
        s.len(),
        |i: int|
            if 0 <= i < s.len() {
                val(s[i])
            } else {
                arbitrary()
            },
    )
}

/// What the values of a map are, by name.
pub open spec fn fields<'a>(m: NameMap<&'a str, Value<'a>>) -> Map<Seq<char>, Val<'a>>
    decreases m,
{
    proof {
        m.lemma_values_smaller();
    }
    assoc(
        names_of(m.spine()),
        Seq::new(
            m.spine().len(),
            |i: int|
                if 0 <= i < m.spine().len() {
                    val(m.spine()[i].1)
                } else {
                    arbitrary()
                },
        ),
    )
}

impl<'a> View for Value<'a> {
    type V = Val<'a>;

    open spec fn view(&self) -> Val<'a> {
        val(*self)
    }
}

/// `==` on values: part by part, except that the ends of channels are equal to nothing.
pub open spec fn same<'a>(a: Val<'a>, b: Val<'a>) -> bool
    decreases a,
{
    match (a, b) {
        (Val::Unit, Val::Unit) => true,
        (Val::Boolean(x), Val::Boolean(y)) => x == y,
        (Val::Integer(x), Val::Integer(y)) => x == y,
        (Val::Text(x), Val::Text(y)) => x == y,
        (Val::Record(x), Val::Record(y)) => same_fields(x, y),
        (Val::Tagger(x), Val::Tagger(y)) => x == y,
        (Val::Tagged(kx, x), Val::Tagged(ky, y)) => kx == ky && same(*x, *y),
        (Val::Builtin(fx, x), Val::Builtin(fy, y)) => fx == fy && same_list(x, y),
        (
            Val::Lambda { arg: ax, body: ex, saved: sx },
            Val::Lambda { arg: ay, body: ey, saved: sy },
        ) => ax == ay && same_expr(ex, ey) && same_fields(sx, sy),
        (Val::FixLambda { arg: ax, body: ex }, Val::FixLambda { arg: ay, body: ey }) => ax == ay && same_expr(ex, ey),
        _ => false,
    }
}

/// `==` on lists of values: the same length, and equal place by place.
pub open spec fn same_list<'a>(a: Seq<Val<'a>>, b: Seq<Val<'a>>) -> bool
    decreases a,
{
    &&& a.len() == b.len()
    &&& forall|i: int| 0 <= i < a.len() ==> same(#[trigger] a[i], b[i])
}

/// `==` on maps: the same finitely many names, and equal name by name.
pub open spec fn same_fields<'a>(a: Map<Seq<char>, Val<'a>>, b: Map<Seq<char>, Val<'a>>) -> bool
    decreases a,
{
    &&& a.dom().finite()
    &&& a.dom() == b.dom()
    &&& forall|k: Seq<char>| #[trigger] a.dom().contains(k) ==> same(a[k], b[k])
}

/// The map of a record has the names of its entries, and under each what the value beside it is.
pub proof fn lemma_fields<'a>(m: NameMap<&'a str, Value<'a>>)
    requires
        increasing(names_of(m.spine())),
    ensures
        fields(m).dom() == m@.dom(),
        fields(m).dom().finite(),
        fields(m).len() == m.spine().len(),
        forall|k: Seq<char>| #[trigger] m@.contains_key(k) ==> fields(m)[k] == val(m@[k]),
        forall|i: int|
            0 <= i < m.spine().len() ==> fields(m).contains_key((#[trigger] m.spine()[i]).0@) && fields(
                m,
            )[m.spine()[i].0@] == val(m.spine()[i].1),
{
    let names = names_of(m.spine());
    let vs = Seq::new(
        m.spine().len(),
        |i: int|
            if 0 <= i < m.spine().len() {
                val(m.spine()[i].1)
            } else {
                arbitrary()
            },
    );
    lemma_assoc_len(names, vs);
    assert(fields(m) == assoc(names, vs));
    assert(fields(m).dom() =~= m@.dom());
    assert forall|i: int| 0 <= i < m.spine().len() implies fields(m).contains_key((#[trigger] m.spine()[i]).0@)
        && fields(m)[m.spine()[i].0@] == val(m.spine()[i].1) by {
        lemma_assoc_at(names, vs, i);
        assert(names[i] == m.spine()[i].0.name());
    }
    assert forall|k: Seq<char>| #[trigger] m@.contains_key(k) implies fields(m)[k] == val(m@[k]) by {
        let i = names.index_of(k);
        lemma_assoc_at(names, vs, i);
        lemma_assoc_at(names, values_of(m.spine()), i);
    }
}

/// Maps whose entries have the same names and the same values, place by place, are the same.
pub proof fn lemma_fields_same<'a>(a: NameMap<&'a str, Value<'a>>, b: NameMap<&'a str, Value<'a>>)
    requires
        a.spine().len() == b.spine().len(),
        forall|i: int|
            0 <= i < a.spine().len() ==> (#[trigger] a.spine()[i]).0@ == b.spine()[i].0@ && val(a.spine()[i].1) == val(
                b.spine()[i].1,
            ),
    ensures
        fields(a) == fields(b),
{
    assert(names_of(a.spine()) =~= names_of(b.spine()));
    assert(Seq::new(
        a.spine().len(),
        |i: int|
            if 0 <= i < a.spine().len() {
                val(a.spine()[i].1)
            } else {
                arbitrary()
            },
    ) =~= Seq::new(
        b.spine().len(),
        |i: int|
            if 0 <= i < b.spine().len() {
                val(b.spine()[i].1)
            } else {
                arbitrary()
            },
    ));
}

fn clone_fields<'a>(m: &NameMap<&'a str, Value<'a>>) -> (r: NameMap<&'a str, Value<'a>>)
    ensures
        fields(r) == fields(*m),
    decreases m,
{
    let n: usize = m.len();
    proof {
        m.lemma_values_smaller();
    }
    let mut entries: Vec<(&'a str, Value<'a>)> = Vec::new();
    let mut i: usize = 0;
    while i < n
        invariant
            n == m.spine().len(),
            i <= n,
            i == entries@.len(),
            forall|j: int| 0 <= j < n ==> decreases_to!(m => (#[trigger] m.spine()[j]).1),
            forall|j: int|
                0 <= j < i ==> (#[trigger] entries@[j]).0@ == m.spine()[j].0@ && val(entries@[j].1) == val(
                    m.spine()[j].1,
                ),
        decreases n - i,
    {
        let name: &'a str = *m.name_at(i);
        entries.push((name, m.value_at(i).clone()));
        i += 1;
    }
    assert(names_of(entries@) =~= names_of(m.spine()));
    let r = NameMap::from_sorted(entries);
    proof {
        lemma_fields_same(r, *m);
    }
    r
}

fn clone_list<'a>(l: &Vec<Value<'a>>) -> (r: Vec<Value<'a>>)
    ensures
        vals(r@) == vals(l@),
    decreases l,
{
    let mut r: Vec<Value<'a>> = Vec::new();
    let mut i: usize = 0;
    while i < l.len()
        invariant
            i <= l@.len(),
            i == r@.len(),
            forall|j: int| 0 <= j < i ==> val(#[trigger] r@[j]) == val(l@[j]),
        decreases l@.len() - i,
    {
        r.push(l[i].clone());
        i += 1;
    }
    assert(vals(r@) =~= vals(l@));
    r
}

impl<'a> Clone for Value<'a> {
    fn clone(&self) -> (r: Self)
        ensures
            r@ == self@,
        decreases self,
    {
        match self {
            Value::Unit => Value::Unit,
            Value::Boolean(b) => Value::Boolean(*b),
            Value::Integer(i) => Value::Integer(*i),
            Value::PureString(s) => Value::PureString(s.clone()),
            Value::Record(m) => Value::Record(clone_fields(m)),
            Value::Tagger { key } => Value::Tagger { key: *key },
            Value::Tagged { key, value } => Value::Tagged { key: *key, value: Box::new((&**value).clone()) },
            Value::Builtin { f, args } => Value::Builtin { f: *f, args: clone_list(args) },
            Value::Lambda { argname, f, stacksave } => Value::Lambda {
                argname: *argname,
                f: *f,
                stacksave: clone_fields(stacksave),
            },
            Value::FixLambda { argname, f } => Value::FixLambda { argname: *argname, f: *f },
            Value::ChanSend(tx) => Value::ChanSend(clone_tx(tx)),
            Value::ChanRecv(rx) => Value::ChanRecv(clone_rx(rx)),
        }
    }
}

fn fields_match<'a>(a: &NameMap<&'a str, Value<'a>>, b: &NameMap<&'a str, Value<'a>>) -> (r: bool)
    ensures
        r == same_fields(fields(*a), fields(*b)),
    decreases a,
{
    let n: usize = a.len();
    let m: usize = b.len();
    proof {
        a.lemma_values_smaller();
        lemma_fields(*a);
        lemma_fields(*b);
    }
    if n != m {
        return false;
    }
    let mut i: usize = 0;
    while i < n
        invariant
            n == a.spine().len(),
            n == b.spine().len(),
            forall|j: int| 0 <= j < n ==> decreases_to!(a => (#[trigger] a.spine()[j]).1),
            fields(*b).dom() == b@.dom(),
            forall|k: Seq<char>| #[trigger] b@.contains_key(k) ==> fields(*b)[k] == val(b@[k]),
            forall|j: int|
                0 <= j < a.spine().len() ==> fields(*a).contains_key((#[trigger] a.spine()[j]).0@) && fields(
                    *a,
                )[a.spine()[j].0@] == val(a.spine()[j].1),
            forall|j: int|
                0 <= j < i ==> fields(*b).contains_key((#[trigger] a.spine()[j]).0@) && same(
                    fields(*a)[a.spine()[j].0@],
                    fields(*b)[a.spine()[j].0@],
                ),
        decreases n - i,
    {
        let ghost k = a.spine()[i as int].0@;
        match b.get(a.name_at(i).text()) {
            Some(v) => {
                if !values_match(a.value_at(i), v) {
                    assert(fields(*a).dom().contains(k));
                    assert(!same(fields(*a)[k], fields(*b)[k]));
                    return false;
                }
            },
            None => {
                assert(fields(*a).dom().contains(k) && !fields(*b).dom().contains(k));
                return false;
            },
        }
        i += 1;
    }
    proof {
        let x = fields(*a);
        let y = fields(*b);
        assert forall|k: Seq<char>| #[trigger] x.dom().contains(k) implies y.dom().contains(k) && same(x[k], y[k]) by {
            let names = names_of(a.spine());
            let j = names.index_of(k);
            assert(names[j] == k);
            assert(a.spine()[j].0@ == k);
        }
        assert forall|k: Seq<char>| y.dom().contains(k) implies x.dom().contains(k) by {
            if !x.dom().contains(k) {
                x.dom().lemma_subset_not_in_lt(y.dom(), k);
            }
        }
        assert(x.dom() =~= y.dom());
    }
    true
}

fn lists_match<'a>(a: &Vec<Value<'a>>, b: &Vec<Value<'a>>) -> (r: bool)
    ensures
        r == same_list(vals(a@), vals(b@)),
    decreases a,
{
    if a.len() != b.len() {
        return false;
    }
    let mut i: usize = 0;
    while i < a.len()
        invariant
            a@.len() == b@.len(),
            forall|j: int| 0 <= j < i ==> same(#[trigger] vals(a@)[j], vals(b@)[j]),
        decreases a@.len() - i,
    {
        if !values_match(&a[i], &b[i]) {
            assert(!same(vals(a@)[i as int], vals(b@)[i as int]));
            return false;
        }
        i += 1;
    }
    true
}

/// Whether two values are equal.
pub fn values_match<'a>(a: &Value<'a>, b: &Value<'a>) -> (r: bool)
    ensures
        r == same(a@, b@),
    decreases a,
{
    match (a, b) {
        (Value::Unit, Value::Unit) => true,
        (Value::Boolean(x), Value::Boolean(y)) => *x == *y,
        (Value::Integer(x), Value::Integer(y)) => *x == *y,
        (Value::PureString(x), Value::PureString(y)) => same_text(x.as_str(), y.as_str()),
        (Value::Record(x), Value::Record(y)) => fields_match(x, y),
        (Value::Tagger { key: x }, Value::Tagger { key: y }) => same_text(x, y),
        (Value::Tagged { key: kx, value: x }, Value::Tagged { key: ky, value: y }) => same_text(kx, ky)
            && values_match(x, y),
        (Value::Builtin { f: fx, args: x }, Value::Builtin { f: fy, args: y }) => *fx == *fy && lists_match(x, y),
        (
            Value::Lambda { argname: ax, f: fx, stacksave: sx },
            Value::Lambda { argname: ay, f: fy, stacksave: sy },
        ) => same_text(ax, ay) && exprs_match(fx, fy) && fields_match(sx, sy),
        (Value::FixLambda { argname: ax, f: fx }, Value::FixLambda { argname: ay, f: fy }) => same_text(ax, ay)
            && exprs_match(fx, fy),
        _ => false,
    }
}

impl<'a> vstd::std_specs::cmp::PartialEqSpecImpl for Value<'a> {
    open spec fn obeys_eq_spec() -> bool {
        true
    }

    open spec fn eq_spec(&self, other: &Self) -> bool {
        same(self@, other@)
    }
}

impl<'a> PartialEq for Value<'a> {
    fn eq(&self, other: &Self) -> (r: bool) {
        values_match(self, other)
    }
}

impl<'a> vstd::std_specs::convert::FromSpecImpl<Builtin> for Value<'a> {
    open spec fn obeys_from_spec() -> bool {
        false
    }

    open spec fn from_spec(x: Builtin) -> Self {
        arbitrary()
    }
}

impl<'a> From<Builtin> for Value<'a> {
    /// The function as a value, with no argument yet.
    fn from(x: Builtin) -> (r: Self)
        ensures
            r@ == Val::<'a>::Builtin(x, Seq::empty()),
    {
        let r = Value::Builtin { f: x, args: Vec::new() };
        assert(vals(r->args@) =~= Seq::empty());
        r
    }
}

/// What a value is built of, whatever memory it lives in.
pub proof fn law_values_are_what_they_are_built_of<'a>(v: Value<'a>)
    ensures
        v is Unit ==> v@ is Unit,
        v matches Value::Boolean(b) ==> v@ == Val::<'a>::Boolean(b),
        v matches Value::Integer(i) ==> v@ == Val::<'a>::Integer(i),
        v matches Value::PureString(s) ==> v@ == Val::<'a>::Text(s@),
        v matches Value::Tagger { key } ==> v@ == Val::<'a>::Tagger(key@),
        v matches Value::Tagged { key, value } ==> v@ == Val::Tagged(key@, Box::new((*value)@)),
        v matches Value::Builtin { f, args } ==> v@ is Builtin && v@->Builtin_0 == f && v@->Builtin_1.len()
            == args@.len() && forall|i: int| 0 <= i < args@.len() ==> #[trigger] v@->Builtin_1[i] == args@[i]@,
        v matches Value::ChanSend(tx) ==> v@ == Val::ChanSend(tx),
        v matches Value::ChanRecv(rx) ==> v@ == Val::ChanRecv(rx),
        v matches Value::Record(m) ==> v@ == Val::Record(fields(m)),
        v matches Value::Lambda { argname, f, stacksave } ==> v@ == (Val::Lambda {
            arg: argname@,
            body: *f,
            saved: fields(stacksave),
        }),
        v matches Value::FixLambda { argname, f } ==> v@ == (Val::FixLambda { arg: argname@, body: *f }),
{
    match v {
        Value::Builtin { f, args } => {
            assert(v@ == Val::Builtin(f, vals(args@)));
        },
        _ => {},
    }
}

/// The fields of a record are those that its map lists, each with what its value is.
pub proof fn law_fields_are_what_is_listed<'a>(m: NameMap<&'a str, Value<'a>>, k: Seq<char>)
    requires
        m.sorted(),
    ensures
        fields(m).contains_key(k) <==> exists|i: int| 0 <= i < m.spine().len() && (#[trigger] m.spine()[i]).0@ == k,
        forall|i: int| 0 <= i < m.spine().len() ==> fields(m)[(#[trigger] m.spine()[i]).0@] == m.spine()[i].1@,
{
    lemma_fields(m);
    let (names, values) = (names_of(m.spine()), values_of(m.spine()));
    if fields(m).contains_key(k) {
        assert(names.contains(k));
        let i = names.index_of(k);
        assert(m.spine()[i].0@ == k);
    }
    assert forall|i: int| 0 <= i < m.spine().len() implies fields(m).contains_key(m.spine()[i].0@) && fields(
        m,
    )[(#[trigger] m.spine()[i]).0@] == m.spine()[i].1@ by {
        lemma_assoc_at(names, values, i);
        assert(names[i] == m.spine()[i].0@);
    }
}

} // verus!
