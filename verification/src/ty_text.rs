//! How types and type schemes are written.
use crate::names::NameMap;
use crate::text::{digits, push_digits};
use crate::ty::{forms, FinalArgMultiplicity, Scheme, Symbol, Ty, TyForm, TyLit};
use crate::tyvars::{push_set, set_text};
use vstd::prelude::*;
use vstd::string::*;

verus! {

/// The text that the `Debug` implementation of `str` gives for a text: in double quotes, with the
/// characters escaped that need it.
pub uninterp spec fn str_debug(s: Seq<char>) -> Seq<char>;

/// A letter or digit of ASCII, or an underscore.
pub open spec fn word_char(c: char) -> bool {
    'a' <= c <= 'z' || 'A' <= c <= 'Z' || '0' <= c <= '9' || c == '_'
}

/// A text of such characters.
pub open spec fn word(s: Seq<char>) -> bool {
    forall|i: int| 0 <= i < s.len() ==> word_char(#[trigger] s[i])
}

/// Calls the `Debug` implementation of std's `str`, through `format`; the result is a function of the
/// text alone. In a text of ASCII letters, digits and underscores nothing needs to be escaped: it comes
/// as it is, in double quotes. How other texts are escaped is left unsaid.
#[verifier::external_body]
fn quote(s: &str) -> (r: String)
    ensures
        r@ == str_debug(s@),
        word(s@) ==> r@ == seq!['"'] + s@ + seq!['"'],
{
    format!("{:?}", s)
}

/// Names and what belongs to them, already written.
pub open spec fn entries_text(items: Seq<(Seq<char>, Seq<char>)>) -> Seq<char>
    decreases items.len(),
{
    if items.len() == 0 {
        Seq::empty()
    } else {
        let last = items.last().0 + ": "@ + items.last().1;
        if items.len() == 1 {
            last
        } else {
            entries_text(items.drop_last()) + ", "@ + last
        }
    }
}

/// How a map is written whose entries are already written.
pub open spec fn map_text(items: Seq<(Seq<char>, Seq<char>)>) -> Seq<char> {
    "{"@ + entries_text(items) + "}"@
}

/// The views of written entries.
pub open spec fn item_views(items: Seq<(String, String)>) -> Seq<(Seq<char>, Seq<char>)> {
    Seq::new(items.len(), |i: int| (items[i].0@, items[i].1@))
}

/// Writes a map at the end of a text, given its entries already written.
pub fn push_map(out: &mut String, items: &Vec<(String, String)>)
    ensures
        final(out)@ == old(out)@ + map_text(item_views(items@)),
{
    let ghost all = item_views(items@);
    out.append("{");
    let ghost head = out@;
    let mut i: usize = 0;
    assert(all.take(0) =~= Seq::empty());
    assert(out@ =~= head + entries_text(all.take(0)));
    while i < items.len()
        invariant
            all == item_views(items@),
            i <= all.len(),
            out@ == head + entries_text(all.take(i as int)),
        decreases all.len() - i,
    {
        assert(all.take(i + 1).drop_last() =~= all.take(i as int));
        if i > 0 {
            out.append(", ");
        }
        out.append(items[i].0.as_str());
        out.append(": ");
        out.append(items[i].1.as_str());
        assert(out@ =~= head + entries_text(all.take(i + 1)));
        i += 1;
    }
    assert(all.take(all.len() as int) =~= all);
    out.append("}");
    assert(out@ =~= old(out)@ + map_text(all));
}

/// How an atomic type is written.
pub open spec fn lit_text(lit: TyLit) -> Seq<char> {
    match lit {
        TyLit::Unit => "()"@,
        TyLit::Bool => "Bool"@,
        TyLit::Int => "Int"@,
        TyLit::String => "Str"@,
    }
}

/// How a multiplicity is written.
pub open spec fn multi_text(multi: FinalArgMultiplicity) -> Seq<char> {
    match multi {
        FinalArgMultiplicity::Erased => "0"@,
        FinalArgMultiplicity::Linear => "1"@,
        FinalArgMultiplicity::Unrestricted => "*"@,
    }
}

/// A way to quote names.
pub type Quoting = spec_fn(Seq<char>) -> Seq<char>;

/// The names that occur in a type.
pub open spec fn names_in(t: TyForm) -> Set<Seq<char>>
    decreases t,
{
    match t {
        TyForm::Arrow { arg_multi, arg, ret } => names_in(*arg).union(names_in(*ret)),
        TyForm::ChanSend(x) => names_in(*x),
        TyForm::ChanRecv(x) => names_in(*x),
        TyForm::Record(es) => names_among(es),
        TyForm::TaggedUnion(es) => names_among(es),
        _ => Set::empty(),
    }
}

/// The names of the entries, and those that occur in their types.
pub open spec fn names_among(es: Seq<(Seq<char>, TyForm)>) -> Set<Seq<char>>
    decreases es,
{
    Set::new(
        |k: Seq<char>|
            exists|i: int| 0 <= i < es.len() && ((#[trigger] es[i]).0 == k || names_in(es[i].1).contains(k)),
    )
}

/// How a type is written, where names are quoted in the given way.
pub open spec fn written(t: TyForm, quoting: Quoting) -> Seq<char>
    decreases t,
{
    match t {
        TyForm::Literal(lit) => lit_text(lit),
        TyForm::Var(v) => "$"@ + digits(v as nat),
        TyForm::Arrow { arg_multi, arg, ret } => multi_text(arg_multi) + (if *arg is Arrow {
            "("@ + written(*arg, quoting) + ")"@
        } else {
            written(*arg, quoting)
        }) + " -> "@ + written(*ret, quoting),
        TyForm::ChanSend(x) => "Chan:send("@ + written(*x, quoting) + ")"@,
        TyForm::ChanRecv(x) => "Chan:recv("@ + written(*x, quoting) + ")"@,
        TyForm::Record(es) => map_text(written_items(es, quoting)),
        TyForm::TaggedUnion(es) => "any("@ + map_text(written_items(es, quoting)) + ")"@,
    }
}

/// The written entries of a record or a union: each name quoted, each type marked as one.
pub open spec fn written_items(
    es: Seq<(Seq<char>, TyForm)>,
    quoting: Quoting,
) -> Seq<(Seq<char>, Seq<char>)>
    decreases es,
{
    Seq::new(
        es.len(),
        |i: int|
            if 0 <= i < es.len() {
                (quoting(es[i].0), "Ty{"@ + written(es[i].1, quoting) + "}"@)
            } else {
                arbitrary()
            },
    )
}

/// The way in which names are quoted.
pub open spec fn quoted() -> Quoting {
    |s: Seq<char>| str_debug(s)
}

/// Names in double quotes, as they are.
pub open spec fn plain() -> Quoting {
    |s: Seq<char>| seq!['"'] + s + seq!['"']
}

/// The names in a type are words.
pub open spec fn plainly_named(t: TyForm) -> bool {
    forall|k: Seq<char>| #[trigger] names_in(t).contains(k) ==> word(k)
}

/// Those of the names that are words are quoted as they are.
spec fn plainly_quoted(names: Set<Seq<char>>) -> bool {
    forall|k: Seq<char>| #[trigger] names.contains(k) && word(k) ==> quoted()(k) == plain()(k)
}

/// Two ways of quoting that agree on the names of a type.
proof fn lemma_same_quoting(t: TyForm, p: Quoting, q: Quoting)
    requires
        forall|k: Seq<char>| #[trigger] names_in(t).contains(k) ==> p(k) == q(k),
    ensures
        written(t, p) == written(t, q),
    decreases t,
{
    match t {
        TyForm::Arrow { arg_multi, arg, ret } => {
            assert forall|k: Seq<char>| #[trigger] names_in(*arg).contains(k) implies p(k) == q(k) by {
                assert(names_in(t).contains(k));
            }
            assert forall|k: Seq<char>| #[trigger] names_in(*ret).contains(k) implies p(k) == q(k) by {
                assert(names_in(t).contains(k));
            }
            lemma_same_quoting(*arg, p, q);
            lemma_same_quoting(*ret, p, q);
        },
        TyForm::ChanSend(x) => {
            assert(names_in(t) == names_in(*x));
            lemma_same_quoting(*x, p, q);
        },
        TyForm::ChanRecv(x) => {
            assert(names_in(t) == names_in(*x));
            lemma_same_quoting(*x, p, q);
        },
        TyForm::Record(es) => {
            assert(names_in(t) == names_among(es));
            lemma_same_items(es, p, q);
        },
        TyForm::TaggedUnion(es) => {
            assert(names_in(t) == names_among(es));
            lemma_same_items(es, p, q);
        },
        _ => {},
    }
}

proof fn lemma_same_items(es: Seq<(Seq<char>, TyForm)>, p: Quoting, q: Quoting)
    requires
        forall|k: Seq<char>| #[trigger] names_among(es).contains(k) ==> p(k) == q(k),
    ensures
        written_items(es, p) == written_items(es, q),
    decreases es,
{
    assert forall|i: int| 0 <= i < es.len() implies #[trigger] written_items(es, p)[i] == written_items(es, q)[i] by {
        assert(names_among(es).contains(es[i].0)) by {
            assert(es[i].0 == es[i].0);
        }
        assert forall|k: Seq<char>| #[trigger] names_in(es[i].1).contains(k) implies p(k) == q(k) by {
            assert(names_among(es).contains(k));
        }
        lemma_same_quoting(es[i].1, p, q);
    }
    assert(written_items(es, p) =~= written_items(es, q));
}

/// How a type is written.
pub open spec fn ty_text(t: TyForm) -> Seq<char> {
    written(t, quoted())
}

/// How a type is written where it is marked as one.
pub open spec fn ty_debug(t: TyForm) -> Seq<char> {
    "Ty{"@ + ty_text(t) + "}"@
}

/// How a type scheme is written: its bound variables, then its type.
pub open spec fn scheme_text(s: Scheme) -> Seq<char> {
    "<"@ + set_text(s.forall@) + ">("@ + ty_text(s.ty@) + ")"@
}

/// How a type scheme is written where its fields are shown.
pub open spec fn scheme_debug(s: Scheme) -> Seq<char> {
    "Scheme { forall: "@ + set_text(s.forall@) + ", ty: Ty{"@ + ty_text(s.ty@) + "} }"@
}

impl TyLit {
    fn text(&self) -> (r: &'static str)
        ensures
            r@ == lit_text(*self),
    {
        match self {
            TyLit::Unit => "()",
            TyLit::Bool => "Bool",
            TyLit::Int => "Int",
            TyLit::String => "Str",
        }
    }

    /// The type as text.
    pub fn to_string(&self) -> (r: String)
        ensures
            r@ == lit_text(*self),
    {
        String::from_str(self.text())
    }
}

impl FinalArgMultiplicity {
    fn text(&self) -> (r: &'static str)
        ensures
            r@ == multi_text(*self),
    {
        match self {
            FinalArgMultiplicity::Erased => "0",
            FinalArgMultiplicity::Linear => "1",
            FinalArgMultiplicity::Unrestricted => "*",
        }
    }

    /// The multiplicity as text.
    pub fn to_string(&self) -> (r: String)
        ensures
            r@ == multi_text(*self),
    {
        String::from_str(self.text())
    }
}

fn push_fields(out: &mut String, m: &NameMap<Symbol, Ty>)
    ensures
        final(out)@ == old(out)@ + map_text(written_items(forms(*m), quoted())),
        plainly_quoted(names_among(forms(*m))),
    decreases m,
{
    let ghost es = forms(*m);
    let n: usize = m.len();
    proof {
        m.lemma_values_smaller();
    }
    let mut items: Vec<(String, String)> = Vec::new();
    let mut i: usize = 0;
    while i < n
        invariant
            n == m.spine().len(),
            i <= n,
            i == items@.len(),
            es == forms(*m),
            forall|j: int| 0 <= j < n ==> decreases_to!(m => (#[trigger] m.spine()[j]).1),
            forall|j: int| 0 <= j < i ==> #[trigger] item_views(items@)[j] == written_items(es, quoted())[j],
            forall|j: int|
                0 <= j < i ==> plainly_quoted(names_in((#[trigger] es[j]).1)) && (word(es[j].0) ==> quoted()(es[j].0)
                    == plain()(es[j].0)),
        decreases n - i,
    {
        let mut t = String::from_str("Ty{");
        push_ty(&mut t, m.value_at(i));
        t.append("}");
        let ghost before = items@;
        items.push((quote(m.name_at(i).as_str()), t));
        proof {
            assert(item_views(items@)[i as int] == written_items(es, quoted())[i as int]);
            assert forall|j: int| 0 <= j < i + 1 implies #[trigger] item_views(items@)[j] == written_items(es, quoted())[j] by {
                if j < i {
                    assert(item_views(items@)[j] == item_views(before)[j]);
                }
            }
        }
        i += 1;
    }
    assert(item_views(items@) =~= written_items(es, quoted()));
    assert forall|k: Seq<char>| #[trigger] names_among(es).contains(k) && word(k) implies quoted()(k) == plain()(k) by {
        let j = choose|j: int| 0 <= j < es.len() && ((#[trigger] es[j]).0 == k || names_in(es[j].1).contains(k));
        assert(plainly_quoted(names_in(es[j].1)));
    }
    push_map(out, &items);
}

/// Writes a type at the end of a text.
fn push_ty(out: &mut String, t: &Ty)
    ensures
        final(out)@ == old(out)@ + ty_text(t@),
        plainly_quoted(names_in(t@)),
    decreases t,
{
    match t {
        Ty::Literal(lit) => {
            out.append(lit.text());
        },
        Ty::Var(v) => {
            out.append("$");
            push_digits(out, *v as u64);
        },
        Ty::Arrow { arg_multi, arg, ret } => {
            out.append(arg_multi.text());
            if let Ty::Arrow { .. } = &**arg {
                out.append("(");
                push_ty(out, arg);
                out.append(")");
            } else {
                push_ty(out, arg);
            }
            out.append(" -> ");
            push_ty(out, ret);
        },
        Ty::ChanSend(x) => {
            out.append("Chan:send(");
            push_ty(out, x);
            out.append(")");
        },
        Ty::ChanRecv(x) => {
            out.append("Chan:recv(");
            push_ty(out, x);
            out.append(")");
        },
        Ty::Record(m) => {
            push_fields(out, m);
        },
        Ty::TaggedUnion(m) => {
            out.append("any(");
            push_fields(out, m);
            out.append(")");
        },
    }
    assert(out@ =~= old(out)@ + ty_text(t@));
}

impl Ty {
    /// The type as text.
    pub fn to_string(&self) -> (r: String)
        ensures
            r@ == ty_text(self@),
            plainly_named(self@) ==> r@ == written(self@, plain()),
    {
        let mut out = String::new();
        push_ty(&mut out, self);
        proof {
            if plainly_named(self@) {
                lemma_same_quoting(self@, quoted(), plain());
            }
        }
        assert(out@ =~= ty_text(self@));
        out
    }

    /// The type as text that marks it as a type.
    pub fn debug_text(&self) -> (r: String)
        ensures
            r@ == ty_debug(self@),
    {
        let mut out = String::from_str("Ty{");
        push_ty(&mut out, self);
        out.append("}");
        out
    }
}

impl Scheme {
    /// The scheme as text.
    pub fn to_string(&self) -> (r: String)
        ensures
            r@ == scheme_text(*self),
    {
        let mut out = String::from_str("<");
        push_set(&mut out, &self.forall);
        out.append(">(");
        push_ty(&mut out, &self.ty);
        out.append(")");
        assert(out@ =~= scheme_text(*self));
        out
    }

    /// The scheme as text that shows its fields.
    pub fn debug_text(&self) -> (r: String)
        ensures
            r@ == scheme_debug(*self),
    {
        let mut out = String::from_str("Scheme { forall: ");
        push_set(&mut out, &self.forall);
        out.append(", ty: Ty{");
        push_ty(&mut out, &self.ty);
        out.append("} }");
        assert(out@ =~= scheme_debug(*self));
        out
    }
}

} // verus!
