//! Laws of written types: how they are written, and that different types are written differently.
use crate::text::{digit, digits};
use crate::ty::{FinalArgMultiplicity, Scheme, TyForm, TyLit};
use crate::ty_text::{
    entries_text, map_text, multi_text, names_among, names_in, plain, plainly_named, quoted, scheme_debug, scheme_text,
    str_debug, ty_debug, ty_text, word, word_char, written, written_items, Quoting,
};
use crate::tyvars::{ascending, lemma_members_unique, listed, members, set_text, TyVar};
use vstd::prelude::*;

verus! {

/// The names are told apart by their quoted forms, which show where they begin and where they end.
pub open spec fn told_apart(quoting: Quoting, names: Set<Seq<char>>) -> bool {
    &&& forall|a: Seq<char>| names.contains(a) ==> (#[trigger] quoting(a)).len() > 0 && quoting(a)[0] == '"'
    &&& forall|a: Seq<char>, b: Seq<char>|
        names.contains(a) && names.contains(b) && (#[trigger] quoting(a)).is_prefix_of(#[trigger] quoting(b)) ==> a == b
}

/// No digit comes first.
spec fn no_digit_first(s: Seq<char>) -> bool {
    s.len() > 0 ==> !(exists|d: nat| d < 10 && s[0] == #[trigger] digit(d))
}

/// The character with which the text of a type begins.
spec fn head(t: TyForm) -> char {
    match t {
        TyForm::Literal(TyLit::Unit) => '(',
        TyForm::Literal(TyLit::Bool) => 'B',
        TyForm::Literal(TyLit::Int) => 'I',
        TyForm::Literal(TyLit::String) => 'S',
        TyForm::Var(v) => '$',
        TyForm::Arrow { arg_multi, arg, ret } => match arg_multi {
            FinalArgMultiplicity::Erased => '0',
            FinalArgMultiplicity::Linear => '1',
            FinalArgMultiplicity::Unrestricted => '*',
        },
        TyForm::ChanSend(x) => 'C',
        TyForm::ChanRecv(x) => 'C',
        TyForm::Record(es) => '{',
        TyForm::TaggedUnion(es) => 'a',
    }
}

proof fn lemma_literals()
    ensures
        "()"@ =~= seq!['(', ')'],
        "Bool"@ =~= seq!['B', 'o', 'o', 'l'],
        "Int"@ =~= seq!['I', 'n', 't'],
        "Str"@ =~= seq!['S', 't', 'r'],
        "$"@ =~= seq!['$'],
        "0"@ =~= seq!['0'],
        "1"@ =~= seq!['1'],
        "*"@ =~= seq!['*'],
        "("@ =~= seq!['('],
        ")"@ =~= seq![')'],
        " -> "@ =~= seq![' ', '-', '>', ' '],
        "Chan:send("@ =~= seq!['C', 'h', 'a', 'n', ':', 's', 'e', 'n', 'd', '('],
        "Chan:recv("@ =~= seq!['C', 'h', 'a', 'n', ':', 'r', 'e', 'c', 'v', '('],
        "any("@ =~= seq!['a', 'n', 'y', '('],
        "{"@ =~= seq!['{'],
        "}"@ =~= seq!['}'],
        ": "@ =~= seq![':', ' '],
        ", "@ =~= seq![',', ' '],
        "Ty{"@ =~= seq!['T', 'y', '{'],
{
    reveal_strlit("()");
    reveal_strlit("Bool");
    reveal_strlit("Int");
    reveal_strlit("Str");
    reveal_strlit("$");
    reveal_strlit("0");
    reveal_strlit("1");
    reveal_strlit("*");
    reveal_strlit("(");
    reveal_strlit(")");
    reveal_strlit(" -> ");
    reveal_strlit("Chan:send(");
    reveal_strlit("Chan:recv(");
    reveal_strlit("any(");
    reveal_strlit("{");
    reveal_strlit("}");
    reveal_strlit(": ");
    reveal_strlit(", ");
    reveal_strlit("Ty{");
}

/// Texts with the same beginning, taken off.
proof fn lemma_cancel(p: Seq<char>, x: Seq<char>, y: Seq<char>)
    requires
        p + x == p + y,
    ensures
        x == y,
{
    assert((p + x).skip(p.len() as int) =~= x);
    assert((p + y).skip(p.len() as int) =~= y);
}

proof fn lemma_head(t: TyForm, quoting: Quoting)
    ensures
        written(t, quoting).len() > 0,
        written(t, quoting)[0] == head(t),
{
    lemma_literals();
}

/// What a number is written with.
proof fn lemma_all_digits(n: nat)
    ensures
        digits(n).len() > 0,
        forall|i: int| 0 <= i < digits(n).len() ==> exists|d: nat| d < 10 && (#[trigger] digits(n)[i]) == digit(d),
    decreases n,
{
    if n < 10 {
        assert(digits(n)[0] == digit(n));
    } else {
        lemma_all_digits(n / 10);
        assert forall|i: int| 0 <= i < digits(n).len() implies exists|d: nat|
            d < 10 && (#[trigger] digits(n)[i]) == digit(d) by {
            if i < digits(n / 10).len() {
                assert(digits(n)[i] == digits(n / 10)[i]);
            } else {
                assert(digits(n)[i] == digit(n % 10));
            }
        }
    }
}

/// Different numbers are written differently.
pub proof fn law_different_numbers_are_written_differently(m: nat, n: nat)
    requires
        digits(m) == digits(n),
    ensures
        m == n,
    decreases m,
{
    lemma_all_digits(m / 10);
    lemma_all_digits(n / 10);
    assert(forall|d: nat| d < 10 ==> #[trigger] digit(d) as int == 48 + d);
    if m < 10 {
        assert(digits(m).len() == 1);
        assert(n < 10);
        assert(digits(m)[0] == digit(m));
        assert(digits(n)[0] == digit(n));
    } else {
        assert(digits(m).len() > 1);
        assert(n >= 10);
        assert(digits(m).last() == digits(n).last());
        assert(digits(m).drop_last() =~= digits(m / 10));
        assert(digits(n).drop_last() =~= digits(n / 10));
        law_different_numbers_are_written_differently(m / 10, n / 10);
        assert(digits(m).last() == digit(m % 10));
        assert(digits(n).last() == digit(n % 10));
        assert(m == 10 * (m / 10) + m % 10);
        assert(n == 10 * (n / 10) + n % 10);
    }
}

/// A number ends where no digit follows.
proof fn lemma_digits_end(m: nat, n: nat, x: Seq<char>, y: Seq<char>)
    requires
        digits(m) + x == digits(n) + y,
        no_digit_first(x),
        no_digit_first(y),
    ensures
        m == n,
        x == y,
{
    let p = digits(m);
    let q = digits(n);
    lemma_all_digits(m);
    lemma_all_digits(n);
    assert((p + x).len() == (q + y).len());
    if p.len() < q.len() {
        assert((p + x)[p.len() as int] == x[0]);
        assert((q + y)[p.len() as int] == q[p.len() as int]);
        assert(false);
    } else if q.len() < p.len() {
        assert((q + y)[q.len() as int] == y[0]);
        assert((p + x)[q.len() as int] == p[q.len() as int]);
        assert(false);
    }
    assert forall|i: int| 0 <= i < p.len() implies p[i] == q[i] by {
        assert((p + x)[i] == p[i]);
        assert((q + y)[i] == q[i]);
    }
    assert(p =~= q);
    law_different_numbers_are_written_differently(m, n);
    lemma_cancel(p, x, y);
}

/// The text of the entries from the `i`-th on.
spec fn entries_from(items: Seq<(Seq<char>, Seq<char>)>, i: int) -> Seq<char>
    decreases items.len() - i,
{
    if 0 <= i < items.len() {
        (if i > 0 {
            ", "@
        } else {
            Seq::empty()
        }) + items[i].0 + ": "@ + items[i].1 + entries_from(items, i + 1)
    } else {
        Seq::empty()
    }
}

proof fn lemma_entries_from(items: Seq<(Seq<char>, Seq<char>)>, i: int)
    requires
        0 <= i <= items.len(),
    ensures
        entries_text(items.take(i)) + entries_from(items, i) == entries_text(items),
    decreases items.len() - i,
{
    if i < items.len() {
        lemma_entries_from(items, i + 1);
        assert(items.take(i + 1).drop_last() =~= items.take(i));
        let rest = entries_from(items, i + 1);
        if i == 0 {
            assert(entries_text(items.take(0)) =~= Seq::empty());
        }
        assert(entries_text(items.take(i)) + entries_from(items, i) =~= entries_text(items.take(i + 1)) + rest);
    } else {
        assert(items.take(i) =~= items);
        assert(entries_text(items) + entries_from(items, i) =~= entries_text(items));
    }
}

/// Two types that begin one text are the same, and what follows them is.
proof fn lemma_read(a: TyForm, b: TyForm, x: Seq<char>, y: Seq<char>, quoting: Quoting, names: Set<Seq<char>>)
    requires
        told_apart(quoting, names),
        names_in(a).subset_of(names),
        names_in(b).subset_of(names),
        no_digit_first(x),
        no_digit_first(y),
        written(a, quoting) + x == written(b, quoting) + y,
    ensures
        a == b,
        x == y,
    decreases a, 2nat,
{
    let p = written(a, quoting);
    let q = written(b, quoting);
    lemma_head(a, quoting);
    lemma_head(b, quoting);
    lemma_literals();
    assert((p + x)[0] == head(a));
    assert((q + y)[0] == head(b));
    match a {
        TyForm::Literal(lit) => {
            assert(b is Literal);
            assert(lit == b->Literal_0);
            lemma_cancel(p, x, y);
        },
        TyForm::Var(m) => {
            assert(b is Var);
            let n = b->Var_0;
            assert(p + x =~= "$"@ + (digits(m as nat) + x));
            assert(q + y =~= "$"@ + (digits(n as nat) + y));
            lemma_cancel("$"@, digits(m as nat) + x, digits(n as nat) + y);
            lemma_digits_end(m as nat, n as nat, x, y);
        },
        TyForm::Arrow { arg_multi, arg, ret } => {
            assert(b is Arrow);
            lemma_read_arrow(a, b, x, y, quoting, names);
        },
        TyForm::ChanSend(u) => {
            assert((p + x)[5] == 's');
            assert(b is ChanSend) by {
                if b is ChanRecv {
                    assert((q + y)[5] == 'r');
                }
            }
            let w = b->ChanSend_0;
            let head = "Chan:send("@;
            assert(p + x =~= head + (written(*u, quoting) + (")"@ + x)));
            assert(q + y =~= head + (written(*w, quoting) + (")"@ + y)));
            lemma_cancel(head, written(*u, quoting) + (")"@ + x), written(*w, quoting) + (")"@ + y));
            lemma_no_digit(')');
            lemma_read(*u, *w, ")"@ + x, ")"@ + y, quoting, names);
            lemma_cancel(")"@, x, y);
        },
        TyForm::ChanRecv(u) => {
            assert((p + x)[5] == 'r');
            assert(b is ChanRecv) by {
                if b is ChanSend {
                    assert((q + y)[5] == 's');
                }
            }
            let w = b->ChanRecv_0;
            let head = "Chan:recv("@;
            assert(p + x =~= head + (written(*u, quoting) + (")"@ + x)));
            assert(q + y =~= head + (written(*w, quoting) + (")"@ + y)));
            lemma_cancel(head, written(*u, quoting) + (")"@ + x), written(*w, quoting) + (")"@ + y));
            lemma_no_digit(')');
            lemma_read(*u, *w, ")"@ + x, ")"@ + y, quoting, names);
            lemma_cancel(")"@, x, y);
        },
        TyForm::Record(es) => {
            assert(b is Record);
            lemma_read_map(es, b->Record_0, x, y, quoting, names);
        },
        TyForm::TaggedUnion(es) => {
            assert(b is TaggedUnion);
            let fs = b->TaggedUnion_0;
            let s = map_text(written_items(es, quoting));
            let t = map_text(written_items(fs, quoting));
            assert(p + x =~= "any("@ + (s + (")"@ + x)));
            assert(q + y =~= "any("@ + (t + (")"@ + y)));
            lemma_cancel("any("@, s + (")"@ + x), t + (")"@ + y));
            lemma_read_map(es, fs, ")"@ + x, ")"@ + y, quoting, names);
            lemma_cancel(")"@, x, y);
        },
    }
}

/// Of these characters none is a digit.
proof fn lemma_no_digit(c: char)
    requires
        c == ')' || c == '}' || c == ' ',
    ensures
        forall|s: Seq<char>| #[trigger] no_digit_first(seq![c] + s),
{
    assert forall|s: Seq<char>| #[trigger] no_digit_first(seq![c] + s) by {
        assert((seq![c] + s)[0] == c);
    }
}

/// The argument of a function type, as it stands in the text.
spec fn arg_text(arg: TyForm, quoting: Quoting) -> Seq<char> {
    if arg is Arrow {
        "("@ + written(arg, quoting) + ")"@
    } else {
        written(arg, quoting)
    }
}

proof fn lemma_read_arrow(a: TyForm, b: TyForm, x: Seq<char>, y: Seq<char>, quoting: Quoting, names: Set<Seq<char>>)
    requires
        a is Arrow,
        b is Arrow,
        told_apart(quoting, names),
        names_in(a).subset_of(names),
        names_in(b).subset_of(names),
        no_digit_first(x),
        no_digit_first(y),
        written(a, quoting) + x == written(b, quoting) + y,
        head(a) == head(b),
    ensures
        a == b,
        x == y,
    decreases a, 1nat,
{
    lemma_literals();
    let (multi, u, v) = (a->arg_multi, *a->arg, *a->ret);
    let (w, z) = (*b->arg, *b->ret);
    assert(b->arg_multi == multi);
    let m = multi_text(multi);
    let rest_a = " -> "@ + written(v, quoting) + x;
    let rest_b = " -> "@ + written(z, quoting) + y;
    assert(written(a, quoting) + x =~= m + (arg_text(u, quoting) + rest_a));
    assert(written(b, quoting) + y =~= m + (arg_text(w, quoting) + rest_b));
    lemma_cancel(m, arg_text(u, quoting) + rest_a, arg_text(w, quoting) + rest_b);
    assert(names_in(u).subset_of(names) && names_in(v).subset_of(names));
    assert(names_in(w).subset_of(names) && names_in(z).subset_of(names));
    lemma_read_arg(a, u, w, rest_a, rest_b, quoting, names);
    assert(rest_a =~= " -> "@ + (written(v, quoting) + x));
    assert(rest_b =~= " -> "@ + (written(z, quoting) + y));
    lemma_cancel(" -> "@, written(v, quoting) + x, written(z, quoting) + y);
    lemma_read(v, z, x, y, quoting, names);
}

proof fn lemma_read_arg(
    a: TyForm,
    u: TyForm,
    w: TyForm,
    rest_a: Seq<char>,
    rest_b: Seq<char>,
    quoting: Quoting,
    names: Set<Seq<char>>,
)
    requires
        a is Arrow,
        u == *a->arg,
        told_apart(quoting, names),
        names_in(u).subset_of(names),
        names_in(w).subset_of(names),
        rest_a.len() > 0 && rest_a[0] == ' ',
        rest_b.len() > 0 && rest_b[0] == ' ',
        arg_text(u, quoting) + rest_a == arg_text(w, quoting) + rest_b,
    ensures
        u == w,
        rest_a == rest_b,
    decreases a, 0nat,
{
    lemma_literals();
    lemma_head(u, quoting);
    lemma_head(w, quoting);
    let p = written(u, quoting);
    let q = written(w, quoting);
    let s = arg_text(u, quoting) + rest_a;
    let t = arg_text(w, quoting) + rest_b;
    assert(no_digit_first(rest_a));
    assert(no_digit_first(rest_b));
    if u is Arrow && w is Arrow {
        assert(s =~= "("@ + (p + (")"@ + rest_a)));
        assert(t =~= "("@ + (q + (")"@ + rest_b)));
        lemma_cancel("("@, p + (")"@ + rest_a), q + (")"@ + rest_b));
        lemma_no_digit(')');
        lemma_read(u, w, ")"@ + rest_a, ")"@ + rest_b, quoting, names);
        lemma_cancel(")"@, rest_a, rest_b);
    } else if u is Arrow {
        assert(s[0] == '(');
        assert(s[1] == p[0]);
        assert(t[0] == q[0]);
        assert(w == TyForm::Literal(TyLit::Unit));
        assert(t[1] == ')');
    } else if w is Arrow {
        assert(t[0] == '(');
        assert(t[1] == q[0]);
        assert(s[0] == p[0]);
        assert(u == TyForm::Literal(TyLit::Unit));
        assert(s[1] == ')');
    } else {
        lemma_read(u, w, rest_a, rest_b, quoting, names);
    }
}

proof fn lemma_read_map(
    es: Seq<(Seq<char>, TyForm)>,
    fs: Seq<(Seq<char>, TyForm)>,
    x: Seq<char>,
    y: Seq<char>,
    quoting: Quoting,
    names: Set<Seq<char>>,
)
    requires
        told_apart(quoting, names),
        names_among(es).subset_of(names),
        names_among(fs).subset_of(names),
        map_text(written_items(es, quoting)) + x == map_text(written_items(fs, quoting)) + y,
    ensures
        es == fs,
        x == y,
    decreases es, es.len() + 1,
{
    lemma_literals();
    let i = written_items(es, quoting);
    let j = written_items(fs, quoting);
    lemma_entries_from(i, 0);
    lemma_entries_from(j, 0);
    assert(entries_text(i.take(0)) + entries_from(i, 0) =~= entries_from(i, 0));
    assert(entries_text(j.take(0)) + entries_from(j, 0) =~= entries_from(j, 0));
    let s = entries_from(i, 0) + ("}"@ + x);
    let t = entries_from(j, 0) + ("}"@ + y);
    assert(map_text(i) + x =~= "{"@ + s);
    assert(map_text(j) + y =~= "{"@ + t);
    lemma_cancel("{"@, s, t);
    lemma_read_entries(es, fs, 0, x, y, quoting, names);
    assert(es.skip(0) =~= es);
    assert(fs.skip(0) =~= fs);
}

proof fn lemma_read_entries(
    es: Seq<(Seq<char>, TyForm)>,
    fs: Seq<(Seq<char>, TyForm)>,
    i: int,
    x: Seq<char>,
    y: Seq<char>,
    quoting: Quoting,
    names: Set<Seq<char>>,
)
    requires
        0 <= i <= es.len(),
        i <= fs.len(),
        told_apart(quoting, names),
        names_among(es).subset_of(names),
        names_among(fs).subset_of(names),
        entries_from(written_items(es, quoting), i) + ("}"@ + x) == entries_from(written_items(fs, quoting), i) + (
        "}"@ + y),
    ensures
        es.skip(i) == fs.skip(i),
        x == y,
    decreases es, (es.len() - i) as nat,
{
    lemma_literals();
    let s = entries_from(written_items(es, quoting), i) + ("}"@ + x);
    let t = entries_from(written_items(fs, quoting), i) + ("}"@ + y);
    if i < es.len() {
        lemma_entry_first(es, i, x, quoting, names);
    }
    if i < fs.len() {
        lemma_entry_first(fs, i, y, quoting, names);
    }
    if i == es.len() {
        assert(s =~= "}"@ + x);
        assert(s[0] == '}');
        assert(i == fs.len());
        assert(t =~= "}"@ + y);
        lemma_cancel("}"@, x, y);
        assert(es.skip(i) =~= fs.skip(i));
    } else {
        if i == fs.len() {
            assert(t =~= "}"@ + y);
            assert(t[0] == '}');
        }
        assert(i < fs.len());
        let rest_a = entries_from(written_items(es, quoting), i + 1) + ("}"@ + x);
        let rest_b = entries_from(written_items(fs, quoting), i + 1) + ("}"@ + y);
        lemma_read_entry(es, fs, i, rest_a, rest_b, x, y, quoting, names);
        lemma_read_entries(es, fs, i + 1, x, y, quoting, names);
        assert(es.skip(i) =~= seq![es[i]] + es.skip(i + 1));
        assert(fs.skip(i) =~= seq![fs[i]] + fs.skip(i + 1));
    }
}

/// An entry does not begin as the end of a map does.
proof fn lemma_entry_first(
    es: Seq<(Seq<char>, TyForm)>,
    i: int,
    x: Seq<char>,
    quoting: Quoting,
    names: Set<Seq<char>>,
)
    requires
        0 <= i < es.len(),
        told_apart(quoting, names),
        names_among(es).subset_of(names),
    ensures
        names.contains(es[i].0),
        names_in(es[i].1).subset_of(names),
        (entries_from(written_items(es, quoting), i) + ("}"@ + x)).len() > 0,
        (entries_from(written_items(es, quoting), i) + ("}"@ + x))[0] != '}',
{
    lemma_literals();
    assert(names_among(es).contains(es[i].0)) by {
        assert(es[i].0 == es[i].0);
    }
    assert forall|k: Seq<char>| names_in(es[i].1).contains(k) implies names.contains(k) by {
        assert(names_among(es).contains(k));
    }
    let q = quoting(es[i].0);
    assert(q.len() > 0 && q[0] == '"');
    let all = entries_from(written_items(es, quoting), i) + ("}"@ + x);
    if i > 0 {
        assert(all[0] == ',');
    } else {
        assert(all[0] == q[0]);
    }
}

proof fn lemma_read_entry(
    es: Seq<(Seq<char>, TyForm)>,
    fs: Seq<(Seq<char>, TyForm)>,
    i: int,
    rest_a: Seq<char>,
    rest_b: Seq<char>,
    x: Seq<char>,
    y: Seq<char>,
    quoting: Quoting,
    names: Set<Seq<char>>,
)
    requires
        0 <= i < es.len(),
        i < fs.len(),
        told_apart(quoting, names),
        names.contains(es[i].0) && names_in(es[i].1).subset_of(names),
        names.contains(fs[i].0) && names_in(fs[i].1).subset_of(names),
        rest_a == entries_from(written_items(es, quoting), i + 1) + ("}"@ + x),
        rest_b == entries_from(written_items(fs, quoting), i + 1) + ("}"@ + y),
        entries_from(written_items(es, quoting), i) + ("}"@ + x) == entries_from(written_items(fs, quoting), i) + (
        "}"@ + y),
    ensures
        es[i] == fs[i],
        rest_a == rest_b,
    decreases es, 0nat,
{
    let (k, u) = es[i];
    let (l, w) = fs[i];
    let p = written(u, quoting) + ("}"@ + rest_a);
    let q = written(w, quoting) + ("}"@ + rest_b);
    let tail_a = ": "@ + ("Ty{"@ + p);
    let tail_b = ": "@ + ("Ty{"@ + q);
    lemma_entry_text(es, i, x, quoting);
    lemma_entry_text(fs, i, y, quoting);
    lemma_cancel(comma(i), quoting(k) + tail_a, quoting(l) + tail_b);
    lemma_prefix(quoting(k), quoting(l), tail_a, tail_b);
    assert(k == l);
    lemma_cancel(quoting(k), tail_a, tail_b);
    lemma_cancel(": "@, "Ty{"@ + p, "Ty{"@ + q);
    lemma_cancel("Ty{"@, p, q);
    lemma_literals();
    lemma_no_digit('}');
    lemma_read(u, w, "}"@ + rest_a, "}"@ + rest_b, quoting, names);
    lemma_cancel("}"@, rest_a, rest_b);
}

/// What stands before an entry.
spec fn comma(i: int) -> Seq<char> {
    if i > 0 {
        ", "@
    } else {
        Seq::empty()
    }
}

proof fn lemma_associative(a: Seq<char>, b: Seq<char>, c: Seq<char>)
    ensures
        a + b + c == a + (b + c),
{
    assert(a + b + c =~= a + (b + c));
}

/// The text of an entry, taken apart.
proof fn lemma_entry_text(es: Seq<(Seq<char>, TyForm)>, i: int, x: Seq<char>, quoting: Quoting)
    requires
        0 <= i < es.len(),
    ensures
        entries_from(written_items(es, quoting), i) + ("}"@ + x) == comma(i) + (quoting(es[i].0) + (": "@ + ("Ty{"@ + (
        written(es[i].1, quoting) + ("}"@ + (entries_from(written_items(es, quoting), i + 1) + ("}"@ + x))))))),
{
    let items = written_items(es, quoting);
    let c = comma(i);
    let k = quoting(es[i].0);
    let t = written(es[i].1, quoting);
    let more = entries_from(items, i + 1);
    let end = "}"@ + x;
    let item = "Ty{"@ + t + "}"@;
    assert(entries_from(items, i) == c + k + ": "@ + item + more);
    lemma_associative(c + k + ": "@ + item, more, end);
    lemma_associative(c + k + ": "@, item, more + end);
    lemma_associative(c + k, ": "@, item + (more + end));
    lemma_associative(c, k, ": "@ + (item + (more + end)));
    lemma_associative("Ty{"@ + t, "}"@, more + end);
    lemma_associative("Ty{"@, t, "}"@ + (more + end));
}

/// Of two beginnings of one text, one begins the other.
proof fn lemma_prefix(p: Seq<char>, q: Seq<char>, x: Seq<char>, y: Seq<char>)
    requires
        p + x == q + y,
    ensures
        p.is_prefix_of(q) || q.is_prefix_of(p),
{
    if p.len() <= q.len() {
        assert((p + x).take(p.len() as int) =~= p);
        assert((q + y).take(p.len() as int) =~= q.take(p.len() as int));
    } else {
        assert((q + y).take(q.len() as int) =~= q);
        assert((p + x).take(q.len() as int) =~= p.take(q.len() as int));
    }
}

/// Different types are written differently, in every way of quoting that tells their names apart and
/// shows where a name begins and where it ends.
pub proof fn law_different_types_are_written_differently(a: TyForm, b: TyForm, quoting: Quoting)
    requires
        told_apart(quoting, names_in(a).union(names_in(b))),
        written(a, quoting) == written(b, quoting),
    ensures
        a == b,
{
    let none = Seq::<char>::empty();
    assert(written(a, quoting) + none =~= written(b, quoting) + none);
    lemma_read(a, b, none, none, quoting, names_in(a).union(names_in(b)));
}

/// Different types in which no names occur are written differently.
pub proof fn law_different_types_without_names_are_written_differently(a: TyForm, b: TyForm)
    requires
        names_in(a) == Set::<Seq<char>>::empty(),
        names_in(b) == Set::<Seq<char>>::empty(),
        ty_text(a) == ty_text(b),
    ensures
        a == b,
{
    law_different_types_are_written_differently(a, b, quoted());
}

/// Different types whose names are plain words are written differently.
pub proof fn law_different_types_with_plain_names_are_written_differently(a: TyForm, b: TyForm)
    requires
        plainly_named(a),
        plainly_named(b),
        written(a, plain()) == written(b, plain()),
    ensures
        a == b,
{
    let names = names_in(a).union(names_in(b));
    assert forall|x: Seq<char>, y: Seq<char>|
        names.contains(x) && names.contains(y) && (#[trigger] plain()(x)).is_prefix_of(
            #[trigger] plain()(y),
        ) implies x == y by {
        let p = plain()(x);
        let q = plain()(y);
        assert(word(x) && word(y));
        assert(p == q.take(p.len() as int));
        assert(p[x.len() as int + 1] == '"');
        if x.len() < y.len() {
            assert(q[x.len() as int + 1] == y[x.len() as int]);
            assert(word_char(y[x.len() as int]));
        }
        assert(x.len() == y.len());
        assert forall|i: int| 0 <= i < x.len() implies x[i] == y[i] by {
            assert(p[i + 1] == x[i]);
            assert(q[i + 1] == y[i]);
        }
        assert(x =~= y);
    }
    law_different_types_are_written_differently(a, b, plain());
}

/// How each kind of type is written, in terms of its parts: the argument of a function stands in
/// parentheses exactly where it is a function itself.
pub proof fn law_types_are_written_part_by_part(t: TyForm, quoting: Quoting)
    ensures
        t matches TyForm::Literal(lit) ==> written(t, quoting) == match lit {
            TyLit::Unit => seq!['(', ')'],
            TyLit::Bool => seq!['B', 'o', 'o', 'l'],
            TyLit::Int => seq!['I', 'n', 't'],
            TyLit::String => seq!['S', 't', 'r'],
        },
        t matches TyForm::Var(v) ==> written(t, quoting) == seq!['$'] + digits(v as nat),
        t matches TyForm::Arrow { arg_multi, arg, ret } ==> *arg is Arrow ==> written(t, quoting) == multi_text(
            arg_multi,
        ) + seq!['('] + written(*arg, quoting) + seq![')'] + seq![' ', '-', '>', ' '] + written(*ret, quoting),
        t matches TyForm::Arrow { arg_multi, arg, ret } ==> !(*arg is Arrow) ==> written(t, quoting) == multi_text(
            arg_multi,
        ) + written(*arg, quoting) + seq![' ', '-', '>', ' '] + written(*ret, quoting),
        t matches TyForm::Arrow { arg_multi, arg, ret } ==> multi_text(arg_multi) == seq![match arg_multi {
            FinalArgMultiplicity::Erased => '0',
            FinalArgMultiplicity::Linear => '1',
            FinalArgMultiplicity::Unrestricted => '*',
        }],
        t matches TyForm::ChanSend(x) ==> written(t, quoting) == seq![
            'C',
            'h',
            'a',
            'n',
            ':',
            's',
            'e',
            'n',
            'd',
            '(',
        ] + written(*x, quoting) + seq![')'],
        t matches TyForm::ChanRecv(x) ==> written(t, quoting) == seq![
            'C',
            'h',
            'a',
            'n',
            ':',
            'r',
            'e',
            'c',
            'v',
            '(',
        ] + written(*x, quoting) + seq![')'],
        t matches TyForm::TaggedUnion(es) ==> written(t, quoting) == seq!['a', 'n', 'y', '('] + written(
            TyForm::Record(es),
            quoting,
        ) + seq![')'],
        t matches TyForm::Record(es) ==> written(t, quoting) == seq!['{'] + entries_text(written_items(es, quoting))
            + seq!['}'],
        t matches TyForm::Record(es) ==> written_items(es, quoting).len() == es.len() && forall|i: int|
            0 <= i < es.len() ==> (#[trigger] written_items(es, quoting)[i]).0 == quoting(es[i].0)
                && written_items(es, quoting)[i].1 == seq!['T', 'y', '{'] + written(es[i].1, quoting) + seq!['}'],
{
    lemma_literals();
    match t {
        TyForm::Arrow { arg_multi, arg, ret } => {
            let (m, p, q) = (multi_text(arg_multi), written(*arg, quoting), written(*ret, quoting));
            if *arg is Arrow {
                assert(m + ("("@ + p + ")"@) + " -> "@ + q =~= m + seq!['('] + p + seq![')'] + seq![' ', '-', '>', ' ']
                    + q);
            }
        },
        TyForm::Record(es) => {
            assert forall|i: int| 0 <= i < es.len() implies (#[trigger] written_items(es, quoting)[i]).0 == quoting(
                es[i].0,
            ) && written_items(es, quoting)[i].1 == seq!['T', 'y', '{'] + written(es[i].1, quoting) + seq!['}'] by {}
        },
        TyForm::TaggedUnion(es) => {
            assert(written(TyForm::Record(es), quoting) == map_text(written_items(es, quoting)));
        },
        _ => {},
    }
}

/// Entries are written one after the other: those of two rows, with a comma between, as those of the
/// whole; one entry as its name, a colon and what belongs to it.
pub proof fn law_entries_are_written_one_by_one(
    a: Seq<(Seq<char>, Seq<char>)>,
    b: Seq<(Seq<char>, Seq<char>)>,
    e: (Seq<char>, Seq<char>),
)
    ensures
        entries_text(Seq::empty()) == Seq::<char>::empty(),
        entries_text(seq![e]) == e.0 + seq![':', ' '] + e.1,
        a.len() > 0 && b.len() > 0 ==> entries_text(a + b) == entries_text(a) + seq![',', ' '] + entries_text(b),
    decreases b.len(),
{
    lemma_literals();
    assert(seq![e].last() == e);
    if a.len() > 0 && b.len() > 0 {
        let less = b.drop_last();
        assert((a + b).drop_last() =~= a + less);
        assert((a + b).last() == b.last());
        if less.len() == 0 {
            assert(a + less =~= a);
        } else {
            law_entries_are_written_one_by_one(a, less, e);
        }
        assert(entries_text(a + b) =~= entries_text(a) + seq![',', ' '] + entries_text(b));
    }
}

/// Sets of variables are written as their members, in order, with commas between, in braces.
pub proof fn law_members_are_written_one_by_one(a: Seq<TyVar>, b: Seq<TyVar>, v: TyVar)
    ensures
        listed(Seq::empty()) == Seq::<char>::empty(),
        listed(seq![v]) == digits(v as nat),
        a.len() > 0 && b.len() > 0 ==> listed(a + b) == listed(a) + seq![',', ' '] + listed(b),
    decreases b.len(),
{
    lemma_literals();
    assert(seq![v][0] == v);
    if a.len() > 0 && b.len() > 0 {
        let less = b.drop_last();
        assert((a + b).drop_last() =~= a + less);
        assert((a + b).last() == b.last());
        if less.len() == 0 {
            assert(a + less =~= a);
            assert(b[0] == b.last());
        } else {
            law_members_are_written_one_by_one(a, less, v);
        }
        assert(listed(a + b) =~= listed(a) + seq![',', ' '] + listed(b));
    }
}

/// A set is written with each member once, in increasing order; a scheme as the set of what it binds
/// and then its type, and where it is shown with its fields, the two with their names.
pub proof fn law_schemes_are_written_with_what_they_bind(s: Scheme, e: Seq<TyVar>)
    requires
        forall|i: int, j: int| 0 <= i < j < e.len() ==> e[i] < e[j],
        forall|v: TyVar| #[trigger] e.contains(v) <==> s.forall@.contains(v),
    ensures
        set_text(s.forall@) == seq!['{'] + listed(e) + seq!['}'],
        scheme_text(s) == seq!['<'] + set_text(s.forall@) + seq!['>', '('] + ty_text(s.ty@) + seq![')'],
        ty_debug(s.ty@) == seq!['T', 'y', '{'] + ty_text(s.ty@) + seq!['}'],
        scheme_debug(s) == "Scheme { forall: "@ + set_text(s.forall@) + ", ty: "@ + ty_debug(s.ty@) + " }"@,
{
    lemma_literals();
    reveal_strlit("<");
    reveal_strlit(">(");
    reveal_strlit(", ty: Ty{");
    reveal_strlit(", ty: ");
    reveal_strlit("} }");
    reveal_strlit(" }");
    assert("<"@ =~= seq!['<']);
    assert(">("@ =~= seq!['>', '(']);
    assert forall|v: TyVar| e.to_set().contains(v) == s.forall@.contains(v) by {
        assert(e.contains(v) == e.to_set().contains(v));
    }
    assert(e.to_set() =~= s.forall@);
    assert(ascending(e) && e.to_set() == s.forall@);
    lemma_members_unique(e, members(s.forall@));
    assert(", ty: Ty{"@ =~= ", ty: "@ + "Ty{"@);
    assert("} }"@ =~= "}"@ + " }"@);
    assert(scheme_debug(s) =~= "Scheme { forall: "@ + set_text(s.forall@) + ", ty: "@ + ty_debug(s.ty@) + " }"@);
}

/// The names in a type stand as texts are shown: whatever way of quoting shows each name so gives the
/// text of the type.
pub proof fn law_names_are_quoted_as_texts_are(t: TyForm, quoting: Quoting)
    requires
        forall|k: Seq<char>| #[trigger] quoting(k) == str_debug(k),
    ensures
        ty_text(t) == written(t, quoting),
        ty_debug(t) == seq!['T', 'y', '{'] + written(t, quoting) + seq!['}'],
{
    lemma_literals();
    assert(quoting =~= quoted());
}

} // verus!
