use gardswag::names::NameMap;
use gardswag::stack::{insert_field, VarStack};
use gardswag::syntax::{exprs_match, patterns_match, Block, Case, Expr, ExprKind, Offsetted, Pattern};
use gardswag::text::{place, push_decimal, push_digits, same_text, Place};
use gardswag::value::{values_match, Builtin, Value};

fn e(inner: ExprKind) -> Expr {
    Offsetted { offset: 0, inner }
}

fn var(s: &str) -> Expr {
    e(ExprKind::Identifier(s.to_string()))
}

fn pat(s: &str) -> Pattern {
    Pattern::Identifier(Offsetted { offset: 0, inner: s.to_string() })
}

#[test]
fn texts_are_ordered_by_their_bytes() {
    assert!(matches!(place("", "a"), Place::Before));
    assert!(matches!(place("ab", "abc"), Place::Before));
    assert!(matches!(place("b", "abc"), Place::After));
    assert!(matches!(place("ab", "ab"), Place::Same));
    assert!(matches!(place("Z", "a"), Place::Before));
    let words = ["", "a", "aa", "Z", "\u{7f}", "\u{e9}", "\u{ffff}", "\u{10000}", "z\u{10ffff}", "zz"];
    for a in words {
        for b in words {
            let expected = if a < b {
                "before"
            } else if a == b {
                "same"
            } else {
                "after"
            };
            let got = match place(a, b) {
                Place::Before => "before",
                Place::Same => "same",
                Place::After => "after",
            };
            assert_eq!(got, expected, "{:?} {:?}", a, b);
            assert_eq!(same_text(a, b), a == b);
        }
    }
}

#[test]
fn numbers_as_text() {
    for n in [0, 1, 9, 10, 99, 100, 65535, u64::MAX] {
        let mut out = "n=".to_string();
        push_digits(&mut out, n);
        assert_eq!(out, format!("n={}", n));
    }
    for i in [0, 7, -7, 10, -10, i32::MAX, i32::MIN] {
        let mut out = String::new();
        push_decimal(&mut out, i);
        assert_eq!(out, format!("{}", i));
    }
}

#[test]
fn maps_by_name() {
    let mut m: NameMap<String, i32> = NameMap::new();
    for (k, v) in [("b", 1), ("a", 2), ("c", 3), ("b", 4)] {
        m.insert(k.to_string(), v);
    }
    assert_eq!(m.len(), 3);
    assert_eq!(m.get("b"), Some(&4));
    assert_eq!(m.get("d"), None);
    assert!(m.contains_key("a"));
    assert!(!m.contains_key(""));
    assert_eq!(m.name_at(0), "a");
    assert_eq!(*m.value_at(2), 3);
    let entries = m.into_entries();
    assert_eq!(entries, vec![("a".to_string(), 2), ("b".to_string(), 4), ("c".to_string(), 3)]);
    let again = NameMap::from_sorted(entries);
    assert_eq!(again.take("b"), Some(4));
    let none: NameMap<&str, i32> = NameMap::new();
    assert_eq!(none.take("b"), None);
}

#[test]
fn fields_of_records() {
    let mut m = NameMap::new();
    insert_field(&mut m, "k", Value::Integer(1));
    insert_field(&mut m, "k", Value::Integer(2));
    assert_eq!(m.len(), 1);
    assert_eq!(m.get("k"), Some(&Value::Integer(2)));
}

#[test]
fn the_newest_binding_counts() {
    let mut s = VarStack::new();
    s.push("a", Value::Integer(1));
    s.push("b", Value::Integer(2));
    let depth = s.depth();
    s.push("a", Value::Integer(3));
    assert_eq!(s.find("a"), Some(&Value::Integer(3)));
    assert_eq!(s.find("b"), Some(&Value::Integer(2)));
    assert_eq!(s.find("c"), None);
    s.truncate(depth);
    assert_eq!(s.find("a"), Some(&Value::Integer(1)));
}

#[test]
fn maps_on_the_stack() {
    let mut s = VarStack::new();
    s.push("a", Value::Integer(1));
    let mut m = NameMap::new();
    m.insert("a", Value::Integer(2));
    m.insert("b", Value::Integer(3));
    let copy = m.get("b").unwrap().clone();
    let mut refs = NameMap::new();
    refs.insert("c", &copy);
    s.push_all(m);
    s.push_copies(&refs);
    assert_eq!(s.depth(), 4);
    assert_eq!(s.find("a"), Some(&Value::Integer(2)));
    assert_eq!(s.find("c"), Some(&Value::Integer(3)));
}

#[test]
fn capturing_takes_the_newest_of_what_is_read() {
    let mut s = VarStack::new();
    s.push("a", Value::Integer(1));
    s.push("x", Value::Integer(5));
    s.push("a", Value::Integer(2));
    s.push("b", Value::Integer(3));
    let body = e(ExprKind::Call { prim: Box::new(var("a")), arg: Box::new(var("x")) });
    let saved = s.capture("x", &body);
    assert_eq!(saved.len(), 1);
    assert_eq!(saved.get("a"), Some(&Value::Integer(2)));
}

#[test]
fn variables_that_are_read() {
    let lambda = ExprKind::Lambda { arg: "x".to_string(), body: Box::new(var("x")) };
    assert!(!lambda.is_var_accessed("x"));
    let lambda = ExprKind::Lambda { arg: "x".to_string(), body: Box::new(var("y")) };
    assert!(lambda.is_var_accessed("y"));
    let fix = ExprKind::Fix { arg: "f".to_string(), body: Box::new(var("f")) };
    assert!(!fix.is_var_accessed("f"));
    let binding = ExprKind::Let {
        lhs: Offsetted { offset: 0, inner: "x".to_string() },
        rhs: Box::new(var("x")),
        rest: Block { stmts: vec![var("y")], term: None },
    };
    assert!(binding.is_var_accessed("x"));
    assert!(binding.is_var_accessed("y"));
    assert!(!binding.is_var_accessed("z"));
    let matching = ExprKind::Match {
        inp: Box::new(var("v")),
        cases: vec![
            Case { pat: pat("x"), body: var("x") },
            Case { pat: Pattern::Unit, body: var("w") },
        ],
    };
    assert!(matching.is_var_accessed("v"));
    assert!(matching.is_var_accessed("w"));
    assert!(!matching.is_var_accessed("x"));
    let mut m = NameMap::new();
    m.insert("k".to_string(), pat("p"));
    let rec = Pattern::Record(Offsetted { offset: 0, inner: m });
    assert!(rec.is_var_bound("p"));
    assert!(!rec.is_var_bound("k"));
    let parts = ExprKind::FormatString(vec![var("a")]);
    assert!(parts.is_var_accessed("a"));
}

#[test]
fn trees_that_are_the_same() {
    let f = |s: &str| e(ExprKind::Lambda { arg: "x".to_string(), body: Box::new(var(s)) });
    assert!(exprs_match(&f("a"), &f("a")));
    assert!(!exprs_match(&f("a"), &f("b")));
    assert!(!exprs_match(&f("a"), &Offsetted { offset: 1, inner: f("a").inner }));
    assert!(patterns_match(&pat("a"), &pat("a")));
    assert!(!patterns_match(&pat("a"), &Pattern::Unit));
}

#[test]
fn copies_are_equal() {
    let body = var("x");
    let mut saved = NameMap::new();
    saved.insert("a", Value::PureString("t".to_string()));
    let mut rec = NameMap::new();
    rec.insert("b", Value::Builtin { f: Builtin::Plus, args: vec![Value::Integer(1)] });
    rec.insert("f", Value::Lambda { argname: "x", f: &body, stacksave: saved });
    rec.insert("g", Value::FixLambda { argname: "x", f: &body });
    rec.insert("t", Value::Tagged { key: "K", value: Box::new(Value::Tagger { key: "L" }) });
    rec.insert("u", Value::Unit);
    let v = Value::Record(rec);
    let w = v.clone();
    assert!(values_match(&v, &w));
    assert!(values_match(&w, &v));
    assert_eq!(v, w);
    assert_ne!(v, Value::Unit);
}

#[test]
fn arguments_of_builtins() {
    for f in [Builtin::Plus, Builtin::Minus, Builtin::Mult, Builtin::Eq, Builtin::Leq, Builtin::ChanSend] {
        assert_eq!(f.argc(), 2);
    }
    for f in [Builtin::Not, Builtin::SpawnThread, Builtin::MakeChan, Builtin::ChanRecv, Builtin::StdioWrite] {
        assert_eq!(f.argc(), 1);
    }
}
