//! Texts: the order in which they are sorted, and numbers written out in decimal.
use vstd::prelude::*;
use vstd::string::*;
use vstd::utf8::*;

verus! {

/// Where one text stands relative to another.
#[derive(Clone, Copy, Debug, PartialEq, Eq, Structural)]
pub enum Place {
    Before,
    Same,
    After,
}

/// `a` comes before `b`, and `i` is the first position at which they part.
pub open spec fn parts_at(a: Seq<u8>, b: Seq<u8>, i: int) -> bool {
    &&& 0 <= i <= a.len()
    &&& i < b.len()
    &&& forall|j: int| 0 <= j < i ==> a[j] == b[j]
    &&& i == a.len() || a[i] < b[i]
}

/// Lexicographic order of byte strings.
pub open spec fn bytes_before(a: Seq<u8>, b: Seq<u8>) -> bool {
    exists|i: int| parts_at(a, b, i)
}

/// The order of texts: that of the bytes they are stored as.
pub open spec fn before(a: Seq<char>, b: Seq<char>) -> bool {
    bytes_before(encode_utf8(a), encode_utf8(b))
}

/// No text comes before itself.
pub proof fn lemma_before_irreflexive(a: Seq<char>)
    ensures
        !before(a, a),
{
}

/// Of two texts at most one comes before the other.
pub proof fn lemma_before_asymmetric(a: Seq<char>, b: Seq<char>)
    requires
        before(a, b),
    ensures
        !before(b, a),
        a != b,
{
    let x = encode_utf8(a);
    let y = encode_utf8(b);
    let i = choose|i: int| parts_at(x, y, i);
    assert forall|j: int| !parts_at(y, x, j) by {
        if parts_at(y, x, j) {
            if i < j {
                assert(y[i] == x[i]);
            } else if j < i {
                assert(x[j] == y[j]);
            }
        }
    }
}

/// The order of texts is transitive.
pub proof fn lemma_before_transitive(a: Seq<char>, b: Seq<char>, c: Seq<char>)
    requires
        before(a, b),
        before(b, c),
    ensures
        before(a, c),
{
    let x = encode_utf8(a);
    let y = encode_utf8(b);
    let z = encode_utf8(c);
    let i = choose|i: int| parts_at(x, y, i);
    let j = choose|j: int| parts_at(y, z, j);
    let k = if i < j { i } else { j };
    assert forall|h: int| 0 <= h < k implies x[h] == z[h] by {
        assert(x[h] == y[h] && y[h] == z[h]);
    }
    if i < j {
        assert(y[i] == z[i]);
    } else if j < i {
        assert(x[j] == y[j]);
    }
    assert(parts_at(x, z, k));
}

/// Compares two texts in their order.
pub fn place(a: &str, b: &str) -> (r: Place)
    ensures
        (r is Before) == before(a@, b@),
        (r is Same) == (a@ == b@),
        (r is After) == before(b@, a@),
{
    let x: &[u8] = a.as_bytes();
    let y: &[u8] = b.as_bytes();
    let mut i: usize = 0;
    while i < x.len() && i < y.len() && x[i] == y[i]
        invariant
            i <= x@.len(),
            i <= y@.len(),
            forall|j: int| 0 <= j < i ==> x@[j] == y@[j],
        decreases x@.len() - i,
    {
        i += 1;
    }
    proof {
        encode_utf8_decode_utf8(a@);
        encode_utf8_decode_utf8(b@);
    }
    if i < y.len() && (i == x.len() || x[i] < y[i]) {
        proof {
            assert(parts_at(x@, y@, i as int));
            lemma_before_asymmetric(a@, b@);
        }
        Place::Before
    } else if i < x.len() {
        proof {
            assert(parts_at(y@, x@, i as int));
            lemma_before_asymmetric(b@, a@);
        }
        Place::After
    } else {
        proof {
            assert(x@ =~= y@);
            lemma_before_irreflexive(a@);
        }
        Place::Same
    }
}

/// Whether two texts are the same.
pub fn same_text(a: &str, b: &str) -> (r: bool)
    ensures
        r == (a@ == b@),
{
    match place(a, b) {
        Place::Same => true,
        _ => false,
    }
}

/// The decimal digit of a number below ten.
pub open spec fn digit(n: nat) -> char {
    ('0' as int + n) as char
}

/// A natural number in decimal, without leading zeros.
pub open spec fn digits(n: nat) -> Seq<char>
    decreases n,
{
    if n < 10 {
        seq![digit(n)]
    } else {
        digits(n / 10).push(digit(n % 10))
    }
}

/// An integer in decimal.
pub open spec fn decimal(i: int) -> Seq<char> {
    if i < 0 {
        seq!['-'] + digits((-i) as nat)
    } else {
        digits(i as nat)
    }
}

fn digit_text(n: u64) -> (r: &'static str)
    requires
        n < 10,
    ensures
        r@ == seq![digit(n as nat)],
{
    proof {
        reveal_strlit("0");
        reveal_strlit("1");
        reveal_strlit("2");
        reveal_strlit("3");
        reveal_strlit("4");
        reveal_strlit("5");
        reveal_strlit("6");
        reveal_strlit("7");
        reveal_strlit("8");
        reveal_strlit("9");
    }
    let r: &'static str = match n {
        0 => "0",
        1 => "1",
        2 => "2",
        3 => "3",
        4 => "4",
        5 => "5",
        6 => "6",
        7 => "7",
        8 => "8",
        _ => "9",
    };
    assert(r@ =~= seq![digit(n as nat)]);
    r
}

/// Writes a natural number at the end of a text.
pub fn push_digits(out: &mut String, n: u64)
    ensures
        final(out)@ == old(out)@ + digits(n as nat),
    decreases n,
{
    if n < 10 {
        out.append(digit_text(n));
    } else {
        push_digits(out, n / 10);
        out.append(digit_text(n % 10));
        assert(out@ =~= old(out)@ + digits(n as nat));
    }
}

/// Writes an integer at the end of a text.
pub fn push_decimal(out: &mut String, i: i32)
    ensures
        final(out)@ == old(out)@ + decimal(i as int),
{
    if i < 0 {
        proof {
            reveal_strlit("-");
        }
        out.append("-");
        let n: u64 = (-(i as i64)) as u64;
        push_digits(out, n);
        assert(out@ =~= old(out)@ + decimal(i as int));
    } else {
        push_digits(out, i as u64);
    }
}

} // verus!
