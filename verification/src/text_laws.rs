//! Laws of texts: the order they are sorted in, and numbers that are read back as they were written.
use crate::text::{before, bytes_before, decimal, digit, digits, parts_at};
use vstd::prelude::*;
use vstd::utf8::*;

verus! {

/// What a row of decimal digits says.
pub open spec fn number(s: Seq<char>) -> int
    decreases s.len(),
{
    if s.len() == 0 {
        0
    } else {
        10 * number(s.drop_last()) + (s.last() as int - '0' as int)
    }
}

/// What a row of decimal digits says, which a minus sign may precede.
pub open spec fn signed_number(s: Seq<char>) -> int {
    if s.len() > 0 && s[0] == '-' {
        -number(s.skip(1))
    } else {
        number(s)
    }
}

/// A number that is written out is read back as itself; it is written with decimal digits only, at
/// least one, and without leading zeros.
pub proof fn law_numbers_are_read_back(n: nat)
    ensures
        number(digits(n)) == n,
        digits(n).len() > 0,
        forall|i: int| 0 <= i < digits(n).len() ==> '0' <= #[trigger] digits(n)[i] <= '9',
        digits(n).len() > 1 ==> digits(n)[0] != '0',
    decreases n,
{
    if n < 10 {
        assert(digits(n) =~= seq![digit(n)]);
        assert(digits(n).drop_last() =~= Seq::empty());
        assert(digit(n) as int == 48 + n);
        assert(number(Seq::<char>::empty()) == 0);
    } else {
        law_numbers_are_read_back(n / 10);
        assert(digits(n).drop_last() =~= digits(n / 10));
        assert(digits(n).last() == digit(n % 10));
        assert(digit(n % 10) as int == 48 + n % 10);
        assert forall|i: int| 0 <= i < digits(n).len() implies '0' <= #[trigger] digits(n)[i] <= '9' by {
            if i < digits(n / 10).len() {
                assert(digits(n)[i] == digits(n / 10)[i]);
            }
        }
        assert(digits(n)[0] == digits(n / 10)[0]);
        if digits(n / 10).len() == 1 {
            assert(number(digits(n / 10)) == n / 10);
            assert(digits(n / 10).drop_last() =~= Seq::empty());
            assert(number(digits(n / 10).drop_last()) == 0);
            assert(n / 10 > 0);
        }
    }
}

/// An integer that is written out is read back as itself; it has a minus sign exactly where it is
/// negative, and otherwise decimal digits only, without leading zeros.
pub proof fn law_integers_are_read_back(i: int)
    ensures
        signed_number(decimal(i)) == i,
        decimal(i).len() > 0,
        (decimal(i)[0] == '-') == (i < 0),
        i < 0 ==> decimal(i) == seq!['-'] + decimal(-i),
        i >= 0 ==> decimal(i) == digits(i as nat),
{
    if i < 0 {
        law_numbers_are_read_back((-i) as nat);
        assert(decimal(i).skip(1) =~= digits((-i) as nat));
    } else {
        law_numbers_are_read_back(i as nat);
    }
}

/// A common beginning does not matter to the order of bytes.
proof fn lemma_common_bytes(p: Seq<u8>, x: Seq<u8>, y: Seq<u8>)
    ensures
        bytes_before(p + x, p + y) <==> bytes_before(x, y),
{
    if bytes_before(x, y) {
        let i = choose|i: int| parts_at(x, y, i);
        assert(parts_at(p + x, p + y, i + p.len()));
    }
    if bytes_before(p + x, p + y) {
        let i = choose|i: int| parts_at(p + x, p + y, i);
        if i < p.len() {
            assert((p + x)[i] == p[i] && (p + y)[i] == p[i]);
        }
        let j = i - p.len();
        assert forall|h: int| 0 <= h < j implies x[h] == y[h] by {
            assert((p + x)[h + p.len()] == x[h]);
            assert((p + y)[h + p.len()] == y[h]);
        }
        assert(parts_at(x, y, j));
    }
}

/// Where two rows of bytes part, they part with whatever follows.
proof fn lemma_parted_bytes(p: Seq<u8>, q: Seq<u8>, x: Seq<u8>, y: Seq<u8>, i: int)
    requires
        parts_at(p, q, i),
        i < p.len(),
    ensures
        bytes_before(p + x, q + y),
{
    assert(parts_at(p + x, q + y, i));
}

proof fn lemma_bytes_width_1(c: u32, d: u32)
    requires
        has_width_1_encoding(c),
        c < d,
        has_width_1_encoding(d),
    ensures
        leading_byte_width_1(c) < leading_byte_width_1(d),
{
    assert(((c & 0x7F) as u8) < ((d & 0x7F) as u8)) by (bit_vector)
        requires
            c < d,
            d <= 0x7Fu32,
    ;
}

proof fn lemma_bytes_width_2(c: u32, d: u32)
    requires
        has_width_2_encoding(c),
        c < d,
        has_width_2_encoding(d),
    ensures
        leading_byte_width_2(c) < leading_byte_width_2(d) || (leading_byte_width_2(c) == leading_byte_width_2(d)
            && last_continuation_byte(c) < last_continuation_byte(d)),
{
    assert((0xC0u8 | ((c >> 6) & 0x1F) as u8) < (0xC0u8 | ((d >> 6) & 0x1F) as u8) || ((0xC0u8 | ((c >> 6) & 0x1F) as u8)
        == (0xC0u8 | ((d >> 6) & 0x1F) as u8) && (0x80u8 | (c & 0x3F) as u8) < (0x80u8 | (d & 0x3F) as u8)))
        by (bit_vector)
        requires
            c < d,
            d <= 0x7FFu32,
    ;
}

proof fn lemma_bytes_width_3(c: u32, d: u32)
    requires
        has_width_3_encoding(c),
        c < d,
        has_width_3_encoding(d),
    ensures
        leading_byte_width_3(c) < leading_byte_width_3(d) || (leading_byte_width_3(c) == leading_byte_width_3(d) && (
        second_last_continuation_byte(c) < second_last_continuation_byte(d) || (second_last_continuation_byte(c)
            == second_last_continuation_byte(d) && last_continuation_byte(c) < last_continuation_byte(d)))),
{
    assert((0xE0u8 | ((c >> 12) & 0x0F) as u8) < (0xE0u8 | ((d >> 12) & 0x0F) as u8) || ((0xE0u8 | ((c >> 12)
        & 0x0F) as u8) == (0xE0u8 | ((d >> 12) & 0x0F) as u8) && ((0x80u8 | ((c >> 6) & 0x3F) as u8) < (0x80u8 | ((d
        >> 6) & 0x3F) as u8) || ((0x80u8 | ((c >> 6) & 0x3F) as u8) == (0x80u8 | ((d >> 6) & 0x3F) as u8) && (0x80u8 | (
    c & 0x3F) as u8) < (0x80u8 | (d & 0x3F) as u8))))) by (bit_vector)
        requires
            c < d,
            d <= 0xFFFFu32,
    ;
}

proof fn lemma_bytes_width_4(c: u32, d: u32)
    requires
        has_width_4_encoding(c),
        c < d,
        has_width_4_encoding(d),
    ensures
        leading_byte_width_4(c) < leading_byte_width_4(d) || (leading_byte_width_4(c) == leading_byte_width_4(d) && (
        third_last_continuation_byte(c) < third_last_continuation_byte(d) || (third_last_continuation_byte(c)
            == third_last_continuation_byte(d) && (second_last_continuation_byte(c) < second_last_continuation_byte(d)
            || (second_last_continuation_byte(c) == second_last_continuation_byte(d) && last_continuation_byte(c)
            < last_continuation_byte(d)))))),
{
    assert((0xF0u8 | ((c >> 18) & 0x7) as u8) < (0xF0u8 | ((d >> 18) & 0x7) as u8) || ((0xF0u8 | ((c >> 18)
        & 0x7) as u8) == (0xF0u8 | ((d >> 18) & 0x7) as u8) && ((0x80u8 | ((c >> 12) & 0x3F) as u8) < (0x80u8 | ((d
        >> 12) & 0x3F) as u8) || ((0x80u8 | ((c >> 12) & 0x3F) as u8) == (0x80u8 | ((d >> 12) & 0x3F) as u8) && ((0x80u8
        | ((c >> 6) & 0x3F) as u8) < (0x80u8 | ((d >> 6) & 0x3F) as u8) || ((0x80u8 | ((c >> 6) & 0x3F) as u8) == (
    0x80u8 | ((d >> 6) & 0x3F) as u8) && (0x80u8 | (c & 0x3F) as u8) < (0x80u8 | (d & 0x3F) as u8))))))) by (bit_vector)
        requires
            c < d,
            d <= 0x10FFFFu32,
    ;
}

/// How far up the first byte of a character lies, by the number of its bytes.
proof fn lemma_first_byte(c: u32)
    requires
        is_scalar(c),
    ensures
        has_width_1_encoding(c) ==> leading_byte_width_1(c) <= 0x7F,
        has_width_2_encoding(c) ==> 0xC0 <= leading_byte_width_2(c) <= 0xDF,
        has_width_3_encoding(c) ==> 0xE0 <= leading_byte_width_3(c) <= 0xEF,
        has_width_4_encoding(c) ==> 0xF0 <= leading_byte_width_4(c) <= 0xF7,
{
    assert(((c & 0x7F) as u8) <= 0x7Fu8) by (bit_vector);
    assert(0xC0u8 <= (0xC0u8 | ((c >> 6) & 0x1F) as u8) && (0xC0u8 | ((c >> 6) & 0x1F) as u8) <= 0xDFu8) by (bit_vector);
    assert(0xE0u8 <= (0xE0u8 | ((c >> 12) & 0x0F) as u8) && (0xE0u8 | ((c >> 12) & 0x0F) as u8) <= 0xEFu8)
        by (bit_vector);
    assert(0xF0u8 <= (0xF0u8 | ((c >> 18) & 0x7) as u8) && (0xF0u8 | ((c >> 18) & 0x7) as u8) <= 0xF7u8) by (bit_vector);
}

/// Characters are ordered as their bytes are.
proof fn lemma_scalars_part(c: u32, d: u32) -> (i: int)
    requires
        is_scalar(c),
        is_scalar(d),
        c < d,
    ensures
        parts_at(encode_scalar(c), encode_scalar(d), i),
        i < encode_scalar(c).len(),
{
    lemma_first_byte(c);
    lemma_first_byte(d);
    if has_width_1_encoding(c) && has_width_1_encoding(d) {
        lemma_bytes_width_1(c, d);
        0
    } else if has_width_2_encoding(c) && has_width_2_encoding(d) {
        lemma_bytes_width_2(c, d);
        if leading_byte_width_2(c) < leading_byte_width_2(d) {
            0
        } else {
            1
        }
    } else if has_width_3_encoding(c) && has_width_3_encoding(d) {
        lemma_bytes_width_3(c, d);
        if leading_byte_width_3(c) < leading_byte_width_3(d) {
            0
        } else if second_last_continuation_byte(c) < second_last_continuation_byte(d) {
            1
        } else {
            2
        }
    } else if has_width_4_encoding(c) && has_width_4_encoding(d) {
        lemma_bytes_width_4(c, d);
        if leading_byte_width_4(c) < leading_byte_width_4(d) {
            0
        } else if third_last_continuation_byte(c) < third_last_continuation_byte(d) {
            1
        } else if second_last_continuation_byte(c) < second_last_continuation_byte(d) {
            2
        } else {
            3
        }
    } else {
        0
    }
}

/// Texts are sorted character by character: nothing comes before the empty text, which comes before all
/// others; of two texts with different first characters the one with the smaller character comes
/// before the other; and where the first characters are the same, the rest decides.
pub proof fn law_texts_are_sorted_by_characters(a: Seq<char>, b: Seq<char>)
    ensures
        b.len() == 0 ==> !before(a, b),
        a.len() == 0 && b.len() > 0 ==> before(a, b),
        a.len() > 0 && b.len() > 0 && (a[0] as u32) < (b[0] as u32) ==> before(a, b),
        a.len() > 0 && b.len() > 0 && (a[0] as u32) > (b[0] as u32) ==> !before(a, b),
        a.len() > 0 && b.len() > 0 && a[0] == b[0] ==> before(a, b) == before(a.skip(1), b.skip(1)),
{
    let x = encode_utf8(a);
    let y = encode_utf8(b);
    if b.len() == 0 {
        assert(y.len() == 0);
        assert forall|i: int| !parts_at(x, y, i) by {}
    } else if a.len() == 0 {
        assert(x.len() == 0);
        char_is_scalar(b[0]);
        assert(encode_scalar(b[0] as u32).len() > 0);
        assert(y.len() > 0);
        assert(parts_at(x, y, 0));
    } else {
        let (c, d) = (a[0] as u32, b[0] as u32);
        char_is_scalar(a[0]);
        char_is_scalar(b[0]);
        assert(a.drop_first() =~= a.skip(1));
        assert(b.drop_first() =~= b.skip(1));
        if c < d {
            let i = lemma_scalars_part(c, d);
            lemma_parted_bytes(encode_scalar(c), encode_scalar(d), encode_utf8(a.skip(1)), encode_utf8(b.skip(1)), i);
        } else if d < c {
            let i = lemma_scalars_part(d, c);
            lemma_parted_bytes(encode_scalar(d), encode_scalar(c), encode_utf8(b.skip(1)), encode_utf8(a.skip(1)), i);
            crate::text::lemma_before_asymmetric(b, a);
        } else {
            lemma_common_bytes(encode_scalar(c), encode_utf8(a.skip(1)), encode_utf8(b.skip(1)));
        }
    }
}

} // verus!
