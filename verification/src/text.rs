//! Building text: numbers in decimal and hexadecimal, and comparison of strings.

use vstd::prelude::*;
use vstd::string::StringExecFns;

verus! {

/// The character for the digit `d` in bases up to sixteen, in lower case.
pub open spec fn digit(d: int) -> char {
    if d < 10 {
        (0x30 + d) as char
    } else {
        (0x61 + (d - 10)) as char
    }
}

/// `n` in decimal, without leading zeros.
pub open spec fn decimal(n: nat) -> Seq<char>
    decreases n,
{
    if n < 10 {
        seq![digit(n as int)]
    } else {
        decimal(n / 10).push(digit((n % 10) as int))
    }
}

/// `b` as `0x` and two hexadecimal digits.
pub open spec fn hex_byte(b: u8) -> Seq<char> {
    "0x"@ + seq![digit(b as int / 16), digit(b as int % 16)]
}

/// The text of the digit `d`.
fn digit_text(d: u8) -> (r: &'static str)
    requires
        d < 16,
    ensures
        r@ == seq![digit(d as int)],
{
    proof {
        reveal_strlit("0");
        reveal_strlit("1");
        reveal_strlit("2");
        reveal_strlit("3");
        reveal_strlit("4");
        reveal_strlit("5");
        reveal_strlit("6");
        reveal_strlit("7");
        reveal_strlit("8");
        reveal_strlit("9");
        reveal_strlit("a");
        reveal_strlit("b");
        reveal_strlit("c");
        reveal_strlit("d");
        reveal_strlit("e");
        reveal_strlit("f");
    }
    match d {
        0 => "0",
        1 => "1",
        2 => "2",
        3 => "3",
        4 => "4",
        5 => "5",
        6 => "6",
        7 => "7",
        8 => "8",
        9 => "9",
        10 => "a",
        11 => "b",
        12 => "c",
        13 => "d",
        14 => "e",
        _ => "f",
    }
}

/// Appends `n` in decimal.
pub(crate) fn push_decimal(out: &mut String, n: u64)
    ensures
        final(out)@ == old(out)@ + decimal(n as nat),
    decreases n,
{
    if n >= 10 {
        push_decimal(out, n / 10);
    }
    out.append(digit_text((n % 10) as u8));
}

/// Appends `b` as `0x` and two hexadecimal digits.
pub(crate) fn push_hex_byte(out: &mut String, b: u8)
    ensures
        final(out)@ == old(out)@ + hex_byte(b),
{
    out.append("0x");
    out.append(digit_text(b / 16));
    out.append(digit_text(b % 16));
}

/// Whether two strings are equal.
pub(crate) fn same_text(a: &str, b: &str) -> (r: bool)
    ensures
        r == (a@ == b@),
{
    let x = a.as_bytes();
    let y = b.as_bytes();
    proof {
        vstd::utf8::encode_utf8_decode_utf8(a@);
        vstd::utf8::encode_utf8_decode_utf8(b@);
    }
    if x.len() != y.len() {
        return false;
    }
    let mut i: usize = 0;
    while i < x.len()
        invariant
            i <= x.len(),
            x.len() == y.len(),
            x@ == vstd::utf8::encode_utf8(a@),
            y@ == vstd::utf8::encode_utf8(b@),
            forall|j: int| 0 <= j < i ==> x@[j] == y@[j],
        decreases x.len() - i,
    {
        if x[i] != y[i] {
            return false;
        }
        i += 1;
    }
    assert(x@ =~= y@);
    true
}

/// The number that a text of decimal digits stands for.
pub open spec fn decimal_value(text: Seq<char>) -> int
    decreases text.len(),
{
    if text.len() == 0 {
        0
    } else {
        decimal_value(text.drop_last()) * 10 + (text.last() as int - 0x30)
    }
}

/// The decimal text of a number stands for that number, so no two numbers share a text.
pub proof fn law_decimal_round_trip(n: nat)
    ensures
        decimal_value(decimal(n)) == n,
        decimal(n).len() > 0,
    decreases n,
{
    if n < 10 {
        assert(decimal(n).drop_last() =~= Seq::<char>::empty());
        assert(decimal_value(Seq::<char>::empty()) == 0);
    } else {
        law_decimal_round_trip(n / 10);
        assert(decimal(n).drop_last() =~= decimal(n / 10));
    }
}

/// Whether `t` is the number `n` in decimal digits, without leading zeros.
pub open spec fn is_decimal(t: Seq<char>, n: nat) -> bool {
    &&& t.len() > 0
    &&& t.len() > 1 ==> t[0] != '0'
    &&& forall|i: int| 0 <= i < t.len() ==> '0' <= #[trigger] t[i] <= '9'
    &&& decimal_value(t) == n
}

/// The value of decimal digits is not negative, and positive unless they start with a zero.
proof fn lemma_decimal_value_sign(t: Seq<char>)
    requires
        forall|i: int| 0 <= i < t.len() ==> '0' <= #[trigger] t[i] <= '9',
    ensures
        decimal_value(t) >= 0,
        t.len() > 0 && t[0] != '0' ==> decimal_value(t) > 0,
    decreases t.len(),
{
    if t.len() > 0 {
        assert('0' <= t[t.len() - 1] <= '9');
        lemma_decimal_value_sign(t.drop_last());
    }
}

/// The decimal text of a number is the one that has its value, in digits and without leading
/// zeros.
pub proof fn law_decimal_text(t: Seq<char>, n: nat)
    ensures
        t == decimal(n) <==> is_decimal(t, n),
    decreases n,
{
    law_decimal_round_trip(n);
    if n < 10 {
        if t == decimal(n) {
            assert(t.len() == 1);
        }
        if is_decimal(t, n) {
            lemma_decimal_value_sign(t.drop_last());
            assert('0' <= t[t.len() - 1] <= '9');
            if t.len() > 1 {
                assert(t.drop_last()[0] == t[0]);
                assert(false);
            }
            assert(t.drop_last() =~= Seq::<char>::empty());
            assert(decimal_value(t.drop_last()) == 0);
            assert(t =~= seq![digit(n as int)]);
        }
    } else {
        let init = decimal(n / 10);
        law_decimal_text(init, n / 10);
        if t == decimal(n) {
            assert(t.drop_last() =~= init);
            assert(t[0] == init[0]);
            if init.len() == 1 {
                assert(decimal_value(init.drop_last()) == 0);
                assert(init.last() == init[0]);
            }
            assert forall|i: int| 0 <= i < t.len() implies '0' <= #[trigger] t[i] <= '9' by {
                if i < init.len() {
                    assert(t[i] == init[i]);
                }
            }
        }
        if is_decimal(t, n) {
            let before = t.drop_last();
            assert('0' <= t[t.len() - 1] <= '9');
            if t.len() == 1 {
                assert(decimal_value(before) == 0);
                assert(false);
            }
            assert(before[0] == t[0]);
            assert forall|i: int| 0 <= i < before.len() implies '0' <= #[trigger] before[i]
                <= '9' by {
                assert(before[i] == t[i]);
            }
            lemma_decimal_value_sign(before);
            law_decimal_text(before, n / 10);
            assert(t =~= before.push(t.last()));
        }
    }
}

/// Whether `t` is `before`, then the number `n` in decimal, then `after`.
pub open spec fn says_number(t: Seq<char>, before: Seq<char>, n: nat, after: Seq<char>) -> bool {
    exists|d: Seq<char>| #[trigger] is_decimal(d, n) && t == before + d + after
}

/// Text with the decimal of a number in it says that number.
pub(crate) proof fn lemma_says_number(before: Seq<char>, n: nat, after: Seq<char>)
    ensures
        says_number(before + decimal(n) + after, before, n, after),
        says_number(before + decimal(n), before, n, Seq::empty()),
{
    law_decimal_text(decimal(n), n);
    assert(before + decimal(n) =~= before + decimal(n) + Seq::<char>::empty());
}

/// The value of a hexadecimal digit in lower case.
pub open spec fn hex_value(c: char) -> int {
    if '0' <= c <= '9' {
        c as int - '0' as int
    } else if 'a' <= c <= 'f' {
        c as int - 'a' as int + 10
    } else {
        -1
    }
}

/// Whether `t` is `0x` and two hexadecimal digits in lower case with the value `b`.
pub open spec fn is_hex_byte(t: Seq<char>, b: u8) -> bool {
    &&& t.len() == 4
    &&& t[0] == '0'
    &&& t[1] == 'x'
    &&& hex_value(t[2]) >= 0
    &&& hex_value(t[3]) >= 0
    &&& 16 * hex_value(t[2]) + hex_value(t[3]) == b
}

/// The text of a byte is `0x` and its two hexadecimal digits.
pub proof fn law_hex_text(b: u8)
    ensures
        is_hex_byte(hex_byte(b), b),
{
    reveal_strlit("0x");
}

} // verus!
