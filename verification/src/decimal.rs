//! Numbers written with decimal digits.

use vstd::prelude::*;
use vstd::string::{StrSliceExecFns, StringExecFns};

verus! {

/// The digit that stands for `d`.
pub open spec fn digit(d: nat) -> char {
    (48 + d) as char
}

/// The digits of `n`, without leading zeros.
pub open spec fn decimal(n: nat) -> Seq<char>
    decreases n,
{
    if n < 10 {
        seq![digit(n)]
    } else {
        decimal(n / 10).push(digit(n % 10))
    }
}

/// Whether `c` is one of the ten digits.
pub open spec fn is_digit(c: char) -> bool {
    '0' <= c <= '9'
}

/// The number that the digits of `text` stand for.
pub open spec fn value(text: Seq<char>) -> nat
    decreases text.len(),
{
    if text.len() == 0 {
        0
    } else {
        value(text.drop_last()) * 10 + (if is_digit(text.last()) {
            (text.last() as nat - 48) as nat
        } else {
            0
        })
    }
}

/// The digits of `text`, which may follow a plus sign.
pub open spec fn unsigned(text: Seq<char>) -> Seq<char> {
    if text.len() > 0 && text[0] == '+' {
        text.skip(1)
    } else {
        text
    }
}

/// The number that `text` stands for: digits, at least one, with or without a plus sign ahead.
pub open spec fn numeral(text: Seq<char>) -> Option<nat> {
    let digits = unsigned(text);
    if digits.len() > 0 && forall|i: int| 0 <= i < digits.len() ==> is_digit(#[trigger] digits[i]) {
        Some(value(digits))
    } else {
        None
    }
}

/// The text of one digit.
fn digit_text(d: u64) -> (r: &'static str)
    requires
        d < 10,
    ensures
        r@ == seq![digit(d as nat)],
{
    proof {
        reveal_strlit("0");
        reveal_strlit("1");
        reveal_strlit("2");
        reveal_strlit("3");
        reveal_strlit("4");
        reveal_strlit("5");
        reveal_strlit("6");
        reveal_strlit("7");
        reveal_strlit("8");
        reveal_strlit("9");
    }
    let r = match d {
        0 => "0",
        1 => "1",
        2 => "2",
        3 => "3",
        4 => "4",
        5 => "5",
        6 => "6",
        7 => "7",
        8 => "8",
        _ => "9",
    };
    assert(r@ =~= seq![digit(d as nat)]);
    r
}

/// Appends the digits of `n` to `text`.
pub(crate) fn push_decimal(text: &mut String, n: u64)
    ensures
        final(text)@ == old(text)@ + decimal(n as nat),
    decreases n,
{
    if n >= 10 {
        push_decimal(text, n / 10);
    }
    text.append(digit_text(n % 10));
    proof {
        assert(text@ =~= old(text)@ + decimal(n as nat));
    }
}

/// The number that `text` stands for, if it fits.
pub(crate) fn parse_decimal(text: &str) -> (r: Option<u64>)
    ensures
        r matches Some(n) ==> numeral(text@) == Some(n as nat),
        r is None ==> (numeral(text@) matches Some(n) ==> n > u64::MAX),
{
    let len: usize = text.unicode_len();
    let first: usize = if len > 0 && text.get_char(0) == '+' {
        1
    } else {
        0
    };
    let ghost digits = unsigned(text@);
    if first == len {
        return None;
    }
    let mut n: u64 = 0;
    for i in first..len
        invariant
            len == text@.len(),
            digits == text@.skip(first as int),
            digits == unsigned(text@),
            n == value(digits.take(i - first)),
            forall|k: int| 0 <= k < i - first ==> is_digit(#[trigger] digits[k]),
    {
        let c = text.get_char(i);
        proof {
            assert(digits[i - first] == c);
            assert(digits.take(i + 1 - first).drop_last() =~= digits.take(i - first));
            assert(digits.take(i + 1 - first).last() == c);
            lemma_value_grows(digits, i + 1 - first);
        }
        if !('0' <= c && c <= '9') {
            return None;
        }
        let d: u64 = (c as u32 - '0' as u32) as u64;
        if n > (u64::MAX - d) / 10 {
            return None;
        }
        n = n * 10 + d;
    }
    proof {
        assert(digits.take(digits.len() as int) =~= digits);
    }
    Some(n)
}

/// Further digits make no number smaller.
proof fn lemma_value_grows(text: Seq<char>, n: int)
    requires
        0 <= n <= text.len(),
    ensures
        value(text.take(n)) <= value(text),
    decreases text.len() - n,
{
    if n < text.len() {
        lemma_value_grows(text, n + 1);
        assert(text.take(n + 1).drop_last() =~= text.take(n));
    } else {
        assert(text.take(n) =~= text);
    }
}

/// The digits of a number stand for that number.
pub proof fn law_digits_stand_for_their_number(n: nat)
    ensures
        numeral(decimal(n)) == Some(n),
{
    lemma_decimal(n);
}

proof fn lemma_decimal(n: nat)
    ensures
        decimal(n).len() > 0,
        forall|i: int| 0 <= i < decimal(n).len() ==> is_digit(#[trigger] decimal(n)[i]),
        value(decimal(n)) == n,
        unsigned(decimal(n)) == decimal(n),
    decreases n,
{
    if n >= 10 {
        lemma_decimal(n / 10);
        assert(decimal(n).drop_last() =~= decimal(n / 10));
    } else {
        assert(decimal(n).drop_last() =~= Seq::<char>::empty());
        assert(value(Seq::<char>::empty()) == 0);
    }
    assert(is_digit(decimal(n)[0]));
}

/// A number has no needless digits: only the number zero begins with a zero.
pub proof fn law_no_leading_zeros(n: nat)
    ensures
        decimal(n).len() > 0,
        decimal(n)[0] == '0' ==> n == 0,
        decimal(0) == seq!['0'],
    decreases n,
{
    lemma_decimal(n);
    if n >= 10 {
        law_no_leading_zeros(n / 10);
        lemma_decimal(n / 10);
        assert(decimal(n)[0] == decimal(n / 10)[0]);
    }
    assert(decimal(0) =~= seq!['0']);
}

/// A further digit makes a number ten times as great, and adds what the digit stands for.
pub proof fn law_digits_weigh_by_ten(text: Seq<char>, c: char)
    requires
        '0' <= c <= '9',
    ensures
        value(seq![]) == 0,
        value(text.push(c)) == 10 * value(text) + (c as int - '0' as int),
        numeral(text) is Some ==> numeral(text.push(c)) == Some(
            (10 * numeral(text).unwrap() + (c as int - '0' as int)) as nat,
        ),
        numeral(seq![c]) == Some((c as int - '0' as int) as nat),
{
    let t = text.push(c);
    assert(t.drop_last() =~= text);
    if numeral(text) is Some {
        let d = unsigned(text);
        assert(unsigned(t) =~= d.push(c));
        assert(d.push(c).drop_last() =~= d);
        assert forall|i: int| 0 <= i < d.push(c).len() implies is_digit(
            #[trigger] d.push(c)[i],
        ) by {
            if i < d.len() {
                assert(is_digit(d[i]));
            }
        }
    }
    let one = seq![c];
    assert(unsigned(one) == one);
    assert(one.drop_last() =~= Seq::<char>::empty());
    assert(value(Seq::<char>::empty()) == 0);
    assert forall|i: int| 0 <= i < one.len() implies is_digit(#[trigger] one[i]) by {}
}

/// A text stands for a number exactly if it is made of digits, at least one, behind a plus sign
/// or without one.
pub proof fn law_numerals_are_digits(text: Seq<char>)
    ensures
        text.len() == 0 ==> numeral(text) is None,
        text.len() > 0 && text[0] != '+' ==> (numeral(text) is Some <==> forall|i: int|
            0 <= i < text.len() ==> '0' <= #[trigger] text[i] <= '9'),
        text.len() > 0 && text[0] == '+' ==> (numeral(text) is Some <==> text.len() > 1 && forall|
            i: int,
        |
            1 <= i < text.len() ==> '0' <= #[trigger] text[i] <= '9'),
        text.len() > 1 && text[0] == '+' && text[1] != '+' ==> numeral(text) == numeral(
            text.skip(1),
        ),
{
    if text.len() > 0 && text[0] == '+' {
        let d = text.skip(1);
        assert forall|i: int| 0 <= i < d.len() implies d[i] == text[i + 1] by {}
        if forall|i: int| 1 <= i < text.len() ==> '0' <= #[trigger] text[i] <= '9' {
            assert forall|i: int| 0 <= i < d.len() implies is_digit(#[trigger] d[i]) by {
                assert('0' <= text[i + 1] <= '9');
            }
        }
        if numeral(text) is Some {
            assert forall|i: int| 1 <= i < text.len() implies '0' <= #[trigger] text[i] <= '9' by {
                assert(is_digit(d[i - 1]));
            }
        }
    } else if text.len() > 0 {
        if numeral(text) is Some {
            assert forall|i: int| 0 <= i < text.len() implies '0' <= #[trigger] text[i] <= '9' by {
                assert(is_digit(text[i]));
            }
        }
    }
}

} // verus!
