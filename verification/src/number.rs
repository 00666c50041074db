//! Unsigned decimal numbers as text: reading them and writing them.

use vstd::prelude::*;
use vstd::string::*;

verus! {

/// The character is one of `0` to `9`.
pub open spec fn is_digit(c: char) -> bool {
    '0' <= c <= '9'
}

/// The value of a decimal digit.
pub open spec fn digit_value(c: char) -> nat {
    (c as int - '0' as int) as nat
}

/// The decimal digit of a value below ten.
pub open spec fn digit_char(d: nat) -> char {
    (d + '0' as nat) as char
}

/// Every character is a decimal digit.
pub open spec fn all_digits(text: Seq<char>) -> bool {
    forall|i: int| 0 <= i < text.len() ==> is_digit(#[trigger] text[i])
}

/// The number that a string of decimal digits denotes.
pub open spec fn decimal_value(digits: Seq<char>) -> nat
    decreases digits.len(),
{
    if digits.len() == 0 {
        0
    } else {
        decimal_value(digits.drop_last()) * 10 + digit_value(digits.last())
    }
}

/// The text without a leading plus sign.
pub open spec fn unsigned_part(text: Seq<char>) -> Seq<char> {
    if text.len() > 0 && text[0] == '+' {
        text.drop_first()
    } else {
        text
    }
}

/// The number that a text denotes: an optional plus sign, then one or more
/// decimal digits and nothing else. Any other text denotes none.
pub open spec fn parsed(text: Seq<char>) -> Option<nat> {
    let digits = unsigned_part(text);
    if digits.len() > 0 && all_digits(digits) {
        Some(decimal_value(digits))
    } else {
        None
    }
}

/// The number that a text denotes, where it fits in `usize`.
pub open spec fn parsed_usize(text: Seq<char>) -> Option<usize> {
    match parsed(text) {
        Some(v) => if v <= usize::MAX {
            Some(v as usize)
        } else {
            None
        },
        None => None,
    }
}

/// The decimal digits of a number, without leading zeros.
pub open spec fn decimal_text(n: nat) -> Seq<char>
    decreases n,
{
    if n < 10 {
        seq![digit_char(n)]
    } else {
        decimal_text(n / 10).push(digit_char(n % 10))
    }
}

/// `String::push` of std: appends one character to the end of the string.
pub assume_specification[ String::push ](s: &mut String, ch: char)
    ensures
        final(s)@ == old(s)@.push(ch),
;

/// The digits of a number above zero; nothing for zero.
pub open spec fn leading_digits(n: nat) -> Seq<char> {
    if n == 0 {
        Seq::empty()
    } else {
        decimal_text(n)
    }
}

/// A number's digits are those of its tenth part followed by its last
/// digit.
pub proof fn lemma_decimal_step(n: nat)
    ensures
        decimal_text(n) == leading_digits(n / 10).push(digit_char(n % 10)),
{
    if n < 10 {
        assert(n / 10 == 0);
        assert(n % 10 == n);
        assert(decimal_text(n) =~= Seq::<char>::empty().push(digit_char(n)));
    }
}

/// Writing a number and reading the text gives the number back.
pub proof fn lemma_decimal_round_trip(n: nat)
    ensures
        all_digits(decimal_text(n)),
        decimal_text(n).len() >= 1,
        decimal_value(decimal_text(n)) == n,
        parsed(decimal_text(n)) == Some(n),
    decreases n,
{
    let text = decimal_text(n);
    if n < 10 {
        assert(text.drop_last() =~= Seq::<char>::empty());
        assert(decimal_value(text.drop_last()) == 0);
    } else {
        lemma_decimal_round_trip(n / 10);
        assert(text.drop_last() =~= decimal_text(n / 10));
        assert(text.last() == digit_char(n % 10));
        assert forall|i: int| 0 <= i < text.len() implies is_digit(#[trigger] text[i]) by {
            if i < text.len() - 1 {
                assert(text[i] == decimal_text(n / 10)[i]);
            }
        }
    }
    assert(text[0] != '+') by {
        assert(is_digit(text[0]));
    }
}

/// A prefix of a string of digits denotes no more than the whole.
pub proof fn lemma_prefix_value(digits: Seq<char>, k: int)
    requires
        all_digits(digits),
        0 <= k <= digits.len(),
    ensures
        decimal_value(digits.take(k)) <= decimal_value(digits),
    decreases digits.len() - k,
{
    if k < digits.len() {
        lemma_prefix_value(digits, k + 1);
        assert(digits.take(k + 1).drop_last() =~= digits.take(k));
        assert(is_digit(digits[k]));
    } else {
        assert(digits.take(k) =~= digits);
    }
}

/// Reads an unsigned decimal number: an optional plus sign and one or more
/// digits. Returns `None` for any other text and for a number that does
/// not fit.
pub fn parse_usize(text: &str) -> (r: Option<usize>)
    ensures
        r == parsed_usize(text@),
{
    let ghost digits = unsigned_part(text@);
    let ghost shift: int = text@.len() - digits.len();
    let mut acc: usize = 0;
    let mut started = false;
    let mut any_digit = false;
    for c in it: text.chars()
        invariant
            it.seq() == text@,
            digits == unsigned_part(text@),
            shift == text@.len() - digits.len(),
            started == (it.index() > 0),
            any_digit == (it.index() > shift),
            !any_digit ==> acc == 0,
            it.index() >= shift ==> all_digits(digits.take(it.index() - shift)) && acc
                == decimal_value(digits.take(it.index() - shift)),
    {
        if !started && c == '+' {
            started = true;
            proof {
                assert(digits.take(0) =~= Seq::<char>::empty());
            }
        } else {
            let ghost at = it.index() - shift;
            let ghost seen = digits.take(at);
            let ghost more = digits.take(at + 1);
            proof {
                assert(digits[at] == c);
                assert(more.drop_last() =~= seen);
                assert(more.last() == c);
            }
            if !(c >= '0' && c <= '9') {
                proof {
                    assert(!is_digit(digits[at]));
                }
                return None;
            }
            let d: usize = (c as u32 - '0' as u32) as usize;
            proof {
                assert(d == digit_value(c));
                assert forall|k: int| 0 <= k < more.len() implies is_digit(#[trigger] more[k]) by {
                    if k < seen.len() {
                        assert(seen[k] == more[k]);
                    }
                }
            }
            if acc > (usize::MAX - d) / 10 {
                proof {
                    assert(decimal_value(more) > usize::MAX);
                    if all_digits(digits) {
                        lemma_prefix_value(digits, at + 1);
                    }
                }
                return None;
            }
            acc = acc * 10 + d;
            started = true;
            any_digit = true;
        }
    }
    proof {
        assert(digits.take(digits.len() as int) =~= digits);
    }
    if any_digit {
        Some(acc)
    } else {
        None
    }
}

/// Writes a number in decimal digits, without sign or leading zeros.
pub fn to_decimal(n: usize) -> (text: String)
    ensures
        text@ == decimal_text(n as nat),
{
    let mut digits: Vec<char> = Vec::new();
    let mut rest: usize = n;
    proof {
        lemma_decimal_step(n as nat);
    }
    digits.push((('0' as u8) + (rest % 10) as u8) as char);
    rest = rest / 10;
    assert(digits@.reverse() =~= seq![digit_char((n % 10) as nat)]);
    while rest > 0
        invariant
            digits@.len() >= 1,
            decimal_text(n as nat) == leading_digits(rest as nat) + digits@.reverse(),
        decreases rest,
    {
        let ghost before = digits@;
        proof {
            lemma_decimal_step(rest as nat);
        }
        digits.push((('0' as u8) + (rest % 10) as u8) as char);
        proof {
            assert(digits@.reverse() =~= seq![digit_char((rest % 10) as nat)] + before.reverse());
        }
        rest = rest / 10;
    }
    let mut text = String::new();
    let mut k: usize = digits.len();
    while k > 0
        invariant
            k <= digits@.len(),
            text@.len() == digits@.len() - k,
            forall|j: int| 0 <= j < text@.len() ==> text@[j] == digits@[digits@.len() - 1 - j],
        decreases k,
    {
        k -= 1;
        text.push(digits[k]);
    }
    assert(text@ =~= digits@.reverse());
    text
}

} // verus!
