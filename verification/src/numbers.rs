//! Decimal numerals: checking and rendering.
//!
//! A command-line count is accepted exactly when it is a decimal
//! numeral, with an optional leading `+`, whose value fits in 32
//! bits; and a count is rendered as its decimal digits for the
//! ranking table.

use vstd::prelude::*;
use vstd::string::StringExecFns;
use crate::text::chars_to_string;
use crate::text::str_chars;

verus! {

/// An ASCII decimal digit.
pub open spec fn is_digit(c: char) -> bool {
    0x30 <= c as u32 <= 0x39
}

/// The value of one digit.
pub open spec fn digit_val(c: char) -> int {
    c as u32 - 0x30
}

/// The value of a run of digits, most significant first.
pub open spec fn digits_value(s: Seq<char>) -> int
    decreases s.len(),
{
    if s.len() == 0 {
        0
    } else {
        digits_value(s.drop_last()) * 10 + digit_val(s.last())
    }
}

/// Every character is a digit.
pub open spec fn all_digits(s: Seq<char>) -> bool {
    forall|i: int| 0 <= i < s.len() ==> is_digit(#[trigger] s[i])
}

/// The digits of a numeral, with an optional leading `+` removed.
pub open spec fn numeral_body(s: Seq<char>) -> Seq<char> {
    if s.len() > 0 && s[0] == '+' {
        s.drop_first()
    } else {
        s
    }
}

/// A numeral accepted as a 32-bit count: at least one digit after the
/// optional sign, digits only, and a value no larger than `u32::MAX`.
pub open spec fn is_u32_numeral(s: Seq<char>) -> bool {
    numeral_body(s).len() > 0 && all_digits(numeral_body(s)) && digits_value(numeral_body(s))
        <= u32::MAX
}

/// The value of a digit run is never negative.
proof fn lemma_digits_value_nonneg(s: Seq<char>)
    requires
        all_digits(s),
    ensures
        digits_value(s) >= 0,
    decreases s.len(),
{
    if s.len() > 0 {
        assert(all_digits(s.drop_last())) by {
            assert(forall|i: int| 0 <= i < s.len() - 1 ==> s.drop_last()[i] == s[i]);
        }
        lemma_digits_value_nonneg(s.drop_last());
    }
}

/// Extending a digit run never shrinks its value.
proof fn lemma_digits_value_prefix(s: Seq<char>, k: int)
    requires
        all_digits(s),
        0 <= k <= s.len(),
    ensures
        digits_value(s) >= digits_value(s.take(k)),
    decreases s.len() - k,
{
    if k < s.len() {
        lemma_digits_value_prefix(s, k + 1);
        assert(s.take(k + 1).drop_last() =~= s.take(k));
        assert(all_digits(s.take(k))) by {
            assert(forall|i: int| 0 <= i < k ==> s.take(k)[i] == s[i]);
        }
        lemma_digits_value_nonneg(s.take(k));
        assert(digits_value(s.take(k + 1)) == digits_value(s.take(k)) * 10 + digit_val(
            s.take(k + 1).last(),
        ));
    } else {
        assert(s.take(k) =~= s);
    }
}

/// Parse a decimal numeral with an optional leading `+` as a 32-bit
/// number; `None` exactly on inputs that are no such numeral or whose
/// value does not fit.
pub fn parse_u32(s: &str) -> (r: Option<u32>)
    ensures
        r is Some <==> is_u32_numeral(s@),
        r is Some ==> r->Some_0 as int == digits_value(numeral_body(s@)),
{
    let cs = str_chars(s);
    let start: usize = if cs.len() > 0 && cs[0] == '+' {
        1
    } else {
        0
    };
    let ghost body = numeral_body(s@);
    proof {
        assert(body =~= cs@.subrange(start as int, cs@.len() as int));
    }
    if start == cs.len() {
        return None;
    }
    let mut val: u64 = 0;
    let mut i: usize = start;
    while i < cs.len()
        invariant
            start <= i <= cs.len(),
            cs@ == s@,
            body == numeral_body(s@),
            body == cs@.subrange(start as int, cs@.len() as int),
            all_digits(body.take(i - start)),
            val as int == digits_value(body.take(i - start)),
            val <= u32::MAX,
        decreases cs.len() - i,
    {
        let c = cs[i];
        proof {
            assert(body[i - start] == cs@[i as int]);
        }
        let u = c as u32;
        if !(0x30 <= u && u <= 0x39) {
            proof {
                assert(!all_digits(body)) by {
                    assert(!is_digit(body[i - start]));
                }
            }
            return None;
        }
        val = val * 10 + (u - 0x30) as u64;
        proof {
            assert(body.take(i - start + 1).drop_last() =~= body.take(i - start));
            assert(body.take(i - start + 1).last() == body[i - start]);
            assert forall|j: int|
                0 <= j < i - start + 1 implies is_digit(#[trigger] body.take(i - start + 1)[j]) by {
                assert(body.take(i - start + 1)[j] == body[j]);
                if j < i - start {
                    assert(is_digit(body.take(i - start)[j]));
                    assert(body.take(i - start)[j] == body[j]);
                } else {
                    assert(body[j] == cs@[i as int]);
                }
            }
            assert(all_digits(body.take(i - start + 1)));
        }
        if val > 0xFFFF_FFFF {
            proof {
                if all_digits(body) {
                    lemma_digits_value_prefix(body, i - start + 1);
                }
            }
            return None;
        }
        i = i + 1;
    }
    proof {
        assert(body.take(i - start) =~= body);
    }
    Some(val as u32)
}

/// Accept a string exactly when it parses as a 32-bit count.
pub fn validate_u32(input: String) -> (r: Result<(), String>)
    ensures
        r is Ok <==> is_u32_numeral(input@),
        r is Err ==> r->Err_0@ == "not a positive integer"@,
{
    match parse_u32(input.as_str()) {
        Some(_) => Ok(()),
        None => Err(String::from_str("not a positive integer")),
    }
}

/// The digit character of one value below ten.
pub open spec fn digit_char(d: int) -> char {
    if d == 0 {
        '0'
    } else if d == 1 {
        '1'
    } else if d == 2 {
        '2'
    } else if d == 3 {
        '3'
    } else if d == 4 {
        '4'
    } else if d == 5 {
        '5'
    } else if d == 6 {
        '6'
    } else if d == 7 {
        '7'
    } else if d == 8 {
        '8'
    } else {
        '9'
    }
}

/// The decimal digits of a number, most significant first, without
/// sign or padding.
pub open spec fn decimal_of(n: int) -> Seq<char>
    recommends
        n >= 0,
    decreases n,
{
    if n < 10 {
        seq![digit_char(n)]
    } else {
        decimal_of(n / 10).push(digit_char(n % 10))
    }
}

/// The digit character of one value below ten.
fn digit_char_of(d: usize) -> (c: char)
    requires
        d < 10,
    ensures
        c == digit_char(d as int),
{
    match d {
        0 => '0',
        1 => '1',
        2 => '2',
        3 => '3',
        4 => '4',
        5 => '5',
        6 => '6',
        7 => '7',
        8 => '8',
        _ => '9',
    }
}

/// Render a number as its decimal digits.
pub fn to_decimal(n: usize) -> (r: String)
    ensures
        r@ == decimal_of(n as int),
{
    let mut digits: Vec<char> = Vec::new();
    let mut m = n;
    assert(decimal_of(n as int) =~= decimal_of(n as int) + digits@);
    while m >= 10
        invariant
            decimal_of(n as int) == decimal_of(m as int) + digits@,
        decreases m,
    {
        let ghost d0 = digits@;
        let d = m % 10;
        digits.insert(0, digit_char_of(d));
        proof {
            assert(digits@ =~= seq![digit_char(m as int % 10)] + d0);
            assert(decimal_of(m as int) == decimal_of(m as int / 10).push(
                digit_char(m as int % 10),
            ));
            assert(decimal_of(m as int / 10) + digits@ =~= decimal_of(m as int) + d0);
        }
        m = m / 10;
    }
    let ghost d0 = digits@;
    digits.insert(0, digit_char_of(m));
    proof {
        assert(digits@ =~= seq![digit_char(m as int)] + d0);
        assert(decimal_of(m as int) == seq![digit_char(m as int)]);
        assert(decimal_of(n as int) =~= digits@);
    }
    chars_to_string(&digits)
}

} // verus!
