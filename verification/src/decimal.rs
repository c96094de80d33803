//! Unsigned decimal numerals: what a numeral denotes, how a number is written,
//! and the executable reader and writer for 32-bit values.

use vstd::prelude::*;
use vstd::string::StringExecFns;

verus! {

/// Why a text is not the numeral of a 32-bit unsigned number.
#[derive(Debug, Clone, Copy, PartialEq, Eq, Structural)]
pub enum NumberError {
    /// The text is empty.
    Empty,
    /// The text holds a character that is not a decimal digit, or is a lone sign.
    InvalidDigit,
    /// The digits denote a number above `u32::MAX`.
    Overflow,
}

/// Whether `c` is one of the ten ASCII decimal digits.
pub open spec fn is_digit(c: char) -> bool {
    '0' <= c && c <= '9'
}

/// The number that the decimal digit `c` stands for.
pub open spec fn digit_value(c: char) -> nat
    recommends
        is_digit(c),
{
    (c as u32 - '0' as u32) as nat
}

/// The decimal digit that stands for `d`.
pub open spec fn digit_char(d: nat) -> char
    recommends
        d < 10,
{
    if d == 0 {
        '0'
    } else if d == 1 {
        '1'
    } else if d == 2 {
        '2'
    } else if d == 3 {
        '3'
    } else if d == 4 {
        '4'
    } else if d == 5 {
        '5'
    } else if d == 6 {
        '6'
    } else if d == 7 {
        '7'
    } else if d == 8 {
        '8'
    } else {
        '9'
    }
}

/// Whether every character of `s` is a decimal digit.
pub open spec fn all_digits(s: Seq<char>) -> bool {
    forall|i: int| 0 <= i < s.len() ==> is_digit(#[trigger] s[i])
}

/// The number that the digit string `s` denotes, most significant digit first.
/// The empty string denotes zero.
pub open spec fn decimal_value(s: Seq<char>) -> nat
    decreases s.len(),
{
    if s.len() == 0 {
        0
    } else {
        10 * decimal_value(s.drop_last()) + digit_value(s.last())
    }
}

/// The shortest decimal numeral of `n`: no sign, no leading zero except for zero itself.
pub open spec fn decimal_digits(n: nat) -> Seq<char>
    decreases n,
{
    if n < 10 {
        seq![digit_char(n)]
    } else {
        decimal_digits(n / 10).push(digit_char(n % 10))
    }
}

/// How many characters at the start of `s` are decimal digits.
pub open spec fn digit_run(s: Seq<char>) -> nat
    decreases s.len(),
{
    if s.len() > 0 && is_digit(s.first()) {
        1 + digit_run(s.drop_first())
    } else {
        0
    }
}

/// `s` without its leading plus sign, if it has one.
pub open spec fn unsigned_part(s: Seq<char>) -> Seq<char> {
    if s.len() > 0 && s[0] == '+' {
        s.skip(1)
    } else {
        s
    }
}

/// What reading `s` as a 32-bit unsigned decimal number gives.
///
/// A numeral is an optional `+` followed by at least one digit; leading zeros
/// are allowed. The text is read from the left: digits that already exceed
/// `u32::MAX` give `Overflow` even if a stray character follows them, and a
/// stray character met before that gives `InvalidDigit`.
pub open spec fn parse_u32_spec(s: Seq<char>) -> Result<u32, NumberError> {
    let body = unsigned_part(s);
    let run = body.take(digit_run(body) as int);
    if s.len() == 0 {
        Err(NumberError::Empty)
    } else if body.len() == 0 {
        Err(NumberError::InvalidDigit)
    } else if decimal_value(run) > u32::MAX {
        Err(NumberError::Overflow)
    } else if run.len() < body.len() {
        Err(NumberError::InvalidDigit)
    } else {
        Ok(decimal_value(body) as u32)
    }
}

/// `digit_value` and `digit_char` undo each other.
pub proof fn lemma_digit_char_value(d: nat)
    requires
        d < 10,
    ensures
        is_digit(digit_char(d)),
        digit_value(digit_char(d)) == d,
{
}

/// A digit run of length `p` is exactly a prefix of `p` digits that ends at
/// the end of the text or at a character that is no digit.
pub proof fn lemma_digit_run_is(s: Seq<char>, p: int)
    requires
        0 <= p <= s.len(),
        all_digits(s.take(p)),
        p == s.len() || !is_digit(s[p]),
    ensures
        digit_run(s) == p,
    decreases p,
{
    if p > 0 {
        assert(s.take(p)[0] == s[0]);
        let rest = s.drop_first();
        assert forall|i: int| 0 <= i < p - 1 implies is_digit(#[trigger] rest.take(p - 1)[i]) by {
            assert(rest.take(p - 1)[i] == s.take(p)[i + 1]);
        }
        lemma_digit_run_is(rest, p - 1);
    }
}

/// The digit run of a text is a prefix of it, and is made of digits only.
pub proof fn lemma_digit_run_bounds(s: Seq<char>)
    ensures
        digit_run(s) <= s.len(),
        all_digits(s.take(digit_run(s) as int)),
        digit_run(s) == s.len() || !is_digit(s[digit_run(s) as int]),
    decreases s.len(),
{
    if s.len() > 0 && is_digit(s.first()) {
        let rest = s.drop_first();
        lemma_digit_run_bounds(rest);
        let p = digit_run(s) as int;
        assert forall|i: int| 0 <= i < p implies is_digit(#[trigger] s.take(p)[i]) by {
            if i > 0 {
                assert(s.take(p)[i] == rest.take(p - 1)[i - 1]);
            }
        }
    }
}

/// Reading more digits never makes the number smaller.
pub proof fn lemma_value_monotone(s: Seq<char>, j: int, k: int)
    requires
        0 <= j <= k <= s.len(),
    ensures
        decimal_value(s.take(j)) <= decimal_value(s.take(k)),
    decreases k - j,
{
    if j < k {
        lemma_value_monotone(s, j, k - 1);
        assert(s.take(k).drop_last() == s.take(k - 1));
    }
}

/// The numeral of `n` is a non-empty string of digits.
pub proof fn lemma_digits_well_formed(n: nat)
    ensures
        decimal_digits(n).len() >= 1,
        all_digits(decimal_digits(n)),
    decreases n,
{
    if n >= 10 {
        lemma_digits_well_formed(n / 10);
    }
    lemma_digit_char_value(n % 10);
}

/// The numeral of `n` denotes `n`.
pub proof fn lemma_value_of_digits(n: nat)
    ensures
        decimal_value(decimal_digits(n)) == n,
    decreases n,
{
    let s = decimal_digits(n);
    lemma_digit_char_value(n % 10);
    assert(s.last() == digit_char(n % 10));
    if n < 10 {
        assert(decimal_value(s.drop_last()) == 0);
    } else {
        lemma_value_of_digits(n / 10);
        assert(s.drop_last() == decimal_digits(n / 10));
    }
    assert(decimal_value(s) == 10 * decimal_value(s.drop_last()) + digit_value(s.last()));
}

/// Reading the numeral of a 32-bit number gives that number back.
pub proof fn lemma_parse_digits_round_trip(n: u32)
    ensures
        parse_u32_spec(decimal_digits(n as nat)) == Ok::<u32, NumberError>(n),
{
    let s = decimal_digits(n as nat);
    lemma_digits_well_formed(n as nat);
    lemma_value_of_digits(n as nat);
    assert(is_digit(s[0]));
    assert(s.take(s.len() as int) == s);
    lemma_digit_run_is(s, s.len() as int);
}

/// The one-character text of the digit that stands for `d`.
fn digit_str(d: u32) -> (r: &'static str)
    requires
        d < 10,
    ensures
        r@ == seq![digit_char(d as nat)],
{
    proof {
        reveal_strlit("0");
        reveal_strlit("1");
        reveal_strlit("2");
        reveal_strlit("3");
        reveal_strlit("4");
        reveal_strlit("5");
        reveal_strlit("6");
        reveal_strlit("7");
        reveal_strlit("8");
        reveal_strlit("9");
    }
    let r = if d == 0 {
        "0"
    } else if d == 1 {
        "1"
    } else if d == 2 {
        "2"
    } else if d == 3 {
        "3"
    } else if d == 4 {
        "4"
    } else if d == 5 {
        "5"
    } else if d == 6 {
        "6"
    } else if d == 7 {
        "7"
    } else if d == 8 {
        "8"
    } else {
        "9"
    };
    assert(r@ =~= seq![digit_char(d as nat)]);
    r
}

/// Writes `n` as its shortest decimal numeral.
pub fn format_u32(n: u32) -> (r: String)
    ensures
        r@ == decimal_digits(n as nat),
    decreases n,
{
    let last = digit_str(n % 10);
    if n < 10 {
        last.to_owned()
    } else {
        let r = format_u32(n / 10).concat(last);
        assert(r@ =~= decimal_digits(n as nat));
        r
    }
}

/// Reads `s` as a 32-bit unsigned decimal number.
pub fn parse_u32(s: &str) -> (r: Result<u32, NumberError>)
    ensures
        r == parse_u32_spec(s@),
{
    let n: usize = s.unicode_len();
    if n == 0 {
        return Err(NumberError::Empty);
    }
    let body = if s.get_char(0) == '+' {
        s.substring_char(1, n)
    } else {
        s
    };
    assert(body@ == unsigned_part(s@));
    if body.is_empty() {
        return Err(NumberError::InvalidDigit);
    }
    let mut acc: u32 = 0;
    for c in it: body.chars()
        invariant
            it.seq() == body@,
            body@ == unsigned_part(s@),
            s@.len() > 0,
            body@.len() > 0,
            all_digits(body@.take(it.index())),
            acc == decimal_value(body@.take(it.index())),
    {
        let ghost i = it.index();
        if !(c >= '0' && c <= '9') {
            proof {
                lemma_digit_run_is(body@, i);
            }
            return Err(NumberError::InvalidDigit);
        }
        let d: u32 = c as u32 - '0' as u32;
        let wide: u64 = acc as u64 * 10 + d as u64;
        proof {
            assert(body@.take(i + 1).drop_last() == body@.take(i));
            assert(body@.take(i + 1).last() == c);
            assert(decimal_value(body@.take(i + 1)) == wide);
            assert forall|j: int| 0 <= j < i + 1 implies is_digit(
                #[trigger] body@.take(i + 1)[j],
            ) by {
                if j < i {
                    assert(body@.take(i + 1)[j] == body@.take(i)[j]);
                }
            }
        }
        if wide > u32::MAX as u64 {
            proof {
                lemma_digit_run_bounds(body@);
                let p = digit_run(body@) as int;
                if p < i + 1 {
                    assert(body@.take(i + 1)[p] == body@[p]);
                }
                lemma_value_monotone(body@, i + 1, p);
            }
            return Err(NumberError::Overflow);
        }
        acc = wide as u32;
    }
    proof {
        assert(body@.take(body@.len() as int) == body@);
        lemma_digit_run_is(body@, body@.len() as int);
    }
    Ok(acc)
}

} // verus!
