//! Integers and truth values written as text, and read back from it.
use vstd::prelude::*;

use crate::text::str_same;

verus! {

// ---------------------------------------------------------------------------
// Writing
// ---------------------------------------------------------------------------

/// The decimal digit of a number below ten.
pub open spec fn digit(d: nat) -> char
    recommends
        d < 10,
{
    seq!['0', '1', '2', '3', '4', '5', '6', '7', '8', '9'][d as int]
}

/// The decimal digits of a number, without leading zeros.
pub open spec fn digits(n: nat) -> Seq<char>
    decreases n,
{
    if n < 10 {
        seq![digit(n)]
    } else {
        digits(n / 10).push(digit(n % 10))
    }
}

/// An integer in decimal, with a minus sign where it is negative.
pub open spec fn decimal(n: int) -> Seq<char> {
    if n < 0 {
        seq!['-'] + digits((-n) as nat)
    } else {
        digits(n as nat)
    }
}

/// A truth value as text.
pub open spec fn bool_text(b: bool) -> Seq<char> {
    if b {
        "true"@
    } else {
        "false"@
    }
}

/// `i128`'s `ToString`: the integer in decimal.
#[verifier::external_body]
pub(crate) fn integer_to_string(n: i128) -> (r: String)
    ensures
        r@ == decimal(n as int),
{
    n.to_string()
}

/// A truth value as text.
pub(crate) fn bool_to_string(b: bool) -> (r: String)
    ensures
        r@ == bool_text(b),
{
    if b {
        "true".to_string()
    } else {
        "false".to_string()
    }
}

// ---------------------------------------------------------------------------
// Reading
// ---------------------------------------------------------------------------

/// Whether a text is one decimal digit or more, and nothing else.
pub open spec fn all_digits(s: Seq<char>) -> bool {
    s.len() > 0 && forall|i: int| 0 <= i < s.len() ==> '0' <= #[trigger] s[i] <= '9'
}

/// The number that a sequence of decimal digits stands for.
pub open spec fn digits_value(s: Seq<char>) -> nat
    decreases s.len(),
{
    if s.len() == 0 {
        0
    } else {
        digits_value(s.drop_last()) * 10 + (s.last() as int - '0' as int) as nat
    }
}

/// The number that an unsigned numeral stands for: digits, after a plus sign
/// or none.
pub open spec fn unsigned_reading(s: Seq<char>) -> Option<nat> {
    let body = if s.len() > 0 && s[0] == '+' {
        s.skip(1)
    } else {
        s
    };
    if all_digits(body) {
        Some(digits_value(body))
    } else {
        None
    }
}

/// The integer that a numeral stands for: digits, after a sign or none.
pub open spec fn integer_reading(s: Seq<char>) -> Option<int> {
    if s.len() > 0 && s[0] == '-' {
        if all_digits(s.skip(1)) {
            Some(-digits_value(s.skip(1)))
        } else {
            None
        }
    } else {
        match unsigned_reading(s) {
            Some(n) => Some(n as int),
            None => None,
        }
    }
}

/// What a text reads as where an `i64` is expected.
pub open spec fn i64_reading(s: Seq<char>) -> Option<i64> {
    match integer_reading(s) {
        Some(n) if i64::MIN <= n <= i64::MAX => Some(n as i64),
        _ => None,
    }
}

/// What a text reads as where a `usize` is expected.
pub open spec fn usize_reading(s: Seq<char>) -> Option<usize> {
    match unsigned_reading(s) {
        Some(n) if n <= usize::MAX => Some(n as usize),
        _ => None,
    }
}

/// What a text reads as where a truth value is expected.
pub open spec fn bool_reading(s: Seq<char>) -> Option<bool> {
    if s == "true"@ {
        Some(true)
    } else if s == "false"@ {
        Some(false)
    } else {
        None
    }
}

/// `i64`'s `FromStr`: digits after a sign or none, nothing before or behind
/// them, and a value in range; any other text is refused.
#[verifier::external_body]
pub(crate) fn parse_i64(s: &str) -> (r: Option<i64>)
    ensures
        r == i64_reading(s@),
{
    s.parse::<i64>().ok()
}

/// `usize`'s `FromStr`: digits after a plus sign or none, nothing before or
/// behind them, and a value in range; any other text is refused.
#[verifier::external_body]
pub(crate) fn parse_usize(s: &str) -> (r: Option<usize>)
    ensures
        r == usize_reading(s@),
{
    s.parse::<usize>().ok()
}

/// What a text reads as where a truth value is expected.
pub(crate) fn parse_bool(s: &str) -> (r: Option<bool>)
    ensures
        r == bool_reading(s@),
{
    if str_same(s, "true") {
        Some(true)
    } else if str_same(s, "false") {
        Some(false)
    } else {
        None
    }
}

// ---------------------------------------------------------------------------
// Laws
// ---------------------------------------------------------------------------

proof fn lemma_digit(d: nat)
    requires
        d < 10,
    ensures
        '0' <= digit(d) <= '9',
        digit(d) as int - '0' as int == d,
{
    let table = seq!['0', '1', '2', '3', '4', '5', '6', '7', '8', '9'];
    assert(table[d as int] as int - '0' as int == d);
}

proof fn lemma_digits_read_back(n: nat)
    ensures
        all_digits(digits(n)),
        digits_value(digits(n)) == n,
    decreases n,
{
    if n < 10 {
        lemma_digit(n);
        assert(digits(n).drop_last() =~= Seq::<char>::empty());
        reveal_with_fuel(digits_value, 2);
    } else {
        lemma_digits_read_back(n / 10);
        lemma_digit(n % 10);
        assert(digits(n).drop_last() =~= digits(n / 10));
    }
}

proof fn lemma_decimal_reads_back(n: int)
    ensures
        integer_reading(decimal(n)) == Some(n),
{
    if n < 0 {
        let body = digits((-n) as nat);
        lemma_digits_read_back((-n) as nat);
        assert(decimal(n).skip(1) =~= body);
    } else {
        let body = digits(n as nat);
        lemma_digits_read_back(n as nat);
        assert('0' <= body[0] <= '9');
    }
}

/// An integer written in decimal reads back as itself.
pub proof fn decimal_reads_back(n: i64)
    ensures
        i64_reading(decimal(n as int)) == Some(n),
{
    lemma_decimal_reads_back(n as int);
}

/// No two integers are written alike.
pub proof fn decimal_is_injective(a: int, b: int)
    requires
        decimal(a) == decimal(b),
    ensures
        a == b,
{
    lemma_decimal_reads_back(a);
    lemma_decimal_reads_back(b);
}

/// A truth value written as text reads back as itself.
pub proof fn bool_text_reads_back(b: bool)
    ensures
        bool_reading(bool_text(b)) == Some(b),
{
    reveal_strlit("true");
    reveal_strlit("false");
    assert("true"@[0] != "false"@[0]);
}

} // verus!
