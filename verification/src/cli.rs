//! Command-line values: the thread-count option and its default.

use vstd::prelude::*;
use crate::text::chars_of;

verus! {

/// `c` is one of the ASCII digits `0`..`9`.
pub open spec fn is_ascii_digit(c: char) -> bool {
    '0' <= c && c <= '9'
}

/// The value of a string of decimal digits, most significant first.
pub open spec fn digits_value(digits: Seq<char>) -> nat
    decreases digits.len(),
{
    if digits.len() == 0 {
        0
    } else {
        digits_value(digits.drop_last()) * 10 + (digits.last() as nat - '0' as nat) as nat
    }
}

/// The digits that follow an optional leading `+`.
pub open spec fn unsigned_digits(text: Seq<char>) -> Seq<char> {
    if text.len() > 0 && text[0] == '+' {
        text.drop_first()
    } else {
        text
    }
}

/// What `text.parse::<usize>()` accepts: an optional `+` followed by at least
/// one ASCII digit and nothing else, whose value fits in a `usize`.
pub open spec fn parse_usize(text: Seq<char>) -> Option<nat> {
    let digits = unsigned_digits(text);
    if digits.len() > 0 && (forall|i: int| 0 <= i < digits.len() ==> is_ascii_digit(#[trigger] digits[i]))
        && digits_value(digits) <= usize::MAX {
        Some(digits_value(digits))
    } else {
        None
    }
}

/// The outcome of reading a thread count from `text`: the count, or the
/// message that explains why it was refused.
pub open spec fn thread_count_outcome(text: Seq<char>) -> Result<nat, Seq<char>> {
    match parse_usize(text) {
        None => Err("invalid thread count: "@ + text),
        Some(n) => if n == 0 {
            Err("thread count must be at least 1"@)
        } else {
            Ok(n)
        },
    }
}

proof fn lemma_digits_value_prefix(digits: Seq<char>, k: int)
    requires
        0 <= k <= digits.len(),
        forall|i: int| 0 <= i < digits.len() ==> is_ascii_digit(#[trigger] digits[i]),
    ensures
        digits_value(digits.take(k)) <= digits_value(digits),
    decreases digits.len() - k,
{
    if k < digits.len() {
        lemma_digits_value_prefix(digits, k + 1);
        assert(digits.take(k + 1).drop_last() =~= digits.take(k));
    } else {
        assert(digits.take(k) =~= digits);
    }
}

/// Reads the value of the thread-count option. The value must be a decimal
/// `usize` (as `str::parse` reads one) and at least 1.
pub fn parse_thread_count(value: &str) -> (result: Result<usize, String>)
    ensures
        match result {
            Ok(n) => thread_count_outcome(value@) == Ok::<nat, Seq<char>>(n as nat),
            Err(message) => thread_count_outcome(value@) == Err::<nat, Seq<char>>(message@),
        },
{
    let text = chars_of(value);
    let len: usize = text.len();
    let start: usize = if len > 0 && text[0] == '+' { 1 } else { 0 };
    let ghost digits = unsigned_digits(value@);
    assert(digits =~= text@.subrange(start as int, len as int));
    let mut parsed: Option<usize> = if start < len { Some(0) } else { None };
    let mut i: usize = start;
    while i < len && parsed.is_some()
        invariant
            text@ == value@,
            len == text@.len(),
            start <= i <= len,
            digits =~= text@.subrange(start as int, len as int),
            digits == unsigned_digits(value@),
            parsed is Some ==> digits.len() > 0,
            parsed is Some ==> parsed->0 == digits_value(digits.take(i - start)),
            parsed is Some ==> forall|j: int| 0 <= j < i - start ==> is_ascii_digit(#[trigger] digits[j]),
            parsed is None ==> parse_usize(value@) is None,
        decreases len - i,
    {
        let c = text[i];
        let v: usize = parsed.unwrap();
        assert(digits.take(i - start + 1).drop_last() =~= digits.take(i - start));
        assert(digits[i - start] == c);
        assert(digits.take(i - start + 1).last() == c);
        if '0' <= c && c <= '9' {
            let d: usize = (c as u32 - '0' as u32) as usize;
            match v.checked_mul(10) {
                Some(tens) => match tens.checked_add(d) {
                    Some(next) => {
                        assert(next == digits_value(digits.take(i - start + 1)));
                        assert(forall|j: int| 0 <= j < i + 1 - start ==> is_ascii_digit(#[trigger] digits[j]));
                        parsed = Some(next);
                    },
                    None => {
                        proof {
                            if forall|j: int| 0 <= j < digits.len() ==> is_ascii_digit(#[trigger] digits[j]) {
                                lemma_digits_value_prefix(digits, i - start + 1);
                            }
                        }
                        parsed = None;
                    },
                },
                None => {
                    proof {
                        if forall|j: int| 0 <= j < digits.len() ==> is_ascii_digit(#[trigger] digits[j]) {
                            lemma_digits_value_prefix(digits, i - start + 1);
                        }
                    }
                    parsed = None;
                },
            }
        } else {
            assert(!is_ascii_digit(digits[i - start]));
            parsed = None;
        }
        i = i + 1;
    }
    match parsed {
        Some(n) => {
            assert(digits.take(len - start) =~= digits);
            if n == 0 {
                Err(String::from_str("thread count must be at least 1"))
            } else {
                Ok(n)
            }
        },
        None => Err(String::from_str("invalid thread count: ").concat(value)),
    }
}

/// The decimal digit of `d` (for `d` below ten).
pub open spec fn digit_char(d: nat) -> char {
    if d == 0 {
        '0'
    } else if d == 1 {
        '1'
    } else if d == 2 {
        '2'
    } else if d == 3 {
        '3'
    } else if d == 4 {
        '4'
    } else if d == 5 {
        '5'
    } else if d == 6 {
        '6'
    } else if d == 7 {
        '7'
    } else if d == 8 {
        '8'
    } else {
        '9'
    }
}

/// `n` written in decimal, without leading zeros.
pub open spec fn decimal(n: nat) -> Seq<char>
    decreases n,
{
    if n < 10 {
        seq![digit_char(n)]
    } else {
        decimal(n / 10).push(digit_char(n % 10))
    }
}

proof fn lemma_decimal_digits(n: nat)
    ensures
        decimal(n).len() > 0,
        is_ascii_digit(decimal(n)[0]),
        forall|i: int| 0 <= i < decimal(n).len() ==> is_ascii_digit(#[trigger] decimal(n)[i]),
        digits_value(decimal(n)) == n,
    decreases n,
{
    if n < 10 {
        assert(decimal(n).drop_last() =~= Seq::<char>::empty());
        assert(digit_char(n) as nat - '0' as nat == n);
        assert(digits_value(Seq::<char>::empty()) == 0);
        assert(decimal(n).last() == digit_char(n));
    } else {
        lemma_decimal_digits(n / 10);
        let d: nat = n % 10;
        assert(decimal(n).drop_last() =~= decimal(n / 10));
        assert(digit_char(d) as nat - '0' as nat == d);
        assert((n / 10) * 10 + d == n);
        assert(decimal(n).last() == digit_char(d));
        assert(digits_value(decimal(n)) == digits_value(decimal(n / 10)) * 10 + (digit_char(d) as nat - '0' as nat) as nat);
        assert forall|i: int| 0 <= i < decimal(n).len() implies is_ascii_digit(#[trigger] decimal(n)[i]) by {
            if i < decimal(n / 10).len() {
                assert(decimal(n)[i] == decimal(n / 10)[i]);
            }
        }
        assert(decimal(n)[0] == decimal(n / 10)[0]);
    }
}

/// Every thread count written in decimal is read back as itself.
pub proof fn lemma_thread_count_reads_back(n: nat)
    requires
        1 <= n <= usize::MAX,
    ensures
        thread_count_outcome(decimal(n)) == Ok::<nat, Seq<char>>(n),
{
    lemma_decimal_digits(n);
    assert(unsigned_digits(decimal(n)) == decimal(n));
}

/// The default number of worker threads: one less than the parallelism the
/// machine reports, but at least one; one when the machine reports nothing.
pub fn default_thread_count(available: Option<usize>) -> (count: usize)
    ensures
        count == match available {
            Some(n) => if n > 1 { (n - 1) as usize } else { 1usize },
            None => 1usize,
        },
        count >= 1,
{
    match available {
        Some(n) => if n > 1 { n - 1 } else { 1 },
        None => 1,
    }
}

} // verus!
