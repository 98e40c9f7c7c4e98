//! Values accepted on the command line.

use crate::text;
use vstd::prelude::*;

verus! {

/// Length of the names to scan for, unless another one is chosen.
pub const DEFAULT_LEN: usize = 7;

/// Number of names retained after sorting, unless another one is chosen.
pub const DEFAULT_TOP: usize = 50_000;

/// Fewest syllables, unless another number is chosen.
pub const DEFAULT_MIN_SYL: usize = 2;

/// Most syllables, unless another number is chosen.
pub const DEFAULT_MAX_SYL: usize = 3;

/// Size of the n-grams not to share with a seed, unless another one is chosen.
pub const DEFAULT_NOVELTY: usize = 5;

/// Fewest edits away from a seed, unless another number is chosen.
pub const DEFAULT_MIN_EDIT: usize = 3;

/// Requests per second, unless another rate is chosen. This is a restrained rate;
/// do not overdo it.
pub const DEFAULT_RATE: u32 = 20;

/// Availability requests in flight, unless another number is chosen.
pub const DEFAULT_CHECKS: usize = 8;

/// Names per scoring request, unless another number is chosen.
pub const DEFAULT_BATCH: usize = 100;

/// Names per description request, unless another number is chosen.
pub const DEFAULT_DESCRIBE_BATCH: usize = 5;

/// Number of finalists, unless another one is chosen.
pub const DEFAULT_KEEP: usize = 40;

/// Size of the n-grams that two finalists may not share, unless another one is
/// chosen.
pub const DEFAULT_DIVERSITY: usize = 4;

/// Model requests in flight, unless another number is chosen.
pub const DEFAULT_CONCURRENCY: usize = 4;

/// A decimal digit.
pub open spec fn is_digit(c: char) -> bool {
    '0' <= c <= '9'
}

/// Only decimal digits.
pub open spec fn all_digits(s: Seq<char>) -> bool {
    forall|i: int| 0 <= i < s.len() ==> is_digit(#[trigger] s[i])
}

/// A text without one plus sign in front of it.
pub open spec fn without_plus(s: Seq<char>) -> Seq<char> {
    if s.len() > 0 && s[0] == '+' {
        s.drop_first()
    } else {
        s
    }
}

/// A number without sign, or with a plus sign, in decimal digits.
pub open spec fn is_number(s: Seq<char>) -> bool {
    without_plus(s).len() > 0 && all_digits(without_plus(s))
}

/// The number that decimal digits stand for.
pub open spec fn digits_value(s: Seq<char>) -> nat
    decreases s.len(),
{
    if s.len() == 0 {
        0
    } else {
        10 * digits_value(s.drop_last()) + (s.last() as u32 - 48) as nat
    }
}

/// The number that a text stands for.
pub open spec fn value(s: Seq<char>) -> nat {
    digits_value(without_plus(s))
}

proof fn lemma_value_grows(s: Seq<char>, n: int)
    requires
        0 <= n <= s.len(),
    ensures
        digits_value(s.take(n)) <= digits_value(s),
    decreases s.len(),
{
    if n < s.len() {
        lemma_value_grows(s.drop_last(), n);
        assert(s.drop_last().take(n) =~= s.take(n));
    } else {
        assert(s.take(n) =~= s);
    }
}

/// Reads a number that is at most `max`.
pub fn parse_number(s: &str, max: u64) -> (r: Option<u64>)
    ensures
        match r {
            Some(n) => is_number(s@) && n == value(s@) && n <= max,
            None => !is_number(s@) || value(s@) > max,
        },
{
    let chars = text::chars_of(s);
    let start: usize = if chars.len() > 0 && chars[0] == '+' {
        1
    } else {
        0
    };
    let ghost digits = without_plus(s@);
    assert(digits =~= s@.skip(start as int));
    if start >= chars.len() {
        return None;
    }
    let mut n: u64 = 0;
    let mut large = false;
    assert(digits.take(0) =~= Seq::empty());
    for i in start..chars.len()
        invariant
            chars@ == s@,
            start <= chars@.len(),
            digits == without_plus(s@),
            digits == s@.skip(start as int),
            all_digits(digits.take(i - start)),
            n <= max,
            !large ==> n == digits_value(digits.take(i - start)),
            large ==> digits_value(digits.take(i - start)) > max,
    {
        let c = chars[i];
        proof {
            let k = i - start;
            assert(digits[k] == c);
            assert(digits.take(k + 1).drop_last() =~= digits.take(k));
            assert(digits.take(k + 1).last() == c);
            lemma_value_grows(digits.take(k + 1), k);
            assert(digits.take(k + 1).take(k) =~= digits.take(k));
        }
        if !('0' <= c && c <= '9') {
            assert(!is_digit(digits[i - start]));
            return None;
        }
        assert forall|j: int| 0 <= j < digits.take(i - start + 1).len() implies is_digit(
            #[trigger] digits.take(i - start + 1)[j],
        ) by {
            if j < i - start {
                assert(digits.take(i - start)[j] == digits.take(i - start + 1)[j]);
            }
        }
        if !large {
            let d: u64 = (c as u32 - 48) as u64;
            if n > max / 10 || d > max - 10 * n {
                large = true;
            } else {
                n = 10 * n + d;
            }
        }
    }
    assert(digits.take(chars@.len() - start) =~= digits);
    if large {
        None
    } else {
        Some(n)
    }
}

/// What is said of a text that is no integer, given the text in quotation marks.
pub open spec fn not_an_integer_text(quoted: Seq<char>) -> Seq<char> {
    quoted + " is not an integer"@
}

/// Says that a text, given in quotation marks, is no integer.
pub fn not_an_integer(quoted: &str) -> (r: String)
    ensures
        r@ == not_an_integer_text(quoted@),
{
    let mut r = text::copy_text(quoted);
    r.append(" is not an integer");
    r
}

/// The text is a number of at most `max`.
pub open spec fn is_number_up_to(s: Seq<char>, max: int) -> bool {
    is_number(s) && value(s) <= max
}

/// A number was accepted or refused as it should be: one that is no number of at
/// most `max` is called no integer, and of the others those are accepted that are
/// `fine`; the rest is refused with `complaint`.
pub open spec fn is_parsed(
    s: Seq<char>,
    max: int,
    fine: spec_fn(int) -> bool,
    complaint: Seq<char>,
    r: Result<int, Seq<char>>,
) -> bool {
    if !is_number_up_to(s, max) {
        r == Err::<int, Seq<char>>(not_an_integer_text(text::debug_text(s)))
    } else if fine(value(s) as int) {
        r == Ok::<int, Seq<char>>(value(s) as int)
    } else {
        r == Err::<int, Seq<char>>(complaint)
    }
}

/// The number or the message of a result.
pub open spec fn seen(r: Result<usize, String>) -> Result<int, Seq<char>> {
    match r {
        Ok(n) => Ok(n as int),
        Err(e) => Err(e@),
    }
}

/// Reads a number of a machine word.
fn parse_usize(s: &str) -> (r: Result<usize, String>)
    ensures
        match r {
            Ok(n) => is_number_up_to(s@, usize::MAX as int) && n == value(s@),
            Err(e) => !is_number_up_to(s@, usize::MAX as int) && e@ == not_an_integer_text(
                text::debug_text(s@),
            ),
        },
{
    match parse_number(s, usize::MAX as u64) {
        Some(n) => Ok(n as usize),
        None => Err(not_an_integer(text::quoted(s).as_str())),
    }
}

/// Accepts a number that is not zero.
pub fn parse_positive_usize(s: &str) -> (r: Result<usize, String>)
    ensures
        is_parsed(
            s@,
            usize::MAX as int,
            |n: int| n > 0,
            "the value must be greater than zero"@,
            seen(r),
        ),
{
    let n = match parse_usize(s) {
        Ok(n) => n,
        Err(e) => return Err(e),
    };
    if n > 0 {
        Ok(n)
    } else {
        Err(text::copy_text("the value must be greater than zero"))
    }
}

/// Accepts a number of 32 bits that is not zero.
pub fn parse_positive_u32(s: &str) -> (r: Result<u32, String>)
    ensures
        is_parsed(
            s@,
            u32::MAX as int,
            |n: int| n > 0,
            "the value must be greater than zero"@,
            match r {
                Ok(n) => Ok(n as int),
                Err(e) => Err(e@),
            },
        ),
{
    match parse_number(s, u32::MAX as u64) {
        Some(n) => {
            if n > 0 {
                Ok(n as u32)
            } else {
                Err(text::copy_text("the value must be greater than zero"))
            }
        },
        None => Err(not_an_integer(text::quoted(s).as_str())),
    }
}

/// Accepts a length of 6 or 7.
pub fn parse_scan_len(s: &str) -> (r: Result<usize, String>)
    ensures
        is_parsed(
            s@,
            usize::MAX as int,
            |n: int| n == 6 || n == 7,
            "length must be 6 or 7"@,
            seen(r),
        ),
{
    let n = match parse_usize(s) {
        Ok(n) => n,
        Err(e) => return Err(e),
    };
    if n == 6 || n == 7 {
        Ok(n)
    } else {
        Err(text::copy_text("length must be 6 or 7"))
    }
}

/// Accepts a number of syllables from 1 to 4.
pub fn parse_syllables(s: &str) -> (r: Result<usize, String>)
    ensures
        is_parsed(
            s@,
            usize::MAX as int,
            |n: int| 1 <= n <= 4,
            "the syllable count must be between 1 and 4"@,
            seen(r),
        ),
{
    let n = match parse_usize(s) {
        Ok(n) => n,
        Err(e) => return Err(e),
    };
    if 1 <= n && n <= 4 {
        Ok(n)
    } else {
        Err(text::copy_text("the syllable count must be between 1 and 4"))
    }
}

/// Accepts a range of syllables that is not empty.
pub fn check_syllable_range(min_syl: usize, max_syl: usize) -> (r: Result<(), &'static str>)
    ensures
        match r {
            Ok(_) => min_syl <= max_syl,
            Err(e) => min_syl > max_syl && e@ == "min-syl must be less than or equal to max-syl"@,
        },
{
    if min_syl <= max_syl {
        Ok(())
    } else {
        Err("min-syl must be less than or equal to max-syl")
    }
}

/// A number is read back from the digits it is written with.
pub proof fn written_numbers_are_read_back(n: nat)
    ensures
        is_number(text::decimal_digits(n)),
        value(text::decimal_digits(n)) == n,
    decreases n,
{
    let s = text::decimal_digits(n);
    if n < 10 {
        assert(s.drop_last() =~= Seq::empty());
        assert((48 + n) as char as int == 48 + n);
        assert(s[0] == (48 + n) as char);
        assert(s.last() as u32 - 48 == n);
        assert(digits_value(s.drop_last()) == 0);
    } else {
        let rest = text::decimal_digits(n / 10);
        written_numbers_are_read_back(n / 10);
        lemma_first_is_digit(n / 10);
        assert(s.drop_last() =~= rest);
        assert((48 + n % 10) as char as int == 48 + n % 10);
        assert(s[0] == rest[0]);
        assert(without_plus(s) == s);
        assert(without_plus(rest) == rest);
        assert(s.last() as u32 - 48 == n % 10);
        assert forall|i: int| 0 <= i < s.len() implies is_digit(#[trigger] s[i]) by {
            if i < rest.len() {
                assert(without_plus(rest) == rest);
                assert(is_digit(rest[i]));
            }
        }
    }
}

proof fn lemma_first_is_digit(n: nat)
    ensures
        text::decimal_digits(n).len() > 0,
        text::decimal_digits(n)[0] != '+',
    decreases n,
{
    if n < 10 {
        assert((48 + n) as char as int == 48 + n);
    } else {
        lemma_first_is_digit(n / 10);
    }
}

// What numbers are read as

/// A number is written with the ten digits, at least one of them, and may have one
/// plus sign in front of it, which makes no difference.
pub proof fn numbers_are_digits(s: Seq<char>)
    ensures
        s.len() > 0 && s[0] != '+' ==> (is_number(s) <==> forall|i: int|
            0 <= i < s.len() ==> 48 <= #[trigger] s[i] as int && s[i] as int <= 57),
        !is_number(Seq::empty()),
        s.len() == 0 || s[0] != '+' ==> is_number(seq!['+'] + s) == is_number(s) && value(
            seq!['+'] + s,
        ) == value(s),
        s.len() > 0 && s[0] == '+' ==> !is_number(seq!['+'] + s),
{
    let plus = seq!['+'] + s;
    assert(plus.drop_first() =~= s);
    assert(without_plus(plus) == s);
    if s.len() > 0 && s[0] != '+' {
        if forall|i: int|
            0 <= i < s.len() ==> 48 <= #[trigger] s[i] as int && s[i] as int <= 57 {
            assert forall|i: int| 0 <= i < s.len() implies is_digit(#[trigger] s[i]) by {}
        }
        if is_number(s) {
            assert forall|i: int| 0 <= i < s.len() implies 48 <= #[trigger] s[i] as int && s[i]
                as int <= 57 by {
                assert(is_digit(s[i]));
            }
        }
    }
    if s.len() > 0 && s[0] == '+' {
        assert(!is_digit(s[0]));
    }
}

/// The value of a number is what its digits stand for in base ten.
pub proof fn values_are_in_base_ten(s: Seq<char>)
    requires
        is_number(s),
        s[0] != '+',
    ensures
        value(s) == text::number_of(s.map_values(|c: char| text::digit_value(c)), 10),
{
    lemma_digits_in_base_ten(s);
}

proof fn lemma_digits_in_base_ten(s: Seq<char>)
    requires
        all_digits(s),
    ensures
        digits_value(s) == text::number_of(s.map_values(|c: char| text::digit_value(c)), 10),
    decreases s.len(),
{
    let values = s.map_values(|c: char| text::digit_value(c));
    if s.len() > 0 {
        let n = s.len() - 1;
        assert(is_digit(s[n]));
        assert forall|i: int| 0 <= i < s.drop_last().len() implies is_digit(
            #[trigger] s.drop_last()[i],
        ) by {
            assert(is_digit(s[i]));
        }
        lemma_digits_in_base_ten(s.drop_last());
        assert(values.drop_last() =~= s.drop_last().map_values(|c: char| text::digit_value(c)));
        assert(values.last() == text::digit_value(s.last()));
    }
}

/// A number that is fine is accepted as it is, one that is not is refused with the
/// complaint, and what is no number, or one that is too great, is called no integer.
pub proof fn numbers_are_accepted_or_refused(
    s: Seq<char>,
    max: int,
    fine: spec_fn(int) -> bool,
    complaint: Seq<char>,
    r: Result<int, Seq<char>>,
)
    requires
        is_parsed(s, max, fine, complaint, r),
    ensures
        r is Ok <==> is_number(s) && value(s) <= max && fine(value(s) as int),
        r is Ok ==> r->Ok_0 == value(s),
        is_number(s) && value(s) <= max && !fine(value(s) as int) ==> r->Err_0 == complaint,
        !is_number(s) || value(s) > max ==> r->Err_0 == text::debug_text(s)
            + " is not an integer"@,
{
}

/// Every number that is fine and not too great is accepted when it is written in
/// digits.
pub proof fn written_numbers_are_accepted(
    n: nat,
    max: int,
    fine: spec_fn(int) -> bool,
    complaint: Seq<char>,
    r: Result<int, Seq<char>>,
)
    requires
        is_parsed(text::decimal_digits(n), max, fine, complaint, r),
        n <= max,
        fine(n as int),
    ensures
        r == Ok::<int, Seq<char>>(n as int),
{
    written_numbers_are_read_back(n);
}

/// The defaults are those that are documented, and each is accepted where it may be
/// given.
pub proof fn the_defaults()
    ensures
        DEFAULT_LEN == 7,
        DEFAULT_TOP == 50_000,
        DEFAULT_MIN_SYL == 2,
        DEFAULT_MAX_SYL == 3,
        DEFAULT_NOVELTY == 5,
        DEFAULT_MIN_EDIT == 3,
        DEFAULT_RATE == 20,
        DEFAULT_CHECKS == 8,
        DEFAULT_BATCH == 100,
        DEFAULT_DESCRIBE_BATCH == 5,
        DEFAULT_KEEP == 40,
        DEFAULT_DIVERSITY == 4,
        DEFAULT_CONCURRENCY == 4,
{
}

/// The number or the message of a result is the one it holds.
pub proof fn what_is_seen_of_a_result(n: usize, e: String)
    ensures
        seen(Ok(n)) == Ok::<int, Seq<char>>(n as int),
        seen(Err(e)) == Err::<int, Seq<char>>(e@),
{
}

} // verus!
