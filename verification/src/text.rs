//! Reading numbers and words out of short texts, such as the files that
//! describe a CPU cache.
use vstd::prelude::*;

verus! {

/// Why a text is not a `usize` in decimal.
#[derive(Clone, Copy, Debug, PartialEq, Eq, Structural)]
pub enum IntError {
    /// The text is empty.
    Empty,
    /// The text holds a character that is not a decimal digit (a lone sign
    /// counts as one).
    InvalidDigit,
    /// The number does not fit in a `usize`.
    Overflow,
}

/// `c` has the Unicode `White_Space` property.
pub open spec fn is_whitespace(c: char) -> bool {
    ||| ('\u{9}' <= c && c <= '\u{d}')
    ||| c == ' '
    ||| c == '\u{85}'
    ||| c == '\u{a0}'
    ||| c == '\u{1680}'
    ||| ('\u{2000}' <= c && c <= '\u{200a}')
    ||| c == '\u{2028}'
    ||| c == '\u{2029}'
    ||| c == '\u{202f}'
    ||| c == '\u{205f}'
    ||| c == '\u{3000}'
}

/// `s` without its leading whitespace.
pub open spec fn trim_start(s: Seq<char>) -> Seq<char>
    decreases s.len(),
{
    if s.len() > 0 && is_whitespace(s[0]) {
        trim_start(s.drop_first())
    } else {
        s
    }
}

/// `s` without its trailing whitespace.
pub open spec fn trim_end(s: Seq<char>) -> Seq<char>
    decreases s.len(),
{
    if s.len() > 0 && is_whitespace(s.last()) {
        trim_end(s.drop_last())
    } else {
        s
    }
}

/// `s` without leading and trailing whitespace.
pub open spec fn trim(s: Seq<char>) -> Seq<char> {
    trim_end(trim_start(s))
}

pub open spec fn is_digit(c: char) -> bool {
    '0' <= c && c <= '9'
}

pub open spec fn digit_value(c: char) -> nat {
    (c as int - '0' as int) as nat
}

/// Reads the digits `d` left to right and stops at the first character that
/// is not a digit or that makes the number leave the range of `usize`.
pub open spec fn scan_digits(d: Seq<char>) -> Result<nat, IntError>
    decreases d.len(),
{
    if d.len() == 0 {
        Ok(0)
    } else {
        match scan_digits(d.drop_last()) {
            Err(e) => Err(e),
            Ok(v) => if !is_digit(d.last()) {
                Err(IntError::InvalidDigit)
            } else if v * 10 + digit_value(d.last()) > usize::MAX {
                Err(IntError::Overflow)
            } else {
                Ok(v * 10 + digit_value(d.last()))
            },
        }
    }
}

/// What reading `s` as a `usize` in decimal gives: an optional `+` followed by
/// decimal digits, nothing else.
pub open spec fn parse_usize(s: Seq<char>) -> Result<usize, IntError> {
    if s.len() == 0 {
        Err(IntError::Empty)
    } else if (s[0] == '+' || s[0] == '-') && s.len() == 1 {
        Err(IntError::InvalidDigit)
    } else {
        let d = if s[0] == '+' {
            s.drop_first()
        } else {
            s
        };
        match scan_digits(d) {
            Ok(v) => Ok(v as usize),
            Err(e) => Err(e),
        }
    }
}

/// The characters of `s`, in order.
pub fn chars_of(s: &str) -> (v: Vec<char>)
    ensures
        v@ == s@,
{
    let n = s.unicode_len();
    let mut v: Vec<char> = Vec::with_capacity(n);
    let mut i: usize = 0;
    while i < n
        invariant
            n == s@.len(),
            i <= n,
            v@ == s@.subrange(0, i as int),
        decreases n - i,
    {
        v.push(s.get_char(i));
        i = i + 1;
        assert(v@ =~= s@.subrange(0, i as int));
    }
    assert(v@ =~= s@);
    v
}

/// Whether `c` has the Unicode `White_Space` property.
pub fn char_is_whitespace(c: char) -> (b: bool)
    ensures
        b == is_whitespace(c),
{
    ('\u{9}' <= c && c <= '\u{d}') || c == ' ' || c == '\u{85}' || c == '\u{a0}' || c
        == '\u{1680}' || ('\u{2000}' <= c && c <= '\u{200a}') || c == '\u{2028}' || c
        == '\u{2029}' || c == '\u{202f}' || c == '\u{205f}' || c == '\u{3000}'
}

proof fn lemma_trim_start_skip(s: Seq<char>, i: int)
    requires
        0 <= i <= s.len(),
        forall|j: int| 0 <= j < i ==> is_whitespace(#[trigger] s[j]),
    ensures
        trim_start(s) == trim_start(s.subrange(i, s.len() as int)),
    decreases i,
{
    if i > 0 {
        assert(s.drop_first().subrange(i - 1, s.drop_first().len() as int) =~= s.subrange(
            i,
            s.len() as int,
        ));
        lemma_trim_start_skip(s.drop_first(), i - 1);
    } else {
        assert(s.subrange(0, s.len() as int) =~= s);
    }
}

proof fn lemma_trim_end_skip(s: Seq<char>, i: int)
    requires
        0 <= i <= s.len(),
        forall|j: int| i <= j < s.len() ==> is_whitespace(#[trigger] s[j]),
    ensures
        trim_end(s) == trim_end(s.subrange(0, i)),
    decreases s.len() - i,
{
    if i < s.len() {
        assert(s.drop_last().subrange(0, i) =~= s.subrange(0, i));
        lemma_trim_end_skip(s.drop_last(), i);
    } else {
        assert(s.subrange(0, i) =~= s);
    }
}

/// `s` without leading and trailing whitespace.
pub fn trim_chars(s: &[char]) -> (t: Vec<char>)
    ensures
        t@ == trim(s@),
{
    let n = s.len();
    let mut start: usize = 0;
    while start < n && char_is_whitespace(s[start])
        invariant
            n == s@.len(),
            start <= n,
            forall|j: int| 0 <= j < start ==> is_whitespace(#[trigger] s@[j]),
        decreases n - start,
    {
        start = start + 1;
    }
    let ghost rest = s@.subrange(start as int, n as int);
    proof {
        lemma_trim_start_skip(s@, start as int);
        assert(trim_start(rest) == rest);
    }
    let mut end: usize = n;
    while end > start && char_is_whitespace(s[end - 1])
        invariant
            n == s@.len(),
            start <= end <= n,
            forall|j: int| end <= j < n ==> is_whitespace(#[trigger] s@[j]),
        decreases end - start,
    {
        end = end - 1;
    }
    proof {
        lemma_trim_end_skip(rest, end - start);
        assert(rest.subrange(0, end - start) =~= s@.subrange(start as int, end as int));
    }
    let mut t: Vec<char> = Vec::with_capacity(end - start);
    let mut i: usize = start;
    while i < end
        invariant
            start <= i <= end <= n,
            n == s@.len(),
            t@ == s@.subrange(start as int, i as int),
        decreases end - i,
    {
        t.push(s[i]);
        i = i + 1;
        assert(t@ =~= s@.subrange(start as int, i as int));
    }
    t
}

/// Whether `a` and `b` hold the same characters.
pub fn chars_equal(a: &[char], b: &[char]) -> (eq: bool)
    ensures
        eq == (a@ == b@),
{
    if a.len() != b.len() {
        return false;
    }
    let mut i: usize = 0;
    while i < a.len()
        invariant
            a@.len() == b@.len(),
            i <= a@.len(),
            forall|j: int| 0 <= j < i ==> a@[j] == b@[j],
        decreases a@.len() - i,
    {
        if a[i] != b[i] {
            return false;
        }
        i = i + 1;
    }
    assert(a@ =~= b@);
    true
}

proof fn lemma_scan_prefix(d: Seq<char>, i: int)
    requires
        0 <= i < d.len(),
    ensures
        d.subrange(0, i + 1).drop_last() == d.subrange(0, i),
        d.subrange(0, i + 1).last() == d[i],
{
    assert(d.subrange(0, i + 1).drop_last() =~= d.subrange(0, i));
}

/// An error in a prefix of the digits is the error of all of them.
proof fn lemma_scan_error_extends(d: Seq<char>, i: int)
    requires
        0 <= i <= d.len(),
        scan_digits(d.subrange(0, i)) is Err,
    ensures
        scan_digits(d) == scan_digits(d.subrange(0, i)),
    decreases d.len() - i,
{
    if i < d.len() {
        lemma_scan_prefix(d, i);
        lemma_scan_error_extends(d, i + 1);
    } else {
        assert(d.subrange(0, i) =~= d);
    }
}

/// Ten to the power `k`.
pub open spec fn pow10(k: nat) -> nat
    decreases k,
{
    if k == 0 {
        1
    } else {
        10 * pow10((k - 1) as nat)
    }
}

/// The value of the decimal digits `d`: each digit times ten to the number
/// of digits after it, summed.
pub open spec fn decimal_value(d: Seq<char>) -> nat
    decreases d.len(),
{
    if d.len() == 0 {
        0
    } else {
        digit_value(d[0]) * pow10((d.len() - 1) as nat) + decimal_value(d.drop_first())
    }
}

/// Every character of `d` is a decimal digit.
pub open spec fn all_digits(d: Seq<char>) -> bool {
    forall|i: int| 0 <= i < d.len() ==> #[trigger] is_digit(d[i])
}

/// Taking off the last digit divides the value by ten.
proof fn lemma_decimal_value_last(d: Seq<char>)
    requires
        d.len() > 0,
    ensures
        decimal_value(d) == decimal_value(d.drop_last()) * 10 + digit_value(d.last()),
    decreases d.len(),
{
    if d.len() == 1 {
        assert(decimal_value(d.drop_first()) == 0);
        assert(decimal_value(d.drop_last()) == 0);
        assert(pow10(0) == 1);
        assert(d.last() == d[0]);
        assert(decimal_value(d) == digit_value(d[0]) * pow10(0) + decimal_value(d.drop_first()));
    } else {
        let r = d.drop_first();
        let p = d.drop_last();
        lemma_decimal_value_last(r);
        assert(p.drop_first() =~= r.drop_last());
        assert(p[0] == d[0]);
        assert(r.last() == d.last());
        let k = (d.len() - 2) as nat;
        assert(pow10((d.len() - 1) as nat) == 10 * pow10(k));
        assert(decimal_value(p) == digit_value(d[0]) * pow10(k) + decimal_value(r.drop_last()));
        let a = digit_value(d[0]);
        let q = pow10(k);
        assert(a * (10 * q) == (a * q) * 10) by (nonlinear_arith);
        assert(decimal_value(d) == a * pow10((d.len() - 1) as nat) + decimal_value(r));
    }
}

/// Reading all-digit text left to right gives its decimal value, or an
/// overflow when that value leaves the range of `usize`.
proof fn lemma_scan_decimal(d: Seq<char>)
    requires
        all_digits(d),
    ensures
        decimal_value(d) <= usize::MAX ==> scan_digits(d) == Ok::<nat, IntError>(decimal_value(d)),
        decimal_value(d) > usize::MAX ==> scan_digits(d) == Err::<nat, IntError>(IntError::Overflow),
    decreases d.len(),
{
    if d.len() > 0 {
        let p = d.drop_last();
        assert(all_digits(p)) by {
            assert forall|i: int| 0 <= i < p.len() implies #[trigger] is_digit(p[i]) by {
                assert(p[i] == d[i]);
            }
        }
        lemma_scan_decimal(p);
        lemma_decimal_value_last(d);
        assert(is_digit(d[d.len() - 1]));
    }
}

/// A successful read of digits consumed only digits, and its value is their
/// decimal value.
proof fn lemma_scan_ok(d: Seq<char>)
    requires
        scan_digits(d) is Ok,
    ensures
        all_digits(d),
        scan_digits(d) == Ok::<nat, IntError>(decimal_value(d)),
    decreases d.len(),
{
    if d.len() > 0 {
        let p = d.drop_last();
        lemma_scan_ok(p);
        lemma_decimal_value_last(d);
        assert forall|i: int| 0 <= i < d.len() implies #[trigger] is_digit(d[i]) by {
            if i < d.len() - 1 {
                assert(d[i] == p[i]);
            }
        }
    }
}

/// A nonempty run of decimal digits reads as its decimal value when that
/// fits in a `usize`, and as an overflow when it does not; a leading `+`
/// changes nothing.
pub proof fn lemma_parse_decimal(d: Seq<char>)
    requires
        d.len() > 0,
        all_digits(d),
    ensures
        decimal_value(d) <= usize::MAX ==> parse_usize(d) == Ok::<usize, IntError>(
            decimal_value(d) as usize,
        ),
        decimal_value(d) > usize::MAX ==> parse_usize(d) == Err::<usize, IntError>(
            IntError::Overflow,
        ),
        parse_usize(seq!['+'] + d) == parse_usize(d),
{
    lemma_scan_decimal(d);
    assert(is_digit(d[0]));
    let s = seq!['+'] + d;
    assert(s[0] == '+');
    assert(s.drop_first() =~= d);
}

/// Whatever reads as a number is an optional `+` followed by a nonempty
/// run of decimal digits, and the number is their decimal value.
pub proof fn lemma_parse_ok_is_decimal(s: Seq<char>)
    requires
        parse_usize(s) is Ok,
    ensures
        ({
            let d = if s[0] == '+' {
                s.drop_first()
            } else {
                s
            };
            &&& d.len() > 0
            &&& all_digits(d)
            &&& parse_usize(s) == Ok::<usize, IntError>(decimal_value(d) as usize)
            &&& decimal_value(d) <= usize::MAX
        }),
{
    let d = if s[0] == '+' {
        s.drop_first()
    } else {
        s
    };
    lemma_scan_ok(d);
    if d.len() == 0 {
        assert(s.len() == 1 && s[0] == '+');
    }
    lemma_scan_decimal(d);
}

/// Whitespace around a run of digits is dropped by `trim`.
pub proof fn lemma_trim_around_digits(w1: Seq<char>, d: Seq<char>, w2: Seq<char>)
    requires
        d.len() > 0,
        all_digits(d),
        forall|i: int| 0 <= i < w1.len() ==> is_whitespace(#[trigger] w1[i]),
        forall|i: int| 0 <= i < w2.len() ==> is_whitespace(#[trigger] w2[i]),
    ensures
        trim(w1 + d + w2) == d,
{
    let s = w1 + d + w2;
    assert forall|j: int| 0 <= j < w1.len() implies is_whitespace(#[trigger] s[j]) by {
        assert(s[j] == w1[j]);
    }
    lemma_trim_start_skip(s, w1.len() as int);
    let rest = s.subrange(w1.len() as int, s.len() as int);
    assert(rest =~= d + w2);
    assert(is_digit(d[0]));
    assert(rest[0] == d[0]);
    assert(trim_start(rest) == rest);
    assert forall|j: int| d.len() <= j < rest.len() implies is_whitespace(#[trigger] rest[j]) by {
        assert(rest[j] == w2[j - d.len()]);
    }
    lemma_trim_end_skip(rest, d.len() as int);
    assert(rest.subrange(0, d.len() as int) =~= d);
    assert(is_digit(d[d.len() - 1]));
    assert(d.last() == d[d.len() - 1]);
}

/// A text with a character that is not a digit (after an optional leading
/// `+`) is refused as an invalid digit, as long as the digits before it
/// still fit in a `usize`.
pub proof fn lemma_parse_invalid_digit(s: Seq<char>, k: int)
    requires
        s.len() > 0,
        ({
            let d = if s[0] == '+' {
                s.drop_first()
            } else {
                s
            };
            &&& 0 <= k < d.len()
            &&& !is_digit(d[k])
            &&& all_digits(d.subrange(0, k))
            &&& decimal_value(d.subrange(0, k)) <= usize::MAX
        }),
    ensures
        parse_usize(s) == Err::<usize, IntError>(IntError::InvalidDigit),
{
    let d = if s[0] == '+' {
        s.drop_first()
    } else {
        s
    };
    lemma_scan_decimal(d.subrange(0, k));
    lemma_scan_prefix(d, k);
    lemma_scan_error_extends(d, k + 1);
}

/// Reads `s` as a `usize` in decimal, as `str::parse::<usize>` does.
pub fn parse_usize_chars(s: &[char]) -> (r: Result<usize, IntError>)
    ensures
        r == parse_usize(s@),
{
    let n = s.len();
    if n == 0 {
        return Err(IntError::Empty);
    }
    if (s[0] == '+' || s[0] == '-') && n == 1 {
        return Err(IntError::InvalidDigit);
    }
    let start: usize = if s[0] == '+' {
        1
    } else {
        0
    };
    let ghost d = if s@[0] == '+' {
        s@.drop_first()
    } else {
        s@
    };
    assert(d =~= s@.subrange(start as int, n as int));
    let mut value: usize = 0;
    let mut i: usize = start;
    while i < n
        invariant
            start <= i <= n,
            n == s@.len(),
            d == s@.subrange(start as int, n as int),
            n > 0,
            !((s@[0] == '+' || s@[0] == '-') && n == 1),
            d == (if s@[0] == '+' {
                s@.drop_first()
            } else {
                s@
            }),
            scan_digits(d.subrange(0, i - start)) == Ok::<nat, IntError>(value as nat),
        decreases n - i,
    {
        let c = s[i];
        let ghost k = i - start;
        proof {
            lemma_scan_prefix(d, k);
            assert(d[k] == c);
        }
        if !('0' <= c && c <= '9') {
            proof {
                assert(scan_digits(d.subrange(0, k + 1)) == Err::<nat, IntError>(
                    IntError::InvalidDigit,
                ));
                lemma_scan_error_extends(d, k + 1);
            }
            return Err(IntError::InvalidDigit);
        }
        let digit = (c as u32 - '0' as u32) as usize;
        assert(digit == digit_value(c));
        if value > (usize::MAX - digit) / 10 {
            proof {
                assert(value * 10 + digit > usize::MAX) by (nonlinear_arith)
                    requires
                        value > (usize::MAX - digit) / 10,
                        digit <= 9,
                ;
                assert(scan_digits(d.subrange(0, k + 1)) == Err::<nat, IntError>(
                    IntError::Overflow,
                ));
                lemma_scan_error_extends(d, k + 1);
            }
            return Err(IntError::Overflow);
        }
        proof {
            assert(value * 10 + digit <= usize::MAX) by (nonlinear_arith)
                requires
                    value <= (usize::MAX - digit) / 10,
                    digit <= 9,
            ;
        }
        value = value * 10 + digit;
        i = i + 1;
    }
    assert(d.subrange(0, n - start) =~= d);
    Ok(value)
}

} // verus!
