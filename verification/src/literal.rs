use crate::text::chars_of;
use vstd::prelude::*;
use vstd::string::StrSliceExecFns;

verus! {

pub open spec fn is_digit(c: char) -> bool {
    '0' <= c <= '9'
}

/// The value of a decimal digit; 0 for any other character.
pub open spec fn digit_value(c: char) -> nat {
    if is_digit(c) {
        (c as nat - '0' as nat) as nat
    } else {
        0
    }
}

pub open spec fn all_digits(s: Seq<char>) -> bool {
    forall|i: int| 0 <= i < s.len() ==> is_digit(#[trigger] s[i])
}

/// The number that a string of decimal digits denotes.
pub open spec fn digits_value(s: Seq<char>) -> nat
    decreases s.len(),
{
    if s.len() == 0 {
        0
    } else {
        10 * digits_value(s.drop_last()) + digit_value(s.last())
    }
}

pub open spec fn is_sign(c: char) -> bool {
    c == '+' || c == '-'
}

/// `s` without its leading sign, if it has one.
pub open spec fn strip_sign(s: Seq<char>) -> Seq<char> {
    if s.len() > 0 && is_sign(s[0]) {
        s.drop_first()
    } else {
        s
    }
}

/// The signed 64-bit integer that `s` denotes in decimal: an optional sign
/// and at least one digit, with a value in range. Otherwise nothing.
pub open spec fn spec_parse_integer(s: Seq<char>) -> Option<i64> {
    let body = strip_sign(s);
    let magnitude = digits_value(body) as int;
    let value = if s.len() > 0 && s[0] == '-' {
        -magnitude
    } else {
        magnitude
    };
    if body.len() > 0 && all_digits(body) && i64::MIN <= value <= i64::MAX {
        Some(value as i64)
    } else {
        None
    }
}

/// A prefix of a digit string denotes no more than the whole string.
pub proof fn lemma_digits_value_prefix(s: Seq<char>, k: int)
    requires
        0 <= k <= s.len(),
    ensures
        digits_value(s.take(k)) <= digits_value(s),
    decreases s.len(),
{
    if k == s.len() {
        assert(s.take(k) =~= s);
    } else {
        lemma_digits_value_prefix(s.drop_last(), k);
        assert(s.drop_last().take(k) =~= s.take(k));
    }
}

/// Reads a signed 64-bit integer in decimal. Overflow and any character that
/// is not a digit, but for one leading sign, give nothing.
pub fn parse_integer(text: &str) -> (r: Option<i64>)
    ensures
        r == spec_parse_integer(text@),
{
    let chars = chars_of(text);
    let n = chars.len();
    if n == 0 {
        return None;
    }
    let negative = chars[0] == '-';
    let signed = negative || chars[0] == '+';
    let start: usize = if signed {
        1
    } else {
        0
    };
    let ghost body = strip_sign(text@);
    assert(body =~= chars@.subrange(start as int, n as int));
    if start == n {
        return None;
    }
    let limit: u64 = if negative {
        9223372036854775808u64
    } else {
        9223372036854775807u64
    };
    let mut acc: u64 = 0;
    let mut i: usize = start;
    assert(body.take(0) =~= Seq::<char>::empty());
    while i < n
        invariant
            start <= i <= n,
            n == chars.len(),
            body == chars@.subrange(start as int, n as int),
            body == strip_sign(text@),
            negative == (text@.len() > 0 && text@[0] == '-'),
            limit == if negative { 9223372036854775808u64 } else { 9223372036854775807u64 },
            all_digits(body.take(i - start)),
            acc == digits_value(body.take(i - start)),
            acc <= limit,
        decreases n - i,
    {
        let c = chars[i];
        assert(body[i - start] == c);
        if !(c >= '0' && c <= '9') {
            assert(!is_digit(body[i - start]));
            return None;
        }
        let d: u64 = (c as u32 - '0' as u32) as u64;
        assert(d <= 9);
        assert(d == digit_value(c));
        proof {
            assert(body.take(i + 1 - start).drop_last() =~= body.take(i - start));
            assert(body.take(i + 1 - start).last() == c);
            assert(digits_value(body.take(i + 1 - start)) == 10 * acc + d);
        }
        if acc > (limit - d) / 10 {
            proof {
                lemma_digits_value_prefix(body, i + 1 - start);
            }
            return None;
        }
        acc = acc * 10 + d;
        i += 1;
    }
    assert(body.take(n - start) =~= body);
    if negative {
        if acc == 9223372036854775808u64 {
            Some(i64::MIN)
        } else {
            Some(-(acc as i64))
        }
    } else {
        Some(acc as i64)
    }
}

/// `s` without its first and its last character; nothing when `s` is shorter
/// than two characters.
pub open spec fn spec_unquote(s: Seq<char>) -> Option<Seq<char>> {
    if s.len() >= 2 {
        Some(s.subrange(1, s.len() - 1))
    } else {
        None
    }
}

/// Removes the two quote characters that surround a literal. The content is
/// taken as it stands: no escape is processed.
pub fn unquote(text: &str) -> (r: Option<&str>)
    ensures
        r is Some <==> spec_unquote(text@) is Some,
        r matches Some(inner) ==> Some(inner@) == spec_unquote(text@),
{
    let n = text.unicode_len();
    if n >= 2 {
        Some(text.substring_char(1, n - 1))
    } else {
        None
    }
}

/// The character of a character literal: the one between the two quotes.
/// Nothing when the quotes hold no character or more than one.
pub open spec fn spec_parse_char(s: Seq<char>) -> Option<char> {
    if s.len() == 3 {
        Some(s[1])
    } else {
        None
    }
}

/// Reads a character literal.
pub fn parse_char(text: &str) -> (r: Option<char>)
    ensures
        r == spec_parse_char(text@),
{
    let n = text.unicode_len();
    if n == 3 {
        Some(text.get_char(1))
    } else {
        None
    }
}

/// A decimal number: digits with at most one point among them, and at least
/// one digit.
pub open spec fn is_decimal(s: Seq<char>) -> bool {
    &&& forall|i: int| 0 <= i < s.len() ==> is_digit(#[trigger] s[i]) || s[i] == '.'
    &&& exists|i: int| 0 <= i < s.len() && is_digit(#[trigger] s[i])
    &&& forall|i: int, j: int|
        0 <= i < j < s.len() ==> !((#[trigger] s[i]) == '.' && (#[trigger] s[j]) == '.')
}

pub open spec fn is_exponent_mark(c: char) -> bool {
    c == 'e' || c == 'E'
}

/// What may follow the exponent mark: an optional sign and at least one digit.
pub open spec fn is_exponent(s: Seq<char>) -> bool {
    strip_sign(s).len() > 0 && all_digits(strip_sign(s))
}

/// The text of a floating-point literal: an optional sign, a decimal number
/// and, if an exponent mark is there, an exponent behind it.
pub open spec fn is_float_text(s: Seq<char>) -> bool {
    let body = strip_sign(s);
    ||| is_decimal(body)
    ||| exists|k: int|
        0 <= k < body.len() && is_exponent_mark(#[trigger] body[k]) && is_decimal(body.take(k))
            && is_exponent(body.skip(k + 1))
}

/// Whether the characters of `v` from `from` up to `to` are digits, and at least one.
fn check_digits(v: &Vec<char>, from: usize, to: usize) -> (r: bool)
    requires
        from <= to <= v.len(),
    ensures
        r == (from < to && all_digits(v@.subrange(from as int, to as int))),
{
    if from == to {
        return false;
    }
    let ghost part = v@.subrange(from as int, to as int);
    let mut i: usize = from;
    while i < to
        invariant
            from <= i <= to <= v.len(),
            part == v@.subrange(from as int, to as int),
            forall|k: int| 0 <= k < i - from ==> is_digit(#[trigger] part[k]),
        decreases to - i,
    {
        let c = v[i];
        if !(c >= '0' && c <= '9') {
            assert(!is_digit(part[i - from]));
            return false;
        }
        i += 1;
    }
    true
}

/// Whether the characters of `v` from `from` up to `to` form a decimal number.
fn check_decimal(v: &Vec<char>, from: usize, to: usize) -> (r: bool)
    requires
        from <= to <= v.len(),
    ensures
        r == is_decimal(v@.subrange(from as int, to as int)),
{
    let ghost part = v@.subrange(from as int, to as int);
    let mut seen_digit = false;
    let mut seen_point = false;
    let ghost mut digit_at: int = 0;
    let ghost mut point_at: int = 0;
    let mut i: usize = from;
    while i < to
        invariant
            from <= i <= to <= v.len(),
            part == v@.subrange(from as int, to as int),
            forall|k: int| 0 <= k < i - from ==> is_digit(#[trigger] part[k]) || part[k] == '.',
            seen_digit ==> 0 <= digit_at < i - from && is_digit(part[digit_at]),
            !seen_digit ==> forall|k: int| 0 <= k < i - from ==> !is_digit(#[trigger] part[k]),
            seen_point ==> 0 <= point_at < i - from && part[point_at] == '.',
            !seen_point ==> forall|k: int| 0 <= k < i - from ==> (#[trigger] part[k]) != '.',
            forall|a: int, b: int|
                0 <= a < b < i - from ==> !((#[trigger] part[a]) == '.' && (#[trigger] part[b])
                    == '.'),
        decreases to - i,
    {
        let c = v[i];
        assert(part[i - from] == c);
        if c >= '0' && c <= '9' {
            seen_digit = true;
            proof {
                digit_at = i - from;
            }
        } else if c == '.' {
            if seen_point {
                assert(part[point_at] == '.' && part[i - from] == '.');
                return false;
            }
            seen_point = true;
            proof {
                point_at = i - from;
            }
        } else {
            return false;
        }
        i += 1;
    }
    seen_digit
}

/// Checks that `text` has the form of a floating-point literal.
pub fn check_float_text(text: &str) -> (r: bool)
    ensures
        r == is_float_text(text@),
{
    let chars = chars_of(text);
    let n = chars.len();
    let start: usize = if n > 0 && (chars[0] == '+' || chars[0] == '-') {
        1
    } else {
        0
    };
    let ghost body = strip_sign(text@);
    assert(body =~= chars@.subrange(start as int, n as int));
    let mut k: usize = start;
    while k < n && !(chars[k] == 'e' || chars[k] == 'E')
        invariant
            start <= k <= n,
            n == chars.len(),
            body == chars@.subrange(start as int, n as int),
            forall|j: int| 0 <= j < k - start ==> !is_exponent_mark(#[trigger] body[j]),
        decreases n - k,
    {
        k += 1;
    }
    if k == n {
        proof {
            assert forall|j: int| 0 <= j < body.len() implies !is_exponent_mark(
                #[trigger] body[j],
            ) by {}
        }
        check_decimal(&chars, start, n)
    } else {
        let ghost mark = k - start;
        assert(is_exponent_mark(body[mark]));
        assert(body.take(mark) =~= chars@.subrange(start as int, k as int));
        assert(body.skip(mark + 1) =~= chars@.subrange(k + 1, n as int));
        let decimal = check_decimal(&chars, start, k);
        let sign: usize = if k + 1 < n && (chars[k + 1] == '+' || chars[k + 1] == '-') {
            k + 2
        } else {
            k + 1
        };
        assert(strip_sign(body.skip(mark + 1)) =~= chars@.subrange(sign as int, n as int));
        let exponent = check_digits(&chars, sign, n);
        proof {
            // The mark of a well-formed literal is the first one in it.
            assert(!is_decimal(body)) by {
                assert(!(is_digit(body[mark]) || body[mark] == '.'));
            }
            assert forall|j: int|
                0 <= j < body.len() && is_exponent_mark(#[trigger] body[j]) && is_decimal(
                    body.take(j),
                ) && is_exponent(body.skip(j + 1)) implies j == mark by {
                if j > mark {
                    assert(body.take(j)[mark] == body[mark]);
                    assert(!(is_digit(body.take(j)[mark]) || body.take(j)[mark] == '.'));
                }
            }
        }
        decimal && exponent
    }
}

} // verus!
