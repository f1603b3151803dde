//! The text of the kernel's attribute files: a decimal number, with white
//! space around it.

use vstd::arithmetic::power::{lemma_pow0, lemma_pow1, lemma_pow_positive, pow};
use vstd::prelude::*;
use vstd::string::*;

verus! {

/// The characters of the Unicode property `White_Space`.
pub open spec fn is_white_space(c: char) -> bool {
    ||| '\u{9}' <= c <= '\u{d}'
    ||| c == '\u{20}'
    ||| c == '\u{85}'
    ||| c == '\u{a0}'
    ||| c == '\u{1680}'
    ||| '\u{2000}' <= c <= '\u{200a}'
    ||| c == '\u{2028}'
    ||| c == '\u{2029}'
    ||| c == '\u{202f}'
    ||| c == '\u{205f}'
    ||| c == '\u{3000}'
}

/// A text without the white space at its start.
pub open spec fn trim_start(text: Seq<char>) -> Seq<char>
    decreases text.len(),
{
    if text.len() > 0 && is_white_space(text.first()) {
        trim_start(text.drop_first())
    } else {
        text
    }
}

/// A text without the white space at its end.
pub open spec fn trim_end(text: Seq<char>) -> Seq<char>
    decreases text.len(),
{
    if text.len() > 0 && is_white_space(text.last()) {
        trim_end(text.drop_last())
    } else {
        text
    }
}

/// A text without the white space at its start and at its end.
pub open spec fn trim(text: Seq<char>) -> Seq<char> {
    trim_end(trim_start(text))
}

/// Whether every character is a decimal digit.
pub open spec fn all_digits(text: Seq<char>) -> bool {
    forall|i: int| 0 <= i < text.len() ==> '0' <= #[trigger] text[i] <= '9'
}

/// The value of a sequence of decimal digits.
pub open spec fn digits_value(text: Seq<char>) -> nat
    decreases text.len(),
{
    if text.len() == 0 {
        0
    } else {
        10 * digits_value(text.drop_last()) + (text.last() as nat - '0' as nat) as nat
    }
}

/// A text without one plus sign at its start.
pub open spec fn without_plus(text: Seq<char>) -> Seq<char> {
    if text.len() > 0 && text.first() == '+' {
        text.drop_first()
    } else {
        text
    }
}

/// The number that a text stands for: at least one digit, after one plus sign
/// at most, with a value that fits.
pub open spec fn decimal_number(text: Seq<char>) -> Option<u32> {
    let digits = without_plus(text);
    if digits.len() > 0 && all_digits(digits) && digits_value(digits) <= u32::MAX {
        Some(digits_value(digits) as u32)
    } else {
        None
    }
}

/// A digit as a character.
pub open spec fn digit(d: nat) -> char {
    ('0' as nat + d) as char
}

/// The decimal digits of a number, without leading zeros.
pub open spec fn decimal_text(n: nat) -> Seq<char>
    decreases n,
{
    if n < 10 {
        seq![digit(n)]
    } else {
        decimal_text(n / 10).push(digit(n % 10))
    }
}

/// Whether a character is white space.
fn white_space(c: char) -> (r: bool)
    ensures
        r == is_white_space(c),
{
    ('\u{9}' <= c && c <= '\u{d}') || c == '\u{20}' || c == '\u{85}' || c == '\u{a0}' || c
        == '\u{1680}' || ('\u{2000}' <= c && c <= '\u{200a}') || c == '\u{2028}' || c
        == '\u{2029}' || c == '\u{202f}' || c == '\u{205f}' || c == '\u{3000}'
}

/// The characters of a text.
fn characters(text: &str) -> (r: Vec<char>)
    ensures
        r@ == text@,
{
    let mut r: Vec<char> = Vec::new();
    for c in it: text.chars()
        invariant
            r@ == it.seq().take(it.index() as int),
            it.seq() == text@,
    {
        r.push(c);
    }
    r
}

/// A prefix of a sequence of digits has no larger value.
proof fn lemma_prefix_value(text: Seq<char>, n: int)
    requires
        0 <= n <= text.len(),
    ensures
        digits_value(text.take(n)) <= digits_value(text),
    decreases text.len(),
{
    if n < text.len() {
        lemma_prefix_value(text.drop_last(), n);
        assert(text.drop_last().take(n) == text.take(n));
    } else {
        assert(text.take(n) == text);
    }
}

/// The number that a sequence of characters stands for.
fn parse_characters(text: &Vec<char>, start: usize, end: usize) -> (r: Option<u32>)
    requires
        start <= end <= text.len(),
    ensures
        r == decimal_number(text@.subrange(start as int, end as int)),
{
    let ghost all = text@.subrange(start as int, end as int);
    let first: usize = if start < end && text[start] == '+' {
        start + 1
    } else {
        start
    };
    let ghost digits = without_plus(all);
    assert(digits == text@.subrange(first as int, end as int));
    if first == end {
        return None;
    }
    let mut value: u64 = 0;
    let mut i: usize = first;
    assert(digits.take(0).len() == 0);
    while i < end
        invariant
            first <= i <= end <= text.len(),
            digits == text@.subrange(first as int, end as int),
            digits == without_plus(all),
            all == text@.subrange(start as int, end as int),
            all_digits(digits.take(i - first)),
            value == digits_value(digits.take(i - first)),
            value <= u32::MAX,
        decreases end - i,
    {
        let c: char = text[i];
        assert(digits[i - first] == c);
        if c < '0' || '9' < c {
            assert(!all_digits(digits));
            return None;
        }
        proof {
            let next = digits.take(i - first + 1);
            assert(next.drop_last() == digits.take(i - first));
            assert forall|j: int| 0 <= j < next.len() implies '0' <= #[trigger] next[j] <= '9' by {
                if j < i - first {
                    assert(next[j] == digits.take(i - first)[j]);
                }
            }
        }
        value = value * 10 + (c as u32 - '0' as u32) as u64;
        i = i + 1;
        if value > u32::MAX as u64 {
            proof {
                lemma_prefix_value(digits, i - first);
            }
            return None;
        }
    }
    assert(digits.take(i - first) == digits);
    Some(value as u32)
}

/// Parses a number with white space around it.
pub fn parse_number(text: &str) -> (r: Option<u32>)
    ensures
        r == decimal_number(trim(text@)),
{
    let text = characters(text);
    let mut start: usize = 0;
    assert(text@.skip(0) == text@);
    while start < text.len() && white_space(text[start])
        invariant
            start <= text.len(),
            trim_start(text@.skip(start as int)) == trim_start(text@),
        decreases text.len() - start,
    {
        assert(text@.skip(start as int).drop_first() == text@.skip(start + 1));
        start = start + 1;
    }
    let ghost tail = text@.skip(start as int);
    assert(trim_start(text@) == tail);
    let mut end: usize = text.len();
    assert(text@.subrange(start as int, end as int) == tail);
    while end > start && white_space(text[end - 1])
        invariant
            start <= end <= text.len(),
            trim_end(text@.subrange(start as int, end as int)) == trim_end(tail),
        decreases end,
    {
        assert(text@.subrange(start as int, end as int).drop_last() == text@.subrange(
            start as int,
            end - 1,
        ));
        end = end - 1;
    }
    parse_characters(&text, start, end)
}

/// A digit as a text of one character.
fn digit_text(d: u32) -> (r: &'static str)
    requires
        d < 10,
    ensures
        r@ == seq![digit(d as nat)],
{
    proof {
        reveal_strlit("0");
        reveal_strlit("1");
        reveal_strlit("2");
        reveal_strlit("3");
        reveal_strlit("4");
        reveal_strlit("5");
        reveal_strlit("6");
        reveal_strlit("7");
        reveal_strlit("8");
        reveal_strlit("9");
    }
    match d {
        0 => "0",
        1 => "1",
        2 => "2",
        3 => "3",
        4 => "4",
        5 => "5",
        6 => "6",
        7 => "7",
        8 => "8",
        _ => "9",
    }
}

/// Writes a number as its decimal digits.
pub fn format_number(n: u32) -> (r: String)
    ensures
        r@ == decimal_text(n as nat),
    decreases n,
{
    let mut r: String = if n < 10 {
        String::new()
    } else {
        format_number(n / 10)
    };
    r.append(digit_text(n % 10));
    r
}

/// The digits of a number are digits, start with none of the other characters
/// and have the number for their value.
proof fn lemma_decimal_text(n: nat)
    ensures
        decimal_text(n).len() > 0,
        all_digits(decimal_text(n)),
        digits_value(decimal_text(n)) == n,
    decreases n,
{
    let text = decimal_text(n);
    reveal_with_fuel(digits_value, 2);
    if n >= 10 {
        lemma_decimal_text(n / 10);
        assert(text.drop_last() == decimal_text(n / 10));
        assert forall|i: int| 0 <= i < text.len() implies '0' <= #[trigger] text[i] <= '9' by {
            if i < text.len() - 1 {
                assert(text[i] == decimal_text(n / 10)[i]);
            }
        }
    } else {
        assert(text.drop_last().len() == 0);
    }
}

/// White space at the end of a text is trimmed off.
proof fn lemma_trim_end(text: Seq<char>, blank: Seq<char>)
    requires
        text.len() > 0,
        !is_white_space(text.last()),
        forall|i: int| 0 <= i < blank.len() ==> is_white_space(#[trigger] blank[i]),
    ensures
        trim_end(text + blank) == text,
    decreases blank.len(),
{
    if blank.len() == 0 {
        assert(text + blank == text);
    } else {
        assert((text + blank).drop_last() == text + blank.drop_last());
        assert((text + blank).last() == blank[blank.len() - 1]);
        lemma_trim_end(text, blank.drop_last());
    }
}

/// White space at the start of a text is trimmed off.
proof fn lemma_trim_start(blank: Seq<char>, text: Seq<char>)
    requires
        text.len() > 0,
        !is_white_space(text.first()),
        forall|i: int| 0 <= i < blank.len() ==> is_white_space(#[trigger] blank[i]),
    ensures
        trim_start(blank + text) == text,
    decreases blank.len(),
{
    if blank.len() == 0 {
        assert(blank + text == text);
    } else {
        assert((blank + text).drop_first() == blank.drop_first() + text);
        assert((blank + text).first() == blank[0]);
        lemma_trim_start(blank.drop_first(), text);
    }
}

/// A number that was written is read back, whatever white space is around it.
pub proof fn law_written_number_reads_back(before: Seq<char>, n: u32, after: Seq<char>)
    requires
        forall|i: int| 0 <= i < before.len() ==> is_white_space(#[trigger] before[i]),
        forall|i: int| 0 <= i < after.len() ==> is_white_space(#[trigger] after[i]),
    ensures
        decimal_number(trim(before + decimal_text(n as nat) + after)) == Some(n),
{
    let text = decimal_text(n as nat);
    lemma_decimal_text(n as nat);
    assert('0' <= text[0] <= '9');
    assert('0' <= text[text.len() - 1] <= '9');
    assert(before + text + after == before + (text + after));
    assert((text + after).first() == text[0]);
    lemma_trim_start(before, text + after);
    lemma_trim_end(text, after);
}

/// The white space characters, by their code points.
pub proof fn law_white_space_characters(c: char)
    ensures
        is_white_space(c) <==> ({
            let code = c as nat;
            ||| 9 <= code <= 13
            ||| code == 32
            ||| code == 133
            ||| code == 160
            ||| code == 5760
            ||| 8192 <= code <= 8202
            ||| code == 8232
            ||| code == 8233
            ||| code == 8239
            ||| code == 8287
            ||| code == 12288
        }),
{
}

/// The value of a sequence of digits has each of them in its decimal place,
/// and nothing above.
pub proof fn law_digits_stand_in_their_places(text: Seq<char>, i: int)
    requires
        forall|j: int| 0 <= j < text.len() ==> '0' <= #[trigger] text[j] <= '9',
        0 <= i < text.len(),
    ensures
        (digits_value(text) as int / pow(10, (text.len() - 1 - i) as nat)) % 10 == text[i] as int
            - 48,
        digits_value(text) < pow(10, text.len()),
    decreases text.len(),
{
    let front = text.drop_last();
    let low = (text.last() as nat - '0' as nat) as nat;
    let v = digits_value(text) as int;
    assert(text.last() == text[text.len() - 1]);
    assert(0 <= low < 10);
    lemma_pow0(10);
    reveal(pow);
    if text.len() == 1 {
        assert(front.len() == 0);
        assert(digits_value(front) == 0);
    } else {
        assert forall|j: int| 0 <= j < front.len() implies '0' <= #[trigger] front[j] <= '9' by {
            assert(front[j] == text[j]);
        }
        let k = if i < front.len() {
            i
        } else {
            0
        };
        law_digits_stand_in_their_places(front, k);
        assert(pow(10, text.len()) == 10 * pow(10, front.len()));
        if i < front.len() {
            let p = pow(10, (front.len() - 1 - i) as nat);
            lemma_pow_positive(10, (front.len() - 1 - i) as nat);
            assert(pow(10, (text.len() - 1 - i) as nat) == 10 * p);
            vstd::arithmetic::div_mod::lemma_div_denominator(v, 10, p);
            assert(front[i] == text[i]);
        }
    }
}

/// The text of a number holds its decimal places, one digit each, as many as
/// the number has: it starts with a zero only where it is the zero alone.
pub proof fn law_text_holds_decimal_places(n: nat, i: int)
    requires
        0 <= i < decimal_text(n).len(),
    ensures
        ({
            let text = decimal_text(n);
            &&& text[i] as int == 48 + (n as int / pow(10, (text.len() - 1 - i) as nat)) % 10
            &&& n < pow(10, text.len())
            &&& text.len() > 1 ==> n >= pow(10, (text.len() - 1) as nat) && text[0] != '0'
        }),
{
    lemma_decimal_text(n);
    law_digits_stand_in_their_places(decimal_text(n), i);
    lemma_no_leading_zero(n);
}

/// The text of a number is never empty.
pub proof fn law_text_is_not_empty(n: nat)
    ensures
        decimal_text(n).len() > 0,
{
    lemma_decimal_text(n);
}

/// The digits of a number from ten on do not start with a zero.
proof fn lemma_no_leading_zero(n: nat)
    ensures
        n < 10 ==> decimal_text(n).len() == 1,
        decimal_text(n).len() > 0,
        n > 0 ==> decimal_text(n)[0] != '0',
        decimal_text(n).len() > 1 ==> n >= pow(10, (decimal_text(n).len() - 1) as nat),
    decreases n,
{
    lemma_pow0(10);
    lemma_pow1(10);
    reveal(pow);
    if n >= 10 {
        let front = decimal_text(n / 10);
        lemma_no_leading_zero(n / 10);
        assert(decimal_text(n)[0] == front[0]);
        assert(decimal_text(n).len() == front.len() + 1);
        assert(pow(10, front.len()) == 10 * pow(10, (front.len() - 1) as nat));
    }
}

/// A number is read from its digits, however many zeros are in front of them,
/// with a plus sign or without one, and whatever white space is around. One
/// that does not fit is not read.
pub proof fn law_number_is_read(before: Seq<char>, plus: bool, digits: Seq<char>, after: Seq<char>)
    requires
        forall|i: int| 0 <= i < before.len() ==> is_white_space(#[trigger] before[i]),
        forall|i: int| 0 <= i < after.len() ==> is_white_space(#[trigger] after[i]),
        forall|i: int| 0 <= i < digits.len() ==> '0' <= #[trigger] digits[i] <= '9',
        digits.len() > 0,
    ensures
        ({
            let sign = if plus {
                seq!['+']
            } else {
                Seq::<char>::empty()
            };
            let read = decimal_number(trim(before + (sign + digits) + after));
            &&& read is Some <==> digits_value(digits) <= 0xffff_ffff
            &&& read matches Some(n) ==> n == digits_value(digits)
        }),
{
    let sign = if plus {
        seq!['+']
    } else {
        Seq::<char>::empty()
    };
    let text = sign + digits;
    assert(text.last() == digits[digits.len() - 1]);
    assert(text.first() == if plus {
        '+'
    } else {
        digits[0]
    });
    assert(before + text + after == before + (text + after));
    assert((text + after).first() == text.first());
    lemma_trim_start(before, text + after);
    lemma_trim_end(text, after);
    assert(without_plus(text) == digits);
}

/// What trimming leaves is a part of the text, with white space before it and
/// after it and none at its ends.
proof fn lemma_trimmed_part(text: Seq<char>) -> (r: (int, int))
    ensures
        0 <= r.0 <= r.1 <= text.len(),
        trim(text) == text.subrange(r.0, r.1),
        forall|i: int| 0 <= i < r.0 ==> is_white_space(#[trigger] text[i]),
        forall|i: int| r.1 <= i < text.len() ==> is_white_space(#[trigger] text[i]),
{
    let a = lemma_trimmed_start(text);
    let b = lemma_trimmed_end(text.skip(a));
    assert(text.skip(a).take(b) == text.subrange(a, a + b));
    assert forall|i: int| a + b <= i < text.len() implies is_white_space(#[trigger] text[i]) by {
        assert(text.skip(a)[i - a] == text[i]);
    }
    (a, a + b)
}

proof fn lemma_trimmed_start(text: Seq<char>) -> (a: int)
    ensures
        0 <= a <= text.len(),
        trim_start(text) == text.skip(a),
        forall|i: int| 0 <= i < a ==> is_white_space(#[trigger] text[i]),
    decreases text.len(),
{
    if text.len() > 0 && is_white_space(text.first()) {
        let rest = text.drop_first();
        let a = lemma_trimmed_start(rest);
        assert(rest.skip(a) == text.skip(a + 1));
        assert forall|i: int| 0 <= i < a + 1 implies is_white_space(#[trigger] text[i]) by {
            if i > 0 {
                assert(rest[i - 1] == text[i]);
            }
        }
        a + 1
    } else {
        assert(text.skip(0) == text);
        0
    }
}

proof fn lemma_trimmed_end(text: Seq<char>) -> (b: int)
    ensures
        0 <= b <= text.len(),
        trim_end(text) == text.take(b),
        forall|i: int| b <= i < text.len() ==> is_white_space(#[trigger] text[i]),
    decreases text.len(),
{
    if text.len() > 0 && is_white_space(text.last()) {
        let rest = text.drop_last();
        let b = lemma_trimmed_end(rest);
        assert(rest.take(b) == text.take(b));
        assert forall|i: int| b <= i < text.len() implies is_white_space(#[trigger] text[i]) by {
            if i < text.len() - 1 {
                assert(rest[i] == text[i]);
            }
        }
        b
    } else {
        assert(text.take(text.len() as int) == text);
        text.len() as int
    }
}

/// Nothing but a number is read: what is read as one has white space up to
/// some place and from some other place on, and between them digits, with one
/// plus sign at most in front.
pub proof fn law_only_numbers_are_read(text: Seq<char>) -> (r: (int, int))
    requires
        decimal_number(trim(text)) is Some,
    ensures
        0 <= r.0 < r.1 <= text.len(),
        forall|i: int| 0 <= i < r.0 ==> is_white_space(#[trigger] text[i]),
        forall|i: int| r.1 <= i < text.len() ==> is_white_space(#[trigger] text[i]),
        ({
            let first = if text[r.0] == '+' {
                r.0 + 1
            } else {
                r.0
            };
            &&& first < r.1
            &&& forall|i: int| first <= i < r.1 ==> '0' <= #[trigger] text[i] <= '9'
            &&& decimal_number(trim(text)) matches Some(n) && n == digits_value(
                text.subrange(first, r.1),
            )
        }),
{
    let (a, b) = lemma_trimmed_part(text);
    let part = text.subrange(a, b);
    let first = if text[a] == '+' {
        a + 1
    } else {
        a
    };
    let digits = without_plus(part);
    assert(part.len() > 0);
    assert(part.first() == text[a]);
    assert(digits == text.subrange(first, b));
    assert forall|i: int| first <= i < b implies '0' <= #[trigger] text[i] <= '9' by {
        assert(digits[i - first] == text[i]);
    }
    (a, b)
}

}
