//! Small operations on text: comparing, reading and writing decimal
//! numbers, and replacing every occurrence of a pattern.

use vstd::prelude::*;
use vstd::string::*;

verus! {

/// Whether two texts are the same.
pub fn same(a: &str, b: &str) -> (r: bool)
    ensures
        r == (a@ == b@),
{
    let left = a.to_owned();
    let right = b.to_owned();
    left == right
}

/// A text with a dash in front.
pub open spec fn dashed(text: Seq<char>) -> bool {
    text.len() > 0 && text[0] == '-'
}

/// Whether a text begins with a dash.
pub fn starts_with_dash(text: &str) -> (r: bool)
    ensures
        r == dashed(text@),
{
    !text.is_empty() && text.get_char(0) == '-'
}

/// The characters of a text.
pub fn chars_of(text: &str) -> (chars: Vec<char>)
    ensures
        chars@ == text@,
{
    let mut chars: Vec<char> = Vec::new();
    for c in it: text.chars()
        invariant
            it.seq() == text@,
            chars@ == text@.take(it.index() as int),
    {
        chars.push(c);
    }
    chars
}

/// The value of a decimal digit.
pub open spec fn digit(c: char) -> Option<nat> {
    if '0' <= c <= '9' {
        Some((c as nat - '0' as nat) as nat)
    } else {
        None
    }
}

/// The value of a run of decimal digits, if that is what the text is.
pub open spec fn digits(text: Seq<char>) -> Option<nat>
    decreases text.len(),
{
    if text.len() == 0 {
        Some(0)
    } else {
        match (digits(text.drop_last()), digit(text.last())) {
            (Some(front), Some(unit)) => Some(10 * front + unit),
            _ => None,
        }
    }
}

/// The number that a text denotes: decimal digits, at least one, after an
/// optional plus sign, with a value that a machine integer holds.
pub open spec fn number(text: Seq<char>) -> Option<nat> {
    let body = if text.len() > 0 && text[0] == '+' {
        text.skip(1)
    } else {
        text
    };
    if body.len() == 0 {
        None
    } else {
        match digits(body) {
            Some(value) if value <= usize::MAX => Some(value),
            _ => None,
        }
    }
}

/// A run of digits is worth at least as much as any of its beginnings, and
/// a text with a beginning that is no run of digits is none either.
proof fn lemma_digits_grow(text: Seq<char>, n: int)
    requires
        0 <= n <= text.len(),
        digits(text) is Some,
    ensures
        digits(text.take(n)) is Some,
        digits(text.take(n))->0 <= digits(text)->0,
    decreases text.len(),
{
    if n == text.len() {
        assert(text.take(n) =~= text);
    } else {
        assert(text.drop_last().take(n) =~= text.take(n));
        lemma_digits_grow(text.drop_last(), n);
    }
}

fn digit_of(c: char) -> (d: Option<usize>)
    ensures
        d matches Some(v) ==> digit(c) == Some(v as nat),
        d is None ==> digit(c) is None,
{
    if c >= '0' && c <= '9' {
        Some((c as u32 - '0' as u32) as usize)
    } else {
        None
    }
}

/// Reads a decimal number.
pub fn parse_number(text: &str) -> (r: Option<usize>)
    ensures
        r matches Some(v) ==> number(text@) == Some(v as nat),
        r is None ==> number(text@) is None,
{
    let chars = chars_of(text);
    let start: usize = if chars.len() > 0 && chars[0] == '+' {
        1
    } else {
        0
    };
    if start >= chars.len() {
        return None;
    }
    let ghost body = chars@.skip(start as int);
    assert(chars@.skip(0) =~= chars@);
    let mut value: usize = 0;
    let mut i: usize = start;
    assert(body.take(0) =~= seq![]);
    while i < chars.len()
        invariant
            start <= i <= chars.len(),
            chars@ == text@,
            start == (if text@.len() > 0 && text@[0] == '+' {
                1int
            } else {
                0int
            }),
            body == chars@.skip(start as int),
            body.len() > 0,
            digits(body.take(i - start)) == Some(value as nat),
        decreases chars.len() - i,
    {
        let ghost upto = body.take(i + 1 - start);
        assert(text@.skip(0) =~= text@);
        assert(upto.drop_last() =~= body.take(i - start));
        assert(upto.last() == chars@[i as int]);
        proof {
            if digits(body) is Some {
                lemma_digits_grow(body, i + 1 - start);
            }
        }
        let unit = match digit_of(chars[i]) {
            Some(unit) => unit,
            None => {
                assert(digits(upto) is None);
                return None;
            },
        };
        assert(digits(upto) == Some((10 * value + unit) as nat));
        let tens = match value.checked_mul(10) {
            Some(tens) => tens,
            None => {
                return None;
            },
        };
        value = match tens.checked_add(unit) {
            Some(sum) => sum,
            None => {
                return None;
            },
        };
        i += 1;
    }
    assert(body.take(i - start) =~= body);
    assert(text@.skip(0) =~= text@);
    Some(value)
}

/// The text with every occurrence of a pattern replaced, occurrences taken
/// from the left and never overlapping. An empty pattern occurs nowhere.
pub open spec fn replaced(text: Seq<char>, from: Seq<char>, to: Seq<char>) -> Seq<char>
    decreases text.len(),
{
    if from.len() == 0 || text.len() < from.len() {
        text
    } else if text.take(from.len() as int) == from {
        to + replaced(text.skip(from.len() as int), from, to)
    } else {
        seq![text[0]] + replaced(text.skip(1), from, to)
    }
}

/// Whether the pattern stands in the text at the given position.
fn occurs_at(text: &Vec<char>, at: usize, pattern: &Vec<char>) -> (r: bool)
    requires
        at + pattern@.len() <= text@.len(),
    ensures
        r == (text@.subrange(at as int, at + pattern@.len()) == pattern@),
{
    let len = text.len();
    let mut k: usize = 0;
    while k < pattern.len()
        invariant
            k <= pattern@.len(),
            at + pattern@.len() <= text@.len() == len,
            text@.subrange(at as int, at + k) == pattern@.take(k as int),
        decreases pattern@.len() - k,
    {
        if text[at + k] != pattern[k] {
            assert(text@.subrange(at as int, at + pattern@.len())[k as int] != pattern@[k as int]);
            return false;
        }
        assert(text@.subrange(at as int, at + k + 1) =~= text@.subrange(at as int, at + k).push(
            text@[at + k],
        ));
        assert(pattern@.take(k + 1) =~= pattern@.take(k as int).push(pattern@[k as int]));
        k += 1;
    }
    assert(pattern@.take(k as int) =~= pattern@);
    true
}

/// Replaces every occurrence of a pattern in a text.
pub fn replace(text: &str, from: &str, to: &str) -> (out: String)
    requires
        from@.len() > 0,
    ensures
        out@ == replaced(text@, from@, to@),
{
    let chars = chars_of(text);
    let pattern = chars_of(from);
    let mut out = String::new();
    let mut kept: usize = 0;
    let mut i: usize = 0;
    assert(out@ + chars@.subrange(0, 0) + replaced(chars@.skip(0), from@, to@) =~= replaced(
        chars@,
        from@,
        to@,
    )) by {
        assert(chars@.skip(0) =~= chars@);
    }
    while chars.len() - i >= pattern.len()
        invariant
            kept <= i <= chars@.len(),
            chars@ == text@,
            pattern@ == from@,
            from@.len() > 0,
            out@ + chars@.subrange(kept as int, i as int) + replaced(chars@.skip(i as int), from@, to@)
                == replaced(chars@, from@, to@),
        decreases chars@.len() - i,
    {
        let ghost tail = chars@.skip(i as int);
        assert(tail.take(from@.len() as int) =~= chars@.subrange(i as int, i + from@.len()));
        if occurs_at(&chars, i, &pattern) {
            let piece = text.substring_char(kept, i);
            out.append(piece);
            out.append(to);
            assert(tail.skip(from@.len() as int) =~= chars@.skip(i + from@.len()));
            i += pattern.len();
            kept = i;
            assert(chars@.subrange(kept as int, i as int) =~= seq![]);
            assert(out@ + chars@.subrange(kept as int, i as int) + replaced(
                chars@.skip(i as int),
                from@,
                to@,
            ) =~= replaced(chars@, from@, to@));
        } else {
            assert(tail.skip(1) =~= chars@.skip(i + 1));
            assert(chars@.subrange(kept as int, i + 1) =~= chars@.subrange(
                kept as int,
                i as int,
            ).push(chars@[i as int]));
            i += 1;
            assert(out@ + chars@.subrange(kept as int, i as int) + replaced(
                chars@.skip(i as int),
                from@,
                to@,
            ) =~= replaced(chars@, from@, to@));
        }
    }
    let piece = text.substring_char(kept, chars.len());
    out.append(piece);
    assert(chars@.subrange(kept as int, i as int) + chars@.skip(i as int) =~= chars@.subrange(
        kept as int,
        chars@.len() as int,
    ));
    out
}


/// The character of a decimal digit.
pub open spec fn digit_char(unit: nat) -> char {
    if unit == 0 {
        '0'
    } else if unit == 1 {
        '1'
    } else if unit == 2 {
        '2'
    } else if unit == 3 {
        '3'
    } else if unit == 4 {
        '4'
    } else if unit == 5 {
        '5'
    } else if unit == 6 {
        '6'
    } else if unit == 7 {
        '7'
    } else if unit == 8 {
        '8'
    } else {
        '9'
    }
}

/// A number written in decimal digits, without leading zeros.
pub open spec fn decimal(n: nat) -> Seq<char>
    decreases n,
{
    if n < 10 {
        seq![digit_char(n)]
    } else {
        decimal(n / 10).push(digit_char(n % 10))
    }
}

fn digit_text(unit: usize) -> (text: &'static str)
    requires
        unit < 10,
    ensures
        text@ == seq![digit_char(unit as nat)],
{
    proof {
        reveal_strlit("0");
        reveal_strlit("1");
        reveal_strlit("2");
        reveal_strlit("3");
        reveal_strlit("4");
        reveal_strlit("5");
        reveal_strlit("6");
        reveal_strlit("7");
        reveal_strlit("8");
        reveal_strlit("9");
    }
    let text = if unit == 0 {
        "0"
    } else if unit == 1 {
        "1"
    } else if unit == 2 {
        "2"
    } else if unit == 3 {
        "3"
    } else if unit == 4 {
        "4"
    } else if unit == 5 {
        "5"
    } else if unit == 6 {
        "6"
    } else if unit == 7 {
        "7"
    } else if unit == 8 {
        "8"
    } else {
        "9"
    };
    assert(text@ =~= seq![digit_char(unit as nat)]);
    text
}

/// Writes a number in decimal digits.
pub fn decimal_text(n: usize) -> (text: String)
    ensures
        text@ == decimal(n as nat),
    decreases n,
{
    if n < 10 {
        String::from_str(digit_text(n))
    } else {
        let mut text = decimal_text(n / 10);
        text.append(digit_text(n % 10));
        assert(text@ =~= decimal(n as nat));
        text
    }
}

/// The digits of a number are digits, and they are worth the number.
pub proof fn lemma_decimal_digits(n: nat)
    ensures
        decimal(n).len() >= 1,
        digits(decimal(n)) == Some(n),
        decimal(n)[0] != '+',
    decreases n,
{
    if n < 10 {
        assert(decimal(n).drop_last() =~= seq![]);
        assert(digits(decimal(n).drop_last()) == Some(0nat));
    } else {
        lemma_decimal_digits(n / 10);
        assert(decimal(n).drop_last() =~= decimal(n / 10));
    }
}

/// Reading what was written gives the number back.
pub proof fn lemma_number_of_decimal(n: nat)
    requires
        n <= usize::MAX,
    ensures
        number(decimal(n)) == Some(n),
{
    lemma_decimal_digits(n);
}

} // verus!
