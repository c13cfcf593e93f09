//! Reading text: trimming, splitting at commas, and numbers.

use vstd::prelude::*;
use vstd::string::*;

verus! {

/// Whether a character is white space, as Unicode's property `White_Space` has it.
pub open spec fn white_space(c: char) -> bool {
    ||| '\u{9}' <= c <= '\u{d}'
    ||| c == ' '
    ||| c == '\u{85}'
    ||| c == '\u{a0}'
    ||| c == '\u{1680}'
    ||| '\u{2000}' <= c <= '\u{200a}'
    ||| c == '\u{2028}'
    ||| c == '\u{2029}'
    ||| c == '\u{202f}'
    ||| c == '\u{205f}'
    ||| c == '\u{3000}'
}

/// Whether a character is white space.
pub fn is_white_space(c: char) -> (yes: bool)
    ensures
        yes == white_space(c),
{
    ('\u{9}' <= c && c <= '\u{d}') || c == ' ' || c == '\u{85}' || c == '\u{a0}' || c == '\u{1680}'
        || ('\u{2000}' <= c && c <= '\u{200a}') || c == '\u{2028}' || c == '\u{2029}'
        || c == '\u{202f}' || c == '\u{205f}' || c == '\u{3000}'
}

/// A text without the white space in front of it.
pub open spec fn trim_start(text: Seq<char>) -> Seq<char>
    decreases text.len(),
{
    if text.len() > 0 && white_space(text[0]) {
        trim_start(text.drop_first())
    } else {
        text
    }
}

/// A text without the white space behind it.
pub open spec fn trim_end(text: Seq<char>) -> Seq<char>
    decreases text.len(),
{
    if text.len() > 0 && white_space(text.last()) {
        trim_end(text.drop_last())
    } else {
        text
    }
}

/// A text without the white space around it.
pub open spec fn trimmed(text: Seq<char>) -> Seq<char> {
    trim_end(trim_start(text))
}

/// A text without the white space around it.
pub fn trim(text: &str) -> (inner: &str)
    ensures
        inner@ == trimmed(text@),
{
    let len: usize = text.unicode_len();
    let ghost s = text@;
    let mut start: usize = 0;
    proof {
        assert(s.subrange(0, len as int) =~= s);
    }
    while start < len && is_white_space(text.get_char(start))
        invariant
            start <= len,
            len == s.len(),
            s == text@,
            trim_start(s) == trim_start(s.subrange(start as int, len as int)),
        decreases len - start,
    {
        proof {
            assert(s.subrange(start as int, len as int).drop_first() =~= s.subrange(
                start + 1,
                len as int,
            ));
        }
        start = start + 1;
    }
    let ghost rest = s.subrange(start as int, len as int);
    let mut end: usize = len;
    while end > start && is_white_space(text.get_char(end - 1))
        invariant
            start <= end <= len,
            len == s.len(),
            s == text@,
            trim_end(rest) == trim_end(s.subrange(start as int, end as int)),
        decreases end,
    {
        proof {
            assert(s.subrange(start as int, end as int).drop_last() =~= s.subrange(
                start as int,
                end - 1,
            ));
        }
        end = end - 1;
    }
    text.substring_char(start, end)
}

/// The parts of a text between its commas.
pub open spec fn fields(text: Seq<char>) -> Seq<Seq<char>>
    decreases text.len(),
{
    if text.len() == 0 {
        seq![Seq::empty()]
    } else {
        let front = fields(text.drop_last());
        if text.last() == ',' {
            front.push(Seq::empty())
        } else {
            front.drop_last().push(front.last().push(text.last()))
        }
    }
}

/// The parts that hold more than white space, without the white space around them.
pub open spec fn filled(parts: Seq<Seq<char>>) -> Seq<Seq<char>>
    decreases parts.len(),
{
    if parts.len() == 0 {
        Seq::empty()
    } else {
        let front = filled(parts.drop_last());
        let part = trimmed(parts.last());
        if part.len() == 0 {
            front
        } else {
            front.push(part)
        }
    }
}

/// The texts of a list.
pub open spec fn texts(list: Seq<String>) -> Seq<Seq<char>> {
    list.map_values(|t: String| t@)
}

fn push_filled(list: &mut Vec<String>, part: &str, Ghost(parts): Ghost<Seq<Seq<char>>>)
    requires
        texts(old(list)@) == filled(parts),
    ensures
        texts(final(list)@) == filled(parts.push(part@)),
{
    let inner = trim(part);
    proof {
        assert(parts.push(part@).drop_last() =~= parts);
    }
    if inner.unicode_len() > 0 {
        list.push(String::from_str(inner));
    }
    proof {
        assert(texts(list@) =~= filled(parts.push(part@)));
    }
}

/// The parts of a text between its commas that hold more than white space, without the
/// white space around them.
pub fn comma_list(text: &str) -> (list: Vec<String>)
    ensures
        texts(list@) == filled(fields(text@)),
{
    let len: usize = text.unicode_len();
    let mut list: Vec<String> = Vec::new();
    let mut start: usize = 0;
    let mut i: usize = 0;
    let ghost mut done: Seq<Seq<char>> = Seq::empty();
    let ghost s = text@;
    proof {
        assert(s.take(0) =~= Seq::<char>::empty());
        assert(s.subrange(0, 0) =~= Seq::<char>::empty());
        assert(fields(s.take(0)) =~= done.push(s.subrange(0, 0)));
        assert(texts(list@) =~= filled(done));
    }
    while i < len
        invariant
            start <= i <= len,
            len == s.len(),
            s == text@,
            fields(s.take(i as int)) == done.push(s.subrange(start as int, i as int)),
            texts(list@) == filled(done),
        decreases len - i,
    {
        let c: char = text.get_char(i);
        let ghost part = s.subrange(start as int, i as int);
        proof {
            assert(s.take(i + 1).drop_last() =~= s.take(i as int));
            assert(s.take(i + 1).last() == c);
            assert(done.push(part).last() == part);
            assert(done.push(part).drop_last() =~= done);
        }
        if c == ',' {
            push_filled(&mut list, text.substring_char(start, i), Ghost(done));
            start = i + 1;
            proof {
                done = done.push(part);
                assert(s.subrange(start as int, i + 1) =~= Seq::<char>::empty());
            }
        } else {
            proof {
                assert(s.subrange(start as int, i + 1) =~= part.push(c));
            }
        }
        i = i + 1;
    }
    push_filled(&mut list, text.substring_char(start, len), Ghost(done));
    proof {
        assert(s.take(len as int) =~= s);
    }
    list
}

/// Whether a character is a decimal digit.
pub open spec fn is_digit(c: char) -> bool {
    '0' <= c <= '9'
}

/// Whether a text holds digits only.
pub open spec fn all_digits(text: Seq<char>) -> bool {
    forall|i: int| 0 <= i < text.len() ==> is_digit(#[trigger] text[i])
}

/// The number that digits stand for.
pub open spec fn digits_value(text: Seq<char>) -> nat
    decreases text.len(),
{
    if text.len() == 0 {
        0
    } else {
        digits_value(text.drop_last()) * 10 + (text.last() as int - '0' as int) as nat
    }
}

/// A text without a plus sign in front of it.
pub open spec fn unsigned_part(text: Seq<char>) -> Seq<char> {
    if text.len() > 0 && text[0] == '+' {
        text.drop_first()
    } else {
        text
    }
}

/// The number that a text stands for: digits, perhaps behind a plus sign, up to a largest
/// number.
pub open spec fn number(text: Seq<char>, max: nat) -> Option<nat> {
    let digits = unsigned_part(text);
    if digits.len() > 0 && all_digits(digits) && digits_value(digits) <= max {
        Some(digits_value(digits))
    } else {
        None
    }
}

proof fn lemma_value_grows(text: Seq<char>, n: int)
    requires
        0 <= n <= text.len(),
        all_digits(text),
    ensures
        digits_value(text.take(n)) <= digits_value(text),
    decreases text.len() - n,
{
    if n < text.len() {
        assert(text.take(n + 1).drop_last() =~= text.take(n));
        assert(is_digit(text[n]));
        lemma_value_grows(text, n + 1);
    } else {
        assert(text.take(n) =~= text);
    }
}

/// Reads a number up to a largest one.
pub fn parse_number(text: &str, max: u64) -> (n: Option<u64>)
    ensures
        match n {
            Some(v) => number(text@, max as nat) == Some(v as nat),
            None => number(text@, max as nat) is None,
        },
{
    let len: usize = text.unicode_len();
    let first: usize = if len > 0 && text.get_char(0) == '+' {
        1
    } else {
        0
    };
    let ghost digits = unsigned_part(text@);
    proof {
        assert(digits =~= text@.subrange(first as int, len as int));
    }
    if first == len {
        return None;
    }
    let mut value: u64 = 0;
    let mut i: usize = first;
    proof {
        assert(digits.take(0) =~= Seq::<char>::empty());
    }
    while i < len
        invariant
            first <= i <= len,
            len == text@.len(),
            digits == text@.subrange(first as int, len as int),
            digits == unsigned_part(text@),
            value <= max,
            value == digits_value(digits.take(i - first)),
            forall|j: int| 0 <= j < i - first ==> is_digit(#[trigger] digits[j]),
        decreases len - i,
    {
        let c: char = text.get_char(i);
        let ghost at = i - first;
        proof {
            assert(digits[at] == c);
            assert(digits.take(at + 1).drop_last() =~= digits.take(at));
            assert(digits.take(at + 1).last() == c);
        }
        if c < '0' || c > '9' {
            assert(!is_digit(digits[at]));
            return None;
        }
        let digit: u64 = (c as u32 - '0' as u32) as u64;
        let next: u128 = value as u128 * 10 + digit as u128;
        if next > max as u128 {
            proof {
                if all_digits(digits) {
                    lemma_value_grows(digits, at + 1);
                }
            }
            return None;
        }
        value = next as u64;
        i = i + 1;
    }
    proof {
        assert(digits.take(i - first) =~= digits);
    }
    Some(value)
}

}
