//! Text: decimal numbers and concatenation.

use vstd::prelude::*;
use vstd::string::*;

verus! {

/// The digit of a number below ten.
pub open spec fn decimal_digit(n: nat) -> char {
    ('0' as int + n) as char
}

/// A number in decimal, without leading zeros.
pub open spec fn decimal(n: nat) -> Seq<char>
    decreases n,
{
    if n < 10 {
        seq![decimal_digit(n)]
    } else {
        decimal(n / 10).push(decimal_digit(n % 10))
    }
}

fn digit_text(d: u64) -> (text: &'static str)
    requires
        d < 10,
    ensures
        text@ == seq![decimal_digit(d as nat)],
{
    proof {
        reveal_strlit("0");
        reveal_strlit("1");
        reveal_strlit("2");
        reveal_strlit("3");
        reveal_strlit("4");
        reveal_strlit("5");
        reveal_strlit("6");
        reveal_strlit("7");
        reveal_strlit("8");
        reveal_strlit("9");
    }
    let text = match d {
        0 => "0",
        1 => "1",
        2 => "2",
        3 => "3",
        4 => "4",
        5 => "5",
        6 => "6",
        7 => "7",
        8 => "8",
        _ => "9",
    };
    assert(text@ =~= seq![decimal_digit(d as nat)]);
    text
}

/// Appends a number in decimal.
pub fn push_decimal(text: &mut String, n: u64)
    ensures
        final(text)@ == old(text)@ + decimal(n as nat),
    decreases n,
{
    if n >= 10 {
        push_decimal(text, n / 10);
        text.append(digit_text(n % 10));
    } else {
        text.append(digit_text(n));
    }
    assert(text@ =~= old(text)@ + decimal(n as nat));
}

/// Two texts, one behind the other.
pub fn join2(a: &str, b: &str) -> (text: String)
    ensures
        text@ == a@ + b@,
{
    let mut text = String::from_str(a);
    text.append(b);
    text
}

/// Three texts, one behind the other.
pub fn join3(a: &str, b: &str, c: &str) -> (text: String)
    ensures
        text@ == a@ + b@ + c@,
{
    let mut text = join2(a, b);
    text.append(c);
    text
}

/// A text, a number in decimal, and a text.
pub fn with_number(a: &str, n: u64, b: &str) -> (text: String)
    ensures
        text@ == a@ + decimal(n as nat) + b@,
{
    let mut text = String::from_str(a);
    push_decimal(&mut text, n);
    text.append(b);
    text
}

/// Two numbers in decimal, each with a text before it and one text behind them.
pub fn with_numbers(a: &str, m: u64, b: &str, n: u64, c: &str) -> (text: String)
    ensures
        text@ == a@ + decimal(m as nat) + b@ + decimal(n as nat) + c@,
{
    let mut text = with_number(a, m, b);
    push_decimal(&mut text, n);
    text.append(c);
    text
}

/// Whether two texts hold the same characters.
pub fn same_text(a: &str, b: &str) -> (same: bool)
    ensures
        same == (a@ == b@),
{
    let len_a: usize = a.unicode_len();
    let len_b: usize = b.unicode_len();
    if len_a != len_b {
        return false;
    }
    let mut i: usize = 0;
    while i < len_a
        invariant
            i <= len_a,
            len_a == a@.len(),
            len_a == b@.len(),
            forall|j: int| 0 <= j < i ==> a@[j] == b@[j],
        decreases len_a - i,
    {
        if a.get_char(i) != b.get_char(i) {
            return false;
        }
        i = i + 1;
    }
    assert(a@ =~= b@);
    true
}

/// Whether a word stands in a text from a place on.
pub open spec fn stands_at(text: Seq<char>, word: Seq<char>, at: int) -> bool {
    0 <= at && at + word.len() <= text.len() && text.subrange(at, at + word.len()) == word
}

/// Whether a word stands anywhere in a text.
pub open spec fn holds(text: Seq<char>, word: Seq<char>) -> bool {
    exists|at: int| #[trigger] stands_at(text, word, at)
}

/// Whether a word stands anywhere in a text.
pub fn contains_text(text: &str, word: &str) -> (found: bool)
    ensures
        found == holds(text@, word@),
{
    let len: usize = text.unicode_len();
    let word_len: usize = word.unicode_len();
    if word_len > len {
        return false;
    }
    let mut at: usize = 0;
    let mut more = true;
    while more
        invariant
            word_len <= len,
            at <= len - word_len,
            len == text@.len(),
            word_len == word@.len(),
            forall|p: int| 0 <= p < at ==> !#[trigger] stands_at(text@, word@, p),
            !more ==> !holds(text@, word@),
        decreases len - at + if more {
            1int
        } else {
            0int
        },
    {
        let part = text.substring_char(at, at + word_len);
        if same_text(part, word) {
            assert(stands_at(text@, word@, at as int));
            return true;
        }
        proof {
            assert(!stands_at(text@, word@, at as int));
        }
        if at == len - word_len {
            more = false;
        } else {
            at = at + 1;
        }
    }
    false
}

}
