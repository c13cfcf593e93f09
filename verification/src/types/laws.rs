//! What numbers, texts and orders promise.

use crate::outside::digest;
use crate::types::bytes;
use crate::types::cid::Cid;
use crate::types::order;
use crate::types::parse;
use crate::types::piece;
use crate::types::text;
use vstd::prelude::*;

verus! {

/// One byte string comes before another of the same length exactly if it is smaller at the
/// first place where they differ.
pub proof fn lemma_bytes_less(a: Seq<u8>, b: Seq<u8>)
    requires
        a.len() == b.len(),
    ensures
        bytes::bytes_less(a, b) <==> exists|p: int|
            0 <= p < a.len() && (#[trigger] a[p]) < b[p] && forall|q: int|
                0 <= q < p ==> (#[trigger] a[q]) == b[q],
{
    bytes::lemma_first_difference(a, b, 0);
    let d = bytes::first_difference(a, b, 0);
    if bytes::bytes_less(a, b) {
        assert(a[d] < b[d]);
    }
    if exists|p: int|
        0 <= p < a.len() && (#[trigger] a[p]) < b[p] && forall|q: int|
            0 <= q < p ==> (#[trigger] a[q]) == b[q] {
        let p = choose|p: int|
            0 <= p < a.len() && (#[trigger] a[p]) < b[p] && forall|q: int|
                0 <= q < p ==> (#[trigger] a[q]) == b[q];
        if d < p {
            assert(a[d] == b[d]);
        } else if p < d {
            assert(a[p] == b[p]);
        }
    }
}

/// In an ascending list, of two contents the one that stands first has the smaller byte where
/// they first differ; so none stands twice.
pub proof fn lemma_ascending(cids: Seq<Cid>, i: int, j: int)
    requires
        order::ascending(cids),
        0 <= i < j < cids.len(),
    ensures
        exists|p: int|
            0 <= p < 32 && (#[trigger] cids[i]@[p]) < cids[j]@[p] && forall|q: int|
                0 <= q < p ==> (#[trigger] cids[i]@[q]) == cids[j]@[q],
        cids[i] != cids[j],
{
    lemma_bytes_less(cids[i]@, cids[j]@);
    bytes::lemma_bytes_order(cids[i]@, cids[j]@);
}

/// A content is in the set of a list exactly if it stands in the list.
pub proof fn lemma_cid_set(cids: Seq<Cid>, cid: Cid)
    ensures
        order::cid_set(cids).contains(cid@) <==> cids.contains(cid),
{
    if cids.contains(cid) {
        let i = choose|i: int| 0 <= i < cids.len() && cids[i] == cid;
        assert(cids[i]@ == cid@);
    }
    if order::cid_set(cids).contains(cid@) {
        let i = choose|i: int| 0 <= i < cids.len() && (#[trigger] cids[i])@ == cid@;
        crate::types::cid::lemma_cid_equal(cids[i], cid);
    }
}

/// A number in decimal holds digits only, is read back as the number, and has no leading zero
/// but for the number zero.
pub proof fn lemma_decimal_round_trip(n: nat)
    ensures
        text::decimal(n).len() > 0,
        parse::all_digits(text::decimal(n)),
        parse::digits_value(text::decimal(n)) == n,
        n > 0 ==> text::decimal(n)[0] != '0',
    decreases n,
{
    let written = text::decimal(n);
    if n < 10 {
        assert(written =~= Seq::<char>::empty().push(text::decimal_digit(n)));
        assert(written.drop_last() =~= Seq::<char>::empty());
        assert(parse::digits_value(Seq::<char>::empty()) == 0);
        assert(written.last() == text::decimal_digit(n));
    } else {
        lemma_decimal_round_trip(n / 10);
        assert(written.drop_last() =~= text::decimal(n / 10));
        assert(parse::is_digit(text::decimal_digit(n % 10)));
        assert forall|i: int| 0 <= i < written.len() implies parse::is_digit(
            #[trigger] written[i],
        ) by {
            if i < written.len() - 1 {
                assert(written[i] == text::decimal(n / 10)[i]);
            }
        }
        assert(written[0] == text::decimal(n / 10)[0]);
    }
}

/// A number that is written in decimal, with a plus sign or without, is read back where it is
/// no larger than allowed, and refused where it is.
pub proof fn lemma_number_round_trip(n: nat, max: nat)
    ensures
        parse::number(text::decimal(n), max) == (if n <= max {
            Some(n)
        } else {
            None::<nat>
        }),
        parse::number(seq!['+'] + text::decimal(n), max) == (if n <= max {
            Some(n)
        } else {
            None::<nat>
        }),
{
    let written = text::decimal(n);
    lemma_decimal_round_trip(n);
    assert(parse::is_digit(written[0]));
    let signed = seq!['+'] + written;
    assert(signed.drop_first() =~= written);
}

/// Digits are read from left to right, each ten times the next; a text with anything else in
/// it, or with no digit at all, is no number.
pub proof fn lemma_number(digits: Seq<char>, c: char, max: nat, at: int)
    ensures
        parse::digits_value(Seq::empty()) == 0,
        '0' <= c <= '9' ==> parse::digits_value(digits.push(c)) == 10 * parse::digits_value(digits)
            + (c as int - '0' as int),
        parse::number(Seq::empty(), max) is None,
        parse::number(seq!['+'], max) is None,
        0 <= at < digits.len() && !('0' <= digits[at] <= '9') && (at > 0 || digits[0] != '+')
            ==> parse::number(digits, max) is None,
        parse::number(digits, max) matches Some(n) ==> n <= max,
{
    assert(digits.push(c).drop_last() =~= digits);
    assert(seq!['+'].drop_first() =~= Seq::<char>::empty());
    if 0 <= at < digits.len() && !('0' <= digits[at] <= '9') {
        let rest = parse::unsigned_part(digits);
        if digits[0] == '+' {
            if at > 0 {
                assert(rest[at - 1] == digits[at]);
                assert(!parse::is_digit(rest[at - 1]));
            }
        } else {
            assert(!parse::is_digit(rest[at]));
        }
    }
}

/// Space, tab, line feed and carriage return are white space; letters, digits and signs are
/// not.
pub proof fn lemma_white_space(c: char)
    ensures
        c == ' ' || c == '\u{9}' || c == '\u{a}' || c == '\u{b}' || c == '\u{c}' || c == '\u{d}'
            ==> parse::white_space(c),
        '!' <= c <= '~' ==> !parse::white_space(c),
        c < '\u{9}' || '\u{e}' <= c < ' ' ==> !parse::white_space(c),
        c == '\u{85}' || c == '\u{a0}' || c == '\u{1680}' || '\u{2000}' <= c <= '\u{200a}' || c
            == '\u{2028}' || c == '\u{2029}' || c == '\u{202f}' || c == '\u{205f}' || c
            == '\u{3000}' ==> parse::white_space(c),
        parse::white_space(c) && c >= '\u{80}' ==> c == '\u{85}' || c == '\u{a0}' || c
            == '\u{1680}' || '\u{2000}' <= c <= '\u{200a}' || c == '\u{2028}' || c == '\u{2029}'
            || c == '\u{202f}' || c == '\u{205f}' || c == '\u{3000}',
{
}

/// Trimming takes white space from both ends and nothing else: what is left neither begins
/// nor ends with white space, and all that went was white space.
pub proof fn lemma_trimmed(text: Seq<char>) -> (cut: (int, int))
    ensures
        0 <= cut.0 <= cut.1 <= text.len(),
        parse::trimmed(text) == text.subrange(cut.0, cut.1),
        forall|i: int| 0 <= i < cut.0 ==> parse::white_space(#[trigger] text[i]),
        forall|i: int| cut.1 <= i < text.len() ==> parse::white_space(#[trigger] text[i]),
        cut.0 < cut.1 ==> !parse::white_space(text[cut.0]) && !parse::white_space(text[cut.1 - 1]),
{
    let a = lemma_trim_start(text);
    let rest = text.subrange(a, text.len() as int);
    let b = lemma_trim_end(rest);
    assert(rest.subrange(0, b) =~= text.subrange(a, a + b));
    assert forall|i: int| a + b <= i < text.len() implies parse::white_space(#[trigger] text[i]) by {
        assert(rest[i - a] == text[i]);
    }
    if b > 0 {
        assert(rest[0] == text[a]);
        assert(rest[b - 1] == text[a + b - 1]);
    }
    (a, a + b)
}

proof fn lemma_trim_start(text: Seq<char>) -> (a: int)
    ensures
        0 <= a <= text.len(),
        parse::trim_start(text) == text.subrange(a, text.len() as int),
        forall|i: int| 0 <= i < a ==> parse::white_space(#[trigger] text[i]),
        a < text.len() ==> !parse::white_space(text[a]),
    decreases text.len(),
{
    if text.len() > 0 && parse::white_space(text[0]) {
        let rest = text.drop_first();
        let b = lemma_trim_start(rest);
        assert(rest.subrange(b, rest.len() as int) =~= text.subrange(b + 1, text.len() as int));
        assert forall|i: int| 0 <= i < b + 1 implies parse::white_space(#[trigger] text[i]) by {
            if i > 0 {
                assert(rest[i - 1] == text[i]);
            }
        }
        if b < rest.len() {
            assert(rest[b] == text[b + 1]);
        }
        b + 1
    } else {
        assert(text.subrange(0, text.len() as int) =~= text);
        0
    }
}

proof fn lemma_trim_end(text: Seq<char>) -> (b: int)
    ensures
        0 <= b <= text.len(),
        parse::trim_end(text) == text.subrange(0, b),
        forall|i: int| b <= i < text.len() ==> parse::white_space(#[trigger] text[i]),
        b > 0 ==> !parse::white_space(text[b - 1]),
    decreases text.len(),
{
    if text.len() > 0 && parse::white_space(text.last()) {
        let rest = text.drop_last();
        let b = lemma_trim_end(rest);
        assert(rest.subrange(0, b) =~= text.subrange(0, b));
        assert forall|i: int| b <= i < text.len() implies parse::white_space(#[trigger] text[i]) by {
            if i < rest.len() {
                assert(rest[i] == text[i]);
            }
        }
        if b > 0 {
            assert(rest[b - 1] == text[b - 1]);
        }
        b
    } else {
        assert(text.subrange(0, text.len() as int) =~= text);
        text.len() as int
    }
}

/// The parts between the commas, put together again with commas, are the text, and no part
/// holds a comma.
pub proof fn lemma_fields(text: Seq<char>)
    ensures
        parse::fields(text).len() > 0,
        with_commas(parse::fields(text)) == text,
        forall|i: int, j: int|
            0 <= i < parse::fields(text).len() && 0 <= j < parse::fields(text)[i].len() ==> (
            #[trigger] parse::fields(text)[i][j]) != ',',
    decreases text.len(),
{
    if text.len() == 0 {
        assert(with_commas(parse::fields(text)) =~= text);
    } else {
        let shorter = text.drop_last();
        let c = text.last();
        lemma_fields(shorter);
        let front = parse::fields(shorter);
        let all = parse::fields(text);
        assert(shorter.push(c) =~= text);
        if c == ',' {
            assert(all.drop_last() =~= front);
            assert(with_commas(all) =~= text);
        } else {
            let last = front.last();
            assert(all.drop_last() =~= front.drop_last());
            assert(all.last() == last.push(c));
            if front.len() == 1 {
                assert(with_commas(front) =~= last);
                assert(with_commas(all) =~= text);
            } else {
                assert(with_commas(front) == with_commas(front.drop_last()) + seq![','] + last);
                assert(with_commas(all) =~= text);
            }
        }
        assert forall|i: int, j: int| 0 <= i < all.len() && 0 <= j < all[i].len() implies (
        #[trigger] all[i][j]) != ',' by {
            if i < all.len() - 1 {
                assert(all[i] == front[i]);
                assert(front[i][j] != ',');
            } else if c != ',' {
                if j < front.last().len() {
                    assert(front[front.len() - 1][j] != ',');
                }
            }
        }
    }
}

/// Texts with commas between them.
pub open spec fn with_commas(parts: Seq<Seq<char>>) -> Seq<char>
    decreases parts.len(),
{
    if parts.len() == 0 {
        Seq::empty()
    } else if parts.len() == 1 {
        parts[0]
    } else {
        with_commas(parts.drop_last()) + seq![','] + parts.last()
    }
}

/// One part more is listed behind the others, trimmed, exactly if something is left of it.
pub proof fn lemma_filled_step(parts: Seq<Seq<char>>, part: Seq<char>)
    ensures
        parse::filled(Seq::empty()).len() == 0,
        parse::filled(parts.push(part)) == (if parse::trimmed(part).len() > 0 {
            parse::filled(parts).push(parse::trimmed(part))
        } else {
            parse::filled(parts)
        }),
{
    assert(parts.push(part).drop_last() =~= parts);
}

/// A word stands in a text exactly if the text is something before it, the word, and
/// something behind it.
pub proof fn lemma_holds(
    text: Seq<char>,
    word: Seq<char>,
    before: Seq<char>,
    behind: Seq<char>,
) -> (cut: int)
    ensures
        text::holds(before + word + behind, word),
        text::holds(text, word) ==> 0 <= cut && cut + word.len() <= text.len() && text
            == text.take(cut) + word + text.skip(cut + word.len()),
{
    let all = before + word + behind;
    let at = before.len() as int;
    assert(all.subrange(at, at + word.len()) =~= word);
    assert(text::stands_at(all, word, at));
    if text::holds(text, word) {
        let p = choose|p: int| #[trigger] text::stands_at(text, word, p);
        assert(text =~= text.take(p) + word + text.skip(p + word.len())) by {
            assert forall|i: int| p <= i < p + word.len() implies text[i] == word[i - p] by {
                assert(text.subrange(p, p + word.len())[i - p] == text[i]);
            }
        }
        p
    } else {
        0
    }
}

/// A piece is named by the digest of its bytes, and carries what it was made of.
pub proof fn lemma_piece_of(cid: Seq<u8>, vector: Seq<u8>, data: Seq<u8>, tag: Seq<u8>)
    ensures
        piece::piece_of(cid, vector, data, tag).cid == cid,
        piece::piece_of(cid, vector, data, tag).coding_vector == vector,
        piece::piece_of(cid, vector, data, tag).data == data,
        piece::piece_of(cid, vector, data, tag).tag == tag,
        piece::piece_of(cid, vector, data, tag).piece_id == digest::blake3_digest(data),
{
}

/// A text put together of up to five parts holds its second and its fourth.
pub proof fn lemma_parts_held(
    a: Seq<char>,
    b: Seq<char>,
    c: Seq<char>,
    d: Seq<char>,
    e: Seq<char>,
)
    ensures
        text::holds(a + b, b),
        text::holds(a + b + c, b),
        text::holds(a + b + c + d, b),
        text::holds(a + b + c + d, d),
        text::holds(a + b + c + d + e, b),
        text::holds(a + b + c + d + e, d),
{
    let none = Seq::<char>::empty();
    assert(a + b + none =~= a + b);
    lemma_holds(a, b, a, none);
    lemma_holds(a, b, a, c);
    assert(a + b + (c + d) =~= a + b + c + d);
    lemma_holds(a, b, a, c + d);
    assert((a + b + c) + d + none =~= a + b + c + d);
    lemma_holds(a, d, a + b + c, none);
    assert(a + b + (c + d + e) =~= a + b + c + d + e);
    lemma_holds(a, b, a, c + d + e);
    lemma_holds(a, d, a + b + c, e);
}

/// Texts are seen one by one, in their order.
pub proof fn lemma_texts(list: Seq<String>, i: int)
    requires
        0 <= i < list.len(),
    ensures
        parse::texts(list).len() == list.len(),
        parse::texts(list)[i] == list[i]@,
{
}

}
