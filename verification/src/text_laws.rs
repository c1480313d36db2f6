//! What holds of every text that is read or written.

use vstd::prelude::*;

use crate::text::{
    begins_with, decimal_of, digit, digits_of, diminished, enlarged, hex_digit, hex_of,
    in_capitals, in_small_letters, is_digit, is_space, number_in, parts, precedes, signed_of,
    standing_of, strung, trimmed, truth, value_of, without_leading, without_trailing, Standing,
};

verus! {

/// What is written in decimal is digits, the first of them no zero unless it is the
/// only one, and they write the number.
pub proof fn decimals_write_their_number(n: nat)
    ensures
        value_of(decimal_of(n)) == n,
        decimal_of(n).len() > 0,
        forall|i: int| 0 <= i < decimal_of(n).len() ==> is_digit(#[trigger] decimal_of(n)[i]),
        decimal_of(n)[0] == '0' <==> n == 0,
        n == 0 ==> decimal_of(n).len() == 1,
    decreases n,
{
    reveal_with_fuel(value_of, 2);
    let text = decimal_of(n);
    if n < 10 {
        assert(text.drop_last() =~= seq![]);
        assert(text.last() == digit(n));
    } else {
        decimals_write_their_number(n / 10);
        let before = decimal_of(n / 10);
        assert(text.drop_last() =~= before);
        assert(text.last() == digit(n % 10));
        assert forall|i: int| 0 <= i < text.len() implies is_digit(#[trigger] text[i]) by {
            if i < before.len() {
                assert(is_digit(before[i]));
            }
        }
        assert(text[0] == before[0]);
    }
}

/// A number below zero is a minus sign and the number without it; any other is its
/// digits.
pub proof fn signs_come_first(n: int)
    ensures
        n >= 0 ==> signed_of(n) == decimal_of(n as nat),
        n < 0 ==> signed_of(n).len() > 0 && signed_of(n)[0] == '-' && signed_of(n).skip(1)
            == decimal_of((-n) as nat),
{
    if n < 0 {
        assert(signed_of(n).skip(1) =~= decimal_of((-n) as nat));
    }
}

/// A number that was written is read back, also behind a plus sign.
pub proof fn numbers_are_read_back(n: usize)
    ensures
        number_in(decimal_of(n as nat)) == Some(n),
        number_in(seq!['+'] + decimal_of(n as nat)) == Some(n),
{
    decimals_write_their_number(n as nat);
    let text = decimal_of(n as nat);
    assert(is_digit(text[0]));
    assert(digits_of(text) == text);
    assert((seq!['+'] + text).skip(1) =~= text);
}

/// What has anything but digits in it, or no digit, is no number.
pub proof fn what_is_no_number(text: Seq<char>, i: int)
    ensures
        text.len() == 0 ==> number_in(text) is None,
        0 <= i < text.len() && !is_digit(text[i]) && !(i == 0 && text[0] == '+') ==> number_in(text)
            is None,
        text.len() == 1 && text[0] == '+' ==> number_in(text) is None,
        forall|letter: char| #[trigger]
            is_digit(letter) <==> (letter == '0' || letter == '1' || letter == '2' || letter == '3'
                || letter == '4' || letter == '5' || letter == '6' || letter == '7' || letter == '8'
                || letter == '9'),
{
    if 0 <= i < text.len() && !is_digit(text[i]) && !(i == 0 && text[0] == '+') {
        let digits = digits_of(text);
        if text[0] == '+' {
            assert(digits[i - 1] == text[i]);
        } else {
            assert(digits[i] == text[i]);
        }
    }
}

/// The number that a hexadecimal digit stands for.
pub open spec fn hex_value(letter: char) -> int {
    if '0' as int <= letter as int <= '9' as int {
        letter as int - '0' as int
    } else {
        letter as int - 'a' as int + 10
    }
}

/// The number that hexadecimal digits write.
pub open spec fn hex_written(text: Seq<char>) -> int
    decreases text.len(),
{
    if text.len() == 0 {
        0
    } else {
        16 * hex_written(text.drop_last()) + hex_value(text.last())
    }
}

/// What is written in hexadecimal writes the number, in digits and small letters, the
/// first of them no zero unless it is the only one.
pub proof fn hexadecimals_write_their_number(n: nat)
    ensures
        hex_written(hex_of(n)) == n,
        hex_of(n).len() > 0,
        hex_of(n)[0] == '0' <==> n == 0,
        n == 0 ==> hex_of(n).len() == 1,
        forall|i: int|
            0 <= i < hex_of(n).len() ==> ('0' as int <= (#[trigger] hex_of(n)[i]) as int
                <= '9' as int || 'a' as int <= hex_of(n)[i] as int <= 'f' as int),
    decreases n,
{
    reveal_with_fuel(hex_written, 2);
    let text = hex_of(n);
    if n < 16 {
        assert(text.drop_last() =~= seq![]);
        assert(text.last() == hex_digit(n));
    } else {
        hexadecimals_write_their_number(n / 16);
        let before = hex_of(n / 16);
        assert(text.drop_last() =~= before);
        assert(text.last() == hex_digit(n % 16));
        assert(text[0] == before[0]);
        assert forall|i: int| 0 <= i < text.len() implies ('0' as int <= (
        #[trigger] text[i]) as int <= '9' as int || 'a' as int <= text[i] as int <= 'f' as int) by {
            if i < before.len() {
                assert(text[i] == before[i]);
            }
        }
    }
}

/// Whether a text is white space all through.
pub open spec fn blank(text: Seq<char>) -> bool {
    forall|i: int| 0 <= i < text.len() ==> is_space(#[trigger] text[i])
}

/// What is trimmed off in front is white space, and none is left there.
proof fn lemma_leading(text: Seq<char>)
    ensures
        without_leading(text).len() <= text.len(),
        blank(text.take(text.len() - without_leading(text).len())),
        text.skip(text.len() - without_leading(text).len()) == without_leading(text),
        without_leading(text).len() > 0 ==> !is_space(without_leading(text)[0]),
    decreases text.len(),
{
    if text.len() > 0 && is_space(text[0]) {
        let rest = text.skip(1);
        lemma_leading(rest);
        let out = without_leading(rest);
        let n = text.len() - out.len();
        assert(text.skip(n) =~= rest.skip(rest.len() - out.len()));
        assert forall|i: int| 0 <= i < n implies is_space(#[trigger] text.take(n)[i]) by {
            if i > 0 {
                assert(rest.take(n - 1)[i - 1] == text[i]);
            }
        }
    } else {
        assert(text.skip(0) =~= text);
    }
}

/// What is trimmed off behind is white space, and none is left there.
proof fn lemma_trailing(text: Seq<char>)
    ensures
        without_trailing(text).len() <= text.len(),
        text.take(without_trailing(text).len() as int) == without_trailing(text),
        blank(text.skip(without_trailing(text).len() as int)),
        without_trailing(text).len() > 0 ==> !is_space(without_trailing(text).last()),
    decreases text.len(),
{
    if text.len() > 0 && is_space(text.last()) {
        let rest = text.drop_last();
        lemma_trailing(rest);
        let n = without_trailing(rest).len() as int;
        assert(text.take(n) =~= rest.take(n));
        assert forall|i: int| 0 <= i < text.len() - n implies is_space(#[trigger] text.skip(n)[i]) by {
            if i < rest.len() - n {
                assert(rest.skip(n)[i] == text.skip(n)[i]);
            }
        }
    } else {
        assert(text.take(text.len() as int) =~= text);
    }
}

/// Trimming takes white space off both ends, all of it, and nothing else.
pub proof fn trimming_takes_white_space_off(text: Seq<char>)
    ensures
        exists|front: Seq<char>, back: Seq<char>|
            text == #[trigger] (front + trimmed(text) + back) && blank(front) && blank(back),
        trimmed(text).len() > 0 ==> !is_space(trimmed(text)[0]) && !is_space(trimmed(text).last()),
{
    lemma_leading(text);
    let mid = without_leading(text);
    lemma_trailing(mid);
    let out = without_trailing(mid);
    let front = text.take(text.len() - mid.len());
    let back = mid.skip(out.len() as int);
    assert(text =~= front + mid);
    assert(mid =~= out + back);
    assert(text =~= front + out + back);
    assert(text == front + trimmed(text) + back && blank(front) && blank(back));
    if out.len() > 0 {
        assert(out[0] == mid[0]);
    }
}

/// The blank, the tab and the ends of lines are white space; letters, digits and
/// punctuation are not.
pub proof fn what_white_space_is(letter: char)
    ensures
        is_space(' '),
        is_space('\t'),
        is_space('\n'),
        is_space('\r'),
        '!' as int <= letter as int <= '~' as int ==> !is_space(letter),
{
}

/// A text begins with another just when the other and something make it up.
pub proof fn what_a_text_begins_with(text: Seq<char>, prefix: Seq<char>, rest: Seq<char>)
    ensures
        begins_with(prefix + rest, prefix),
        begins_with(text, prefix) ==> text == prefix + text.skip(prefix.len() as int),
{
    assert((prefix + rest).take(prefix.len() as int) =~= prefix);
    if begins_with(text, prefix) {
        assert(text =~= text.take(prefix.len() as int) + text.skip(prefix.len() as int));
    }
}

/// Texts are ordered by the first character in which they differ, and a text comes
/// before its own extensions.
pub proof fn how_texts_are_ordered(common: Seq<char>, a: Seq<char>, b: Seq<char>)
    ensures
        !precedes(a, a),
        b.len() > 0 ==> precedes(common, common + b) && !precedes(common + b, common),
        a.len() > 0 && b.len() > 0 && (a[0] as int) < (b[0] as int) ==> {
            &&& precedes(common + a, common + b)
            &&& !precedes(common + b, common + a)
            &&& standing_of(common + a, common + b) == Standing::Before
            &&& standing_of(common + b, common + a) == Standing::After
        },
        standing_of(a, a) == Standing::Same,
    decreases common.len() + a.len(),
{
    if a.len() > 0 {
        lemma_never_before_itself(a);
    }
    lemma_behind_a_common_part(common, a, b);
    if a.len() > 0 && b.len() > 0 && (a[0] as int) < (b[0] as int) {
        let n = common.len() as int;
        assert((common + a)[n] != (common + b)[n]);
    }
}

/// No text comes before itself.
proof fn lemma_never_before_itself(a: Seq<char>)
    ensures
        !precedes(a, a),
    decreases a.len(),
{
    if a.len() > 0 {
        lemma_never_before_itself(a.skip(1));
    }
}

/// A common part in front changes no order.
proof fn lemma_behind_a_common_part(common: Seq<char>, a: Seq<char>, b: Seq<char>)
    ensures
        precedes(common + a, common + b) == precedes(a, b),
        precedes(common + b, common + a) == precedes(b, a),
        b.len() > 0 ==> precedes(common, common + b) && !precedes(common + b, common),
    decreases common.len(),
{
    if common.len() == 0 {
        assert(common + a =~= a);
        assert(common + b =~= b);
    } else {
        let rest = common.skip(1);
        lemma_behind_a_common_part(rest, a, b);
        assert((common + a).skip(1) =~= rest + a);
        assert((common + b).skip(1) =~= rest + b);
    }
}

/// The parts of a text, put together again with the separator between them, are the
/// text; and the separator is in none of them.
pub proof fn parts_make_up_the_text(text: Seq<char>, separator: char)
    ensures
        parts(text, separator).len() > 0,
        strung(parts(text, separator), seq![separator]) == text,
        forall|k: int, i: int|
            0 <= k < parts(text, separator).len() && 0 <= i < parts(text, separator)[k].len() ==> (
            #[trigger] parts(text, separator)[k][i]) != separator,
    decreases text.len(),
{
    let out = parts(text, separator);
    let between = seq![separator];
    if text.len() > 0 {
        let shorter = text.drop_last();
        let last = text.last();
        let before = parts(shorter, separator);
        parts_make_up_the_text(shorter, separator);
        if last == separator {
            assert(out.drop_last() =~= before);
            assert(out.last() =~= seq![]);
            assert(strung(out, between) =~= shorter.push(last));
        } else {
            assert(out.drop_last() =~= before.drop_last());
            assert(out.last() =~= before.last().push(last));
            if before.len() == 1 {
                assert(out[0] == before[0].push(last));
                assert(strung(out, between) =~= shorter.push(last));
            } else {
                assert(strung(out, between) =~= strung(before, between).push(last));
            }
        }
        assert(text =~= shorter.push(last));
        assert forall|k: int, i: int|
            0 <= k < out.len() && 0 <= i < out[k].len() implies (#[trigger] out[k][i])
            != separator by {
            if k < before.len() && i < before[k].len() {
                assert(before[k][i] != separator);
            }
        }
    }
}

/// The first part of a text ends where the separator first stands.
pub proof fn the_first_part_ends_at_the_separator(
    front: Seq<char>,
    rest: Seq<char>,
    separator: char,
)
    requires
        !front.contains(separator),
    ensures
        parts(front, separator) == seq![front],
        parts(front + seq![separator] + rest, separator)[0] == front,
        parts(front + seq![separator] + rest, separator).len() > 1,
    decreases front.len() + rest.len(),
{
    if rest.len() > 0 {
        the_first_part_ends_at_the_separator(front, rest.drop_last(), separator);
        let text = front + seq![separator] + rest;
        assert(text.drop_last() =~= front + seq![separator] + rest.drop_last());
        assert(text.last() == rest.last());
    } else {
        if front.len() > 0 {
            let shorter = front.drop_last();
            assert(!shorter.contains(separator)) by {
                if shorter.contains(separator) {
                    let k = choose|k: int| 0 <= k < shorter.len() && shorter[k] == separator;
                    assert(front[k] == separator);
                }
            }
            the_first_part_ends_at_the_separator(shorter, rest, separator);
            assert(front[front.len() - 1] != separator);
            assert(shorter.push(front.last()) =~= front);
            assert(parts(front, separator) =~= seq![front]);
        } else {
            assert(front =~= seq![]);
            assert(parts(front, separator) =~= seq![front]);
        }
        let text = front + seq![separator] + rest;
        assert(text.drop_last() =~= front);
        assert(text.last() == separator);
    }
}

/// Texts are strung with one text between each two.
pub proof fn how_texts_are_strung(texts: Seq<Seq<char>>, text: Seq<char>, between: Seq<char>)
    ensures
        strung(seq![], between).len() == 0,
        strung(seq![text], between) == text,
        texts.len() > 0 ==> strung(texts.push(text), between) == strung(texts, between) + between
            + text,
{
    assert(texts.push(text).drop_last() =~= texts);
}

/// The letters of the Latin alphabet change their case, each to its own, and nothing
/// else does.
pub proof fn how_letters_change_case(text: Seq<char>, i: int)
    requires
        0 <= i < text.len(),
    ensures
        ({
            let letter = text[i];
            let small = 'a' as int <= letter as int <= 'z' as int;
            let large = 'A' as int <= letter as int <= 'Z' as int;
            &&& in_capitals(text).len() == text.len()
            &&& in_small_letters(text).len() == text.len()
            &&& small ==> in_capitals(text)[i] as int - 'A' as int == letter as int - 'a' as int
            &&& !small ==> in_capitals(text)[i] == letter
            &&& large ==> in_small_letters(text)[i] as int - 'a' as int == letter as int
                - 'A' as int
            &&& !large ==> in_small_letters(text)[i] == letter
            &&& small ==> diminished(enlarged(letter)) == letter
            &&& large ==> enlarged(diminished(letter)) == letter
        }),
{
}

/// How truth is written.
pub proof fn how_truth_is_written()
    ensures
        truth(true) == "true"@,
        truth(false) == "false"@,
{
}

} // verus!
