//! Text building: the pieces the crate's messages and reports are made of.

use vstd::prelude::*;
use vstd::string::*;

verus! {

/// The character of one decimal digit.
pub open spec fn digit(d: nat) -> char
    recommends
        d < 10,
{
    ('0' as int + d) as char
}

/// `n` written in decimal, without leading zeros.
pub open spec fn decimal_of(n: nat) -> Seq<char>
    decreases n,
{
    if n < 10 {
        seq![digit(n)]
    } else {
        decimal_of(n / 10).push(digit(n % 10))
    }
}

/// `n` written in decimal, with a leading minus sign when it is negative.
pub open spec fn signed_of(n: int) -> Seq<char> {
    if n < 0 {
        seq!['-'] + decimal_of((-n) as nat)
    } else {
        decimal_of(n as nat)
    }
}

/// The one-character text of a decimal digit.
fn digit_text(d: u64) -> (text: &'static str)
    requires
        d < 10,
    ensures
        text@ == seq![digit(d as nat)],
{
    proof {
        reveal_strlit("0");
        reveal_strlit("1");
        reveal_strlit("2");
        reveal_strlit("3");
        reveal_strlit("4");
        reveal_strlit("5");
        reveal_strlit("6");
        reveal_strlit("7");
        reveal_strlit("8");
        reveal_strlit("9");
    }
    match d {
        0 => "0",
        1 => "1",
        2 => "2",
        3 => "3",
        4 => "4",
        5 => "5",
        6 => "6",
        7 => "7",
        8 => "8",
        _ => "9",
    }
}

/// `n` in decimal.
pub fn decimal(n: u64) -> (text: String)
    ensures
        text@ == decimal_of(n as nat),
    decreases n,
{
    if n < 10 {
        digit_text(n).to_owned()
    } else {
        let mut text = decimal(n / 10);
        text.append(digit_text(n % 10));
        assert(text@ == decimal_of((n / 10) as nat).push(digit((n % 10) as nat)));
        text
    }
}

/// `n` in decimal, signed.
pub fn signed(n: i64) -> (text: String)
    ensures
        text@ == signed_of(n as int),
{
    if n < 0 {
        proof {
            reveal_strlit("-");
        }
        let mut text = "-".to_owned();
        let magnitude: u64 = if n == i64::MIN {
            0x8000_0000_0000_0000
        } else {
            (-n) as u64
        };
        text.append(decimal(magnitude).as_str());
        assert(text@ =~= signed_of(n as int));
        text
    } else {
        decimal(n as u64)
    }
}

/// A text followed by another.
pub fn joined(first: &str, second: &str) -> (text: String)
    ensures
        text@ == first@ + second@,
{
    let mut text = first.to_owned();
    text.append(second);
    text
}

/// `String::push` of the standard library: appends one character to a text.
pub assume_specification[ String::push ](text: &mut String, letter: char)
    ensures
        final(text)@ == old(text)@.push(letter),
;

/// The characters of a text.
pub fn letters(text: &str) -> (letters: Vec<char>)
    ensures
        letters@ == text@,
{
    let mut letters: Vec<char> = Vec::new();
    for letter in iter: text.chars()
        invariant
            iter.seq() == text@,
            letters@ == text@.take(iter.index()),
    {
        letters.push(letter);
        assert(letters@ =~= text@.take(iter.index() + 1));
    }
    assert(letters@ =~= text@);
    letters
}

/// The text of some characters.
pub fn spelled(letters: &[char]) -> (text: String)
    ensures
        text@ == letters@,
{
    let mut text = String::new();
    let mut at: usize = 0;
    assert(text@ =~= letters@.take(0));
    while at < letters.len()
        invariant
            at <= letters.len(),
            text@ == letters@.take(at as int),
        decreases letters.len() - at,
    {
        text.push(letters[at]);
        at += 1;
        assert(text@ =~= letters@.take(at as int));
    }
    assert(text@ =~= letters@);
    text
}

/// The characters that Unicode counts as white space.
pub open spec fn is_space(letter: char) -> bool {
    ||| 0x9 <= letter as u32 <= 0xD
    ||| letter as u32 == 0x20
    ||| letter as u32 == 0x85
    ||| letter as u32 == 0xA0
    ||| letter as u32 == 0x1680
    ||| 0x2000 <= letter as u32 <= 0x200A
    ||| letter as u32 == 0x2028
    ||| letter as u32 == 0x2029
    ||| letter as u32 == 0x202F
    ||| letter as u32 == 0x205F
    ||| letter as u32 == 0x3000
}

/// Whether a character is white space.
pub fn space(letter: char) -> (space: bool)
    ensures
        space == is_space(letter),
{
    let code: u32 = letter as u32;
    (0x9 <= code && code <= 0xD) || code == 0x20 || code == 0x85 || code == 0xA0 || code == 0x1680
        || (0x2000 <= code && code <= 0x200A) || code == 0x2028 || code == 0x2029 || code == 0x202F
        || code == 0x205F || code == 0x3000
}

/// A text without the white space in front.
pub open spec fn without_leading(text: Seq<char>) -> Seq<char>
    decreases text.len(),
{
    if text.len() > 0 && is_space(text[0]) {
        without_leading(text.skip(1))
    } else {
        text
    }
}

/// A text without the white space behind.
pub open spec fn without_trailing(text: Seq<char>) -> Seq<char>
    decreases text.len(),
{
    if text.len() > 0 && is_space(text.last()) {
        without_trailing(text.drop_last())
    } else {
        text
    }
}

/// A text without the white space around it.
pub open spec fn trimmed(text: Seq<char>) -> Seq<char> {
    without_trailing(without_leading(text))
}

/// A text without the white space around it.
pub fn trim(text: &[char]) -> (rest: Vec<char>)
    ensures
        rest@ == trimmed(text@),
{
    let mut first: usize = 0;
    assert(text@.skip(0) =~= text@);
    while first < text.len() && space(text[first])
        invariant
            first <= text.len(),
            without_leading(text@) == without_leading(text@.skip(first as int)),
        decreases text.len() - first,
    {
        assert(text@.skip(first as int)[0] == text@[first as int]);
        assert(text@.skip(first as int).skip(1) =~= text@.skip(first + 1));
        first += 1;
    }
    let ghost rest = text@.skip(first as int);
    assert(without_leading(text@) == rest);
    let mut end: usize = text.len();
    assert(rest.take(end - first) =~= rest);
    while end > first && space(text[end - 1])
        invariant
            first <= end <= text.len(),
            rest == text@.skip(first as int),
            without_trailing(rest) == without_trailing(rest.take(end - first)),
        decreases end - first,
    {
        let ghost head = rest.take(end - first);
        assert(head.last() == text@[end - 1]);
        assert(head.drop_last() =~= rest.take(end - 1 - first));
        end -= 1;
    }
    let trimmed_letters = vstd::slice::slice_to_vec(vstd::slice::slice_subrange(text, first, end));
    assert(trimmed_letters@ =~= rest.take(end - first));
    assert(end > first ==> rest.take(end - first).last() == text@[end - 1]);
    trimmed_letters
}

/// Whether a text begins with another.
pub open spec fn begins_with(text: Seq<char>, prefix: Seq<char>) -> bool {
    prefix.len() <= text.len() && text.take(prefix.len() as int) == prefix
}

/// Whether a text begins with another.
pub fn starts_with(text: &[char], prefix: &[char]) -> (starts: bool)
    ensures
        starts == begins_with(text@, prefix@),
{
    if prefix.len() > text.len() {
        return false;
    }
    let mut at: usize = 0;
    while at < prefix.len()
        invariant
            at <= prefix.len() <= text.len(),
            forall|i: int| 0 <= i < at ==> text@[i] == prefix@[i],
        decreases prefix.len() - at,
    {
        if text[at] != prefix[at] {
            assert(text@.take(prefix@.len() as int)[at as int] != prefix@[at as int]);
            return false;
        }
        at += 1;
    }
    assert(text@.take(prefix@.len() as int) =~= prefix@);
    true
}

/// Whether one text comes before another: by the first character in which they
/// differ, and a text before its own extensions.
pub open spec fn precedes(a: Seq<char>, b: Seq<char>) -> bool
    decreases a.len(),
{
    if b.len() == 0 {
        false
    } else if a.len() == 0 {
        true
    } else if a[0] == b[0] {
        precedes(a.skip(1), b.skip(1))
    } else {
        (a[0] as int) < (b[0] as int)
    }
}

/// How two texts stand to each other.
#[derive(Debug, Clone, Copy, PartialEq, Eq, Structural)]
pub enum Standing {
    /// The first comes before the second.
    Before,
    /// They are the same.
    Same,
    /// The first comes after the second.
    After,
}

/// How two texts stand to each other.
pub open spec fn standing_of(a: Seq<char>, b: Seq<char>) -> Standing {
    if a == b {
        Standing::Same
    } else if precedes(a, b) {
        Standing::Before
    } else {
        Standing::After
    }
}

/// Of two texts that are not the same, one comes before the other.
pub proof fn lemma_texts_are_ordered(a: Seq<char>, b: Seq<char>)
    ensures
        !precedes(a, a),
        !(precedes(a, b) && precedes(b, a)),
        a != b ==> precedes(a, b) || precedes(b, a),
    decreases a.len(),
{
    if a.len() > 0 {
        lemma_texts_are_ordered(a.skip(1), if b.len() > 0 {
            b.skip(1)
        } else {
            b
        });
    }
    if a.len() > 0 && b.len() > 0 && a[0] == b[0] {
        if a.skip(1) == b.skip(1) {
            assert(a =~= seq![a[0]] + a.skip(1));
            assert(b =~= seq![b[0]] + b.skip(1));
        }
    }
    if a.len() == 0 && b.len() == 0 {
        assert(a =~= b);
    }
    if a.len() > 0 && b.len() > 0 && a[0] != b[0] {
        assert(a[0] as int != b[0] as int);
    }
}

/// What comes before a text comes before all that comes after it.
pub proof fn lemma_order_is_transitive(a: Seq<char>, b: Seq<char>, c: Seq<char>)
    requires
        precedes(a, b),
        precedes(b, c),
    ensures
        precedes(a, c),
    decreases a.len(),
{
    if a.len() > 0 && a[0] == b[0] && b[0] == c[0] {
        lemma_order_is_transitive(a.skip(1), b.skip(1), c.skip(1));
    }
}

/// A character's code is its number.
proof fn lemma_code(letter: char)
    ensures
        letter as u32 == letter as int,
{
}

/// Compares two texts, character by character.
pub fn standing(a: &str, b: &str) -> (standing: Standing)
    ensures
        standing == standing_of(a@, b@),
{
    let first = letters(a);
    let second = letters(b);
    let mut at: usize = 0;
    assert(a@.skip(0) =~= a@);
    assert(b@.skip(0) =~= b@);
    while at < first.len() && at < second.len() && first[at] == second[at]
        invariant
            first@ == a@,
            second@ == b@,
            at <= first.len(),
            at <= second.len(),
            a@.take(at as int) == b@.take(at as int),
            precedes(a@, b@) == precedes(a@.skip(at as int), b@.skip(at as int)),
        decreases first.len() - at,
    {
        assert(a@.skip(at as int)[0] == a@[at as int]);
        assert(b@.skip(at as int)[0] == b@[at as int]);
        assert(a@.skip(at as int).skip(1) =~= a@.skip(at + 1));
        assert(b@.skip(at as int).skip(1) =~= b@.skip(at + 1));
        assert(a@.take(at + 1) =~= a@.take(at as int).push(a@[at as int]));
        assert(b@.take(at + 1) =~= b@.take(at as int).push(b@[at as int]));
        at += 1;
    }
    proof {
        if at == a@.len() && at == b@.len() {
            assert(a@.take(at as int) =~= a@);
            assert(b@.take(at as int) =~= b@);
        } else if a@ == b@ {
            assert(a@[at as int] == b@[at as int]);
        }
        if at < a@.len() {
            assert(a@.skip(at as int)[0] == a@[at as int]);
        }
        if at < b@.len() {
            assert(b@.skip(at as int)[0] == b@[at as int]);
        }
    }
    if at == first.len() {
        if at == second.len() {
            Standing::Same
        } else {
            Standing::Before
        }
    } else if at == second.len() {
        Standing::After
    } else {
        let one: char = first[at];
        let other: char = second[at];
        proof {
            lemma_code(one);
            lemma_code(other);
        }
        if (one as u32) < (other as u32) {
            Standing::Before
        } else {
            Standing::After
        }
    }
}

/// The parts of a text that a character keeps apart.
pub open spec fn parts(text: Seq<char>, separator: char) -> Seq<Seq<char>>
    decreases text.len(),
{
    if text.len() == 0 {
        seq![seq![]]
    } else {
        let before = parts(text.drop_last(), separator);
        if text.last() == separator {
            before.push(seq![])
        } else {
            before.update(before.len() - 1, before.last().push(text.last()))
        }
    }
}

/// Pieces of text, as plain sequences.
pub open spec fn piece_views(pieces: Seq<Vec<char>>) -> Seq<Seq<char>> {
    pieces.map_values(|piece: Vec<char>| piece@)
}

/// The parts of a text that a character keeps apart. There is always one.
pub fn split(text: &[char], separator: char) -> (pieces: Vec<Vec<char>>)
    ensures
        piece_views(pieces@) == parts(text@, separator),
        pieces@.len() > 0,
{
    let mut pieces: Vec<Vec<char>> = Vec::new();
    let mut piece: Vec<char> = Vec::new();
    let mut at: usize = 0;
    assert(piece_views(pieces@).push(piece@) =~= parts(text@.take(0), separator));
    while at < text.len()
        invariant
            at <= text.len(),
            piece_views(pieces@).push(piece@) == parts(text@.take(at as int), separator),
        decreases text.len() - at,
    {
        let letter: char = text[at];
        let ghost before = parts(text@.take(at as int), separator);
        let ghost done = pieces@;
        assert(text@.take(at + 1).drop_last() =~= text@.take(at as int));
        assert(text@.take(at + 1).last() == letter);
        if letter == separator {
            let ghost finished = piece@;
            pieces.push(piece);
            piece = Vec::new();
            assert(piece_views(pieces@) =~= piece_views(done).push(finished));
            assert(piece_views(pieces@).push(piece@) =~= before.push(seq![]));
        } else {
            let ghost grown = piece@.push(letter);
            piece.push(letter);
            assert(piece_views(pieces@).push(piece@) =~= before.update(before.len() - 1, grown));
        }
        at += 1;
    }
    assert(text@.take(at as int) =~= text@);
    let ghost done = pieces@;
    let ghost last = piece@;
    pieces.push(piece);
    assert(piece_views(pieces@) =~= piece_views(done).push(last));
    pieces
}

/// A letter of the Latin alphabet in its large form, and any other character as
/// it is.
pub open spec fn enlarged(letter: char) -> char {
    if 'a' as int <= letter as int <= 'z' as int {
        (letter as int - 32) as char
    } else {
        letter
    }
}

/// A letter of the Latin alphabet in its small form, and any other character as
/// it is.
pub open spec fn diminished(letter: char) -> char {
    if 'A' as int <= letter as int <= 'Z' as int {
        (letter as int + 32) as char
    } else {
        letter
    }
}

/// A text in large letters.
pub open spec fn in_capitals(text: Seq<char>) -> Seq<char> {
    text.map_values(|letter: char| enlarged(letter))
}

/// A text in small letters.
pub open spec fn in_small_letters(text: Seq<char>) -> Seq<char> {
    text.map_values(|letter: char| diminished(letter))
}

/// A text in large letters.
pub fn capitals(text: &str) -> (capitals: String)
    ensures
        capitals@ == in_capitals(text@),
{
    let all = letters(text);
    let mut capitals = String::new();
    let mut at: usize = 0;
    assert(capitals@ =~= in_capitals(text@).take(0));
    while at < all.len()
        invariant
            at <= all.len(),
            all@ == text@,
            capitals@ == in_capitals(text@).take(at as int),
        decreases all.len() - at,
    {
        let letter: char = all[at];
        proof {
            lemma_code(letter);
        }
        let code: u32 = letter as u32;
        let other: char = if 0x61 <= code && code <= 0x7A {
            (code - 32) as u8 as char
        } else {
            letter
        };
        assert(other == enlarged(letter));
        capitals.push(other);
        at += 1;
        assert(capitals@ =~= in_capitals(text@).take(at as int));
    }
    assert(capitals@ =~= in_capitals(text@));
    capitals
}

/// A text in small letters.
pub fn small_letters(text: &str) -> (small: String)
    ensures
        small@ == in_small_letters(text@),
{
    let all = letters(text);
    let mut small = String::new();
    let mut at: usize = 0;
    assert(small@ =~= in_small_letters(text@).take(0));
    while at < all.len()
        invariant
            at <= all.len(),
            all@ == text@,
            small@ == in_small_letters(text@).take(at as int),
        decreases all.len() - at,
    {
        let letter: char = all[at];
        proof {
            lemma_code(letter);
        }
        let code: u32 = letter as u32;
        let other: char = if 0x41 <= code && code <= 0x5A {
            (code + 32) as u8 as char
        } else {
            letter
        };
        assert(other == diminished(letter));
        small.push(other);
        at += 1;
        assert(small@ =~= in_small_letters(text@).take(at as int));
    }
    assert(small@ =~= in_small_letters(text@));
    small
}

/// Whether a character is a decimal digit.
pub open spec fn is_digit(letter: char) -> bool {
    '0' as int <= letter as int <= '9' as int
}

/// The number that some digits write.
pub open spec fn value_of(digits: Seq<char>) -> nat
    decreases digits.len(),
{
    if digits.len() == 0 {
        0
    } else {
        value_of(digits.drop_last()) * 10 + (digits.last() as int - '0' as int) as nat
    }
}

/// The digits of a written number: the text, without a plus sign in front.
pub open spec fn digits_of(text: Seq<char>) -> Seq<char> {
    if text.len() > 0 && text[0] == '+' {
        text.skip(1)
    } else {
        text
    }
}

/// The number that a text writes: digits, at least one, perhaps behind a plus
/// sign, and nothing else; and no larger than the machine holds.
pub open spec fn number_in(text: Seq<char>) -> Option<usize> {
    let digits = digits_of(text);
    if digits.len() > 0 && (forall|i: int| 0 <= i < digits.len() ==> is_digit(#[trigger] digits[i]))
        && value_of(digits) <= usize::MAX {
        Some(value_of(digits) as usize)
    } else {
        None
    }
}

/// More digits never write a smaller number.
proof fn lemma_value_grows(digits: Seq<char>, n: int)
    requires
        0 <= n <= digits.len(),
        forall|i: int| 0 <= i < digits.len() ==> is_digit(#[trigger] digits[i]),
    ensures
        value_of(digits.take(n)) <= value_of(digits),
    decreases digits.len(),
{
    if n == digits.len() {
        assert(digits.take(n) =~= digits);
    } else {
        let shorter = digits.drop_last();
        assert forall|i: int| 0 <= i < shorter.len() implies is_digit(#[trigger] shorter[i]) by {
            assert(shorter[i] == digits[i]);
        }
        lemma_value_grows(shorter, n);
        assert(shorter.take(n) =~= digits.take(n));
        assert(is_digit(digits[digits.len() - 1]));
    }
}

/// Reads a number.
pub fn parse_number(text: &[char]) -> (number: Option<usize>)
    ensures
        number == number_in(text@),
{
    let first: usize = if text.len() > 0 && text[0] == '+' {
        1
    } else {
        0
    };
    let ghost digits = digits_of(text@);
    assert(digits =~= text@.skip(first as int));
    if first == text.len() {
        return None;
    }
    let mut value: usize = 0;
    let mut at: usize = first;
    assert(digits.take(0) =~= seq![]);
    while at < text.len()
        invariant
            first <= at <= text.len(),
            digits == digits_of(text@),
            digits == text@.skip(first as int),
            value == value_of(digits.take(at - first)),
            forall|i: int| 0 <= i < at - first ==> is_digit(#[trigger] digits[i]),
        decreases text.len() - at,
    {
        let letter: char = text[at];
        let ghost place = at - first;
        proof {
            lemma_code(letter);
            assert(digits[place] == letter);
            assert(digits.take(place + 1).drop_last() =~= digits.take(place));
            assert(digits.take(place + 1).last() == letter);
        }
        let code: u32 = letter as u32;
        if code < 0x30 || code > 0x39 {
            assert(!is_digit(digits[place]));
            return None;
        }
        let digit: usize = (code - 0x30) as usize;
        if value > usize::MAX / 10 || value * 10 > usize::MAX - digit {
            proof {
                let grown = value_of(digits.take(place + 1));
                assert(grown == value * 10 + digit);
                assert(grown > usize::MAX);
                if forall|i: int| 0 <= i < digits.len() ==> is_digit(#[trigger] digits[i]) {
                    lemma_value_grows(digits, place + 1);
                }
            }
            return None;
        }
        value = value * 10 + digit;
        at += 1;
    }
    assert(digits.take(at - first) =~= digits);
    Some(value)
}

/// A hexadecimal digit.
pub open spec fn hex_digit(d: nat) -> char
    recommends
        d < 16,
{
    if d < 10 {
        digit(d)
    } else {
        ('a' as int + (d - 10)) as char
    }
}

/// `n` written in hexadecimal, in small letters and without leading zeros.
pub open spec fn hex_of(n: nat) -> Seq<char>
    decreases n,
{
    if n < 16 {
        seq![hex_digit(n)]
    } else {
        hex_of(n / 16).push(hex_digit(n % 16))
    }
}

/// `n` in hexadecimal.
pub fn hexadecimal(n: u64) -> (text: String)
    ensures
        text@ == hex_of(n as nat),
    decreases n,
{
    let low: u8 = (n % 16) as u8;
    let letter: char = if low < 10 {
        (0x30 + low) as char
    } else {
        (0x61 + (low - 10)) as char
    };
    assert(letter == hex_digit((n % 16) as nat));
    let mut text = if n < 16 {
        String::new()
    } else {
        hexadecimal(n / 16)
    };
    let ghost before = text@;
    text.push(letter);
    assert(n < 16 ==> text@ =~= seq![letter]);
    text
}

/// Texts, as plain sequences.
pub open spec fn text_views(texts: Seq<String>) -> Seq<Seq<char>> {
    texts.map_values(|text: String| text@)
}

/// Texts one after another, with another between each two.
pub open spec fn strung(texts: Seq<Seq<char>>, between: Seq<char>) -> Seq<char>
    decreases texts.len(),
{
    if texts.len() == 0 {
        seq![]
    } else if texts.len() == 1 {
        texts[0]
    } else {
        strung(texts.drop_last(), between) + between + texts.last()
    }
}

/// Texts one after another, with another between each two.
pub fn join(texts: &Vec<String>, between: &str) -> (text: String)
    ensures
        text@ == strung(text_views(texts@), between@),
{
    let mut text = String::new();
    let ghost views = text_views(texts@);
    let mut at: usize = 0;
    assert(text@ =~= strung(views.take(0), between@));
    while at < texts.len()
        invariant
            at <= texts.len(),
            views == text_views(texts@),
            text@ == strung(views.take(at as int), between@),
        decreases texts.len() - at,
    {
        assert(views.take(at + 1).drop_last() =~= views.take(at as int));
        assert(views.take(at + 1).last() == texts@[at as int]@);
        if at > 0 {
            text.append(between);
        }
        let ghost before = text@;
        text.append(texts[at].as_str());
        assert(at == 0 ==> text@ =~= views[0]);
        at += 1;
        assert(text@ =~= strung(views.take(at as int), between@));
    }
    assert(views.take(at as int) =~= views);
    text
}

/// A truth value as a text.
pub open spec fn truth(value: bool) -> Seq<char> {
    if value {
        "true"@
    } else {
        "false"@
    }
}

/// A truth value as a text.
pub fn truth_text(value: bool) -> (text: String)
    ensures
        text@ == truth(value),
{
    if value {
        "true".to_owned()
    } else {
        "false".to_owned()
    }
}

/// How the standard library's `Debug` writes a text: in quotes, with what needs
/// it escaped.
pub uninterp spec fn quoted(text: Seq<char>) -> Seq<char>;

/// A text as the `Debug` format of `str` in the standard library writes it.
///
/// The contract names the result after the text.
#[verifier::external_body]
pub(crate) fn quote(text: &str) -> (quoted_text: String)
    ensures
        quoted_text@ == quoted(text@),
{
    format!("{text:?}")
}

/// What the standard library's `String::from_utf8_lossy` makes of bytes.
pub uninterp spec fn lossy_text(bytes: Seq<u8>) -> Seq<char>;

/// Bytes as text, through `String::from_utf8_lossy` of the standard library.
///
/// The contract names the result after the bytes.
#[verifier::external_body]
pub(crate) fn lossy(bytes: &[u8]) -> (text: String)
    ensures
        text@ == lossy_text(bytes@),
{
    String::from_utf8_lossy(bytes).into_owned()
}

/// Whether texts stand in order.
pub open spec fn ascending(texts: Seq<Seq<char>>) -> bool {
    forall|i: int, j: int|
        0 <= i < j < texts.len() ==> !precedes(#[trigger] texts[j], #[trigger] texts[i])
}

/// Puts texts in order.
pub fn sort_texts(texts: Vec<String>) -> (sorted: Vec<String>)
    ensures
        ascending(text_views(sorted@)),
        text_views(sorted@).to_multiset() == text_views(texts@).to_multiset(),
{
    broadcast use vstd::seq_lib::group_to_multiset_ensures;

    let ghost views = text_views(texts@);
    let mut sorted: Vec<String> = Vec::new();
    assert(text_views(sorted@) =~= views.take(0));
    for text in iter: texts
        invariant
            iter.seq() == texts@,
            views == text_views(texts@),
            ascending(text_views(sorted@)),
            text_views(sorted@).to_multiset() == views.take(iter.index()).to_multiset(),
    {
        broadcast use vstd::seq_lib::group_to_multiset_ensures;

        let ghost before = text_views(sorted@);
        let ghost view = text@;
        assert(views.take(iter.index() + 1) =~= views.take(iter.index()).push(view));
        let mut at: usize = sorted.len();
        while at > 0 && standing(text.as_str(), sorted[at - 1].as_str()) == Standing::Before
            invariant
                at <= sorted.len(),
                before == text_views(sorted@),
                view == text@,
                forall|i: int| at <= i < before.len() ==> precedes(view, #[trigger] before[i]),
            decreases at,
        {
            assert(before[at - 1] == sorted@[at - 1]@);
            at -= 1;
        }
        if at > 0 {
            assert(before[at - 1] == sorted@[at - 1]@);
            assert(!precedes(view, before[at - 1])) by {
                lemma_texts_are_ordered(view, view);
            }
        }
        sorted.insert(at, text);
        assert(text_views(sorted@) =~= before.insert(at as int, view));
        proof {
            let after = before.insert(at as int, view);
            assert forall|i: int, j: int| 0 <= i < j < after.len() implies !precedes(
                #[trigger] after[j],
                #[trigger] after[i],
            ) by {
                if i == at {
                    assert(after[j] == before[j - 1]);
                    lemma_texts_are_ordered(view, before[j - 1]);
                } else if j == at {
                    assert(after[i] == before[i]);
                    if i < at - 1 {
                        assert(!precedes(before[at - 1], before[i]));
                        if precedes(view, before[i]) {
                            lemma_texts_are_ordered(before[i], before[at - 1]);
                            if before[i] != before[at - 1] {
                                lemma_order_is_transitive(view, before[i], before[at - 1]);
                            }
                        }
                    }
                } else {
                    let a = if i < at {
                        i
                    } else {
                        i - 1
                    };
                    let b = if j < at {
                        j
                    } else {
                        j - 1
                    };
                    assert(after[i] == before[a] && after[j] == before[b]);
                }
            }
            vstd::seq_lib::to_multiset_insert(before, at as int, view);
        }
    }
    assert(views.take(views.len() as int) =~= views);
    sorted
}

/// Whether two texts are the same.
pub fn same(a: &String, b: &str) -> (is: bool)
    ensures
        is == (a@ == b@),
{
    *a == b.to_owned()
}

} // verus!
