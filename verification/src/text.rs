//! Text as sequences of characters: decoding, lines, words and numbers.

use vstd::prelude::*;
use vstd::utf8::{decode_utf8, encode_utf8, valid_utf8};

verus! {

/// What `String::from_utf8_lossy` makes of `bytes`.
pub uninterp spec fn utf8_lossy(bytes: Seq<u8>) -> Seq<char>;

/// The text of `bytes`: what they encode in UTF-8, or, where they are not valid, what
/// `String::from_utf8_lossy` makes of them.
pub open spec fn text_of(bytes: Seq<u8>) -> Seq<char> {
    if valid_utf8(bytes) {
        decode_utf8(bytes)
    } else {
        utf8_lossy(bytes)
    }
}

/// `String::from_utf8_lossy`: the text depends on the bytes alone, and valid UTF-8 is decoded as
/// it stands. Which replacement characters stand for invalid bytes is left to the name.
#[verifier::external_body]
fn from_utf8_lossy(bytes: &[u8]) -> (text: String)
    ensures
        text@ == utf8_lossy(bytes@),
        valid_utf8(bytes@) ==> text@ == decode_utf8(bytes@),
{
    String::from_utf8_lossy(bytes).into_owned()
}

/// `String::from_iter` over characters: the string of exactly these characters, in order.
#[verifier::external_body]
pub(crate) fn string_of(chars: &[char]) -> (text: String)
    ensures
        text@ == chars@,
{
    String::from_iter(chars)
}

/// The characters of a string.
pub(crate) fn chars_of(text: &str) -> (chars: Vec<char>)
    ensures
        chars@ == text@,
{
    let mut chars: Vec<char> = Vec::new();
    for c in it: text.chars()
        invariant
            it.seq() == text@,
            chars@ == text@.take(it.index() as int),
    {
        chars.push(c);
    }
    assert(text@.take(text@.len() as int) =~= text@);
    chars
}

/// Decodes `bytes` as UTF-8, putting replacement characters where they are not valid.
pub fn decode_lossy(bytes: &[u8]) -> (chars: Vec<char>)
    ensures
        chars@ == text_of(bytes@),
        valid_utf8(bytes@) ==> chars@ == decode_utf8(bytes@),
        !valid_utf8(bytes@) ==> chars@ == utf8_lossy(bytes@),
{
    let text = from_utf8_lossy(bytes);
    chars_of(text.as_str())
}

/// A text is read back from the bytes that encode it.
pub proof fn lemma_text_of_encoded(chars: Seq<char>)
    ensures
        text_of(encode_utf8(chars)) == chars,
{
    broadcast use {vstd::utf8::encode_utf8_valid_utf8, vstd::utf8::encode_utf8_decode_utf8};

    assert(valid_utf8(encode_utf8(chars)));
    assert(decode_utf8(encode_utf8(chars)) == chars);
}

/// Whether `c` has Unicode's `White_Space` property.
pub open spec fn whitespace(c: char) -> bool {
    let u = c as u32;
    ||| 0x09 <= u <= 0x0d
    ||| u == 0x20
    ||| u == 0x85
    ||| u == 0xa0
    ||| u == 0x1680
    ||| 0x2000 <= u <= 0x200a
    ||| u == 0x2028
    ||| u == 0x2029
    ||| u == 0x202f
    ||| u == 0x205f
    ||| u == 0x3000
}

/// Whether `c` has Unicode's `White_Space` property.
pub fn is_whitespace(c: char) -> (yes: bool)
    ensures
        yes == whitespace(c),
{
    let u: u32 = c as u32;
    (0x09 <= u && u <= 0x0d) || u == 0x20 || u == 0x85 || u == 0xa0 || u == 0x1680 || (0x2000 <= u
        && u <= 0x200a) || u == 0x2028 || u == 0x2029 || u == 0x202f || u == 0x205f || u == 0x3000
}

/// The number of characters before the first line feed of `text` (all of them if there is none).
pub open spec fn line_len(text: Seq<char>) -> nat
    decreases text.len(),
{
    if text.len() == 0 || text[0] == '\n' {
        0
    } else {
        1 + line_len(text.drop_first())
    }
}

/// A line without the carriage return that its line feed may follow.
pub open spec fn without_cr(line: Seq<char>) -> Seq<char> {
    if line.len() > 0 && line.last() == '\r' {
        line.drop_last()
    } else {
        line
    }
}

/// The lines of `text`: each ends in a line feed, or in a carriage return and a line feed, which
/// are not part of it; the last line may go without either.
pub open spec fn lines_of(text: Seq<char>) -> Seq<Seq<char>>
    decreases text.len(),
{
    let n = line_len(text) as int;
    if text.len() == 0 {
        seq![]
    } else if n < text.len() {
        seq![without_cr(text.take(n))] + lines_of(text.skip(n + 1))
    } else {
        seq![text]
    }
}

/// The number of characters before the first whitespace of `text` (all of them if there is none).
pub open spec fn word_len(text: Seq<char>) -> nat
    decreases text.len(),
{
    if text.len() == 0 || whitespace(text[0]) {
        0
    } else {
        1 + word_len(text.drop_first())
    }
}

/// The words of `text`: its longest runs of characters other than whitespace, in order.
pub open spec fn words_of(text: Seq<char>) -> Seq<Seq<char>>
    decreases text.len(),
    via words_of_decreases
{
    if text.len() == 0 {
        seq![]
    } else if word_len(text) == 0 {
        words_of(text.drop_first())
    } else {
        seq![text.take(word_len(text) as int)] + words_of(text.skip(word_len(text) as int))
    }
}

#[via_fn]
proof fn words_of_decreases(text: Seq<char>) {
    lemma_word_len_bound(text);
}

pub(crate) proof fn lemma_word_len_bound(text: Seq<char>)
    ensures
        word_len(text) <= text.len(),
    decreases text.len(),
{
    if text.len() > 0 && !whitespace(text[0]) {
        lemma_word_len_bound(text.drop_first());
    }
}

proof fn lemma_line_len(text: Seq<char>, n: int)
    requires
        0 <= n <= text.len(),
        forall|i: int| 0 <= i < n ==> text[i] != '\n',
        n < text.len() ==> text[n] == '\n',
    ensures
        line_len(text) == n,
    decreases n,
{
    if n > 0 {
        lemma_line_len(text.drop_first(), n - 1);
    }
}

proof fn lemma_word_len(text: Seq<char>, n: int)
    requires
        0 <= n <= text.len(),
        forall|i: int| 0 <= i < n ==> !whitespace(text[i]),
        n < text.len() ==> whitespace(text[n]),
    ensures
        word_len(text) == n,
    decreases n,
{
    if n > 0 {
        lemma_word_len(text.drop_first(), n - 1);
    }
}

/// Copies the characters from `start` up to `end`.
pub(crate) fn chars_between(text: &[char], start: usize, end: usize) -> (part: Vec<char>)
    requires
        start <= end <= text@.len(),
    ensures
        part@ == text@.subrange(start as int, end as int),
{
    let mut part: Vec<char> = Vec::new();
    let mut i: usize = start;
    while i < end
        invariant
            start <= i <= end <= text@.len(),
            part@ == text@.subrange(start as int, i as int),
        decreases end - i,
    {
        part.push(text[i]);
        i += 1;
    }
    part
}

/// Splits `text` into its lines.
pub fn lines(text: &[char]) -> (lines: Vec<Vec<char>>)
    ensures
        lines.deep_view() == lines_of(text@),
{
    let mut lines: Vec<Vec<char>> = Vec::new();
    let mut start: usize = 0;
    assert(text@.skip(0) =~= text@);
    assert(lines.deep_view() + lines_of(text@) =~= lines_of(text@));
    while start < text.len()
        invariant
            start <= text@.len(),
            lines.deep_view() + lines_of(text@.skip(start as int)) == lines_of(text@),
        decreases text@.len() - start,
    {
        let mut end: usize = start;
        while end < text.len() && text[end] != '\n'
            invariant
                start <= end <= text@.len(),
                forall|i: int| start <= i < end ==> text@[i] != '\n',
            decreases text@.len() - end,
        {
            end += 1;
        }
        let ghost rest = text@.skip(start as int);
        let ghost before = lines.deep_view();
        proof {
            lemma_line_len(rest, end - start);
        }
        if end < text.len() {
            let stop: usize = if end > start && text[end - 1] == '\r' {
                end - 1
            } else {
                end
            };
            let line = chars_between(text, start, stop);
            assert(line@ =~= without_cr(rest.take(end - start)));
            lines.push(line);
            assert(line.deep_view() =~= line@);
            assert(lines.deep_view() =~= before.push(line@));
            assert(text@.skip(end + 1) =~= rest.skip(end - start + 1));
            assert(lines.deep_view() + lines_of(text@.skip(end + 1)) =~= before + lines_of(rest));
            start = end + 1;
        } else {
            let line = chars_between(text, start, end);
            assert(line@ =~= rest);
            lines.push(line);
            assert(line.deep_view() =~= line@);
            assert(lines.deep_view() =~= before.push(line@));
            assert(lines.deep_view() + lines_of(text@.skip(end as int)) =~= before + lines_of(
                rest,
            ));
            start = end;
        }
    }
    assert(lines.deep_view() + lines_of(text@.skip(start as int)) =~= lines.deep_view());
    lines
}

/// Splits `text` into its words.
pub fn words(text: &[char]) -> (words: Vec<Vec<char>>)
    ensures
        words.deep_view() == words_of(text@),
{
    let mut words: Vec<Vec<char>> = Vec::new();
    let mut start: usize = 0;
    assert(text@.skip(0) =~= text@);
    assert(words.deep_view() + words_of(text@) =~= words_of(text@));
    while start < text.len()
        invariant
            start <= text@.len(),
            words.deep_view() + words_of(text@.skip(start as int)) == words_of(text@),
        decreases text@.len() - start,
    {
        let mut end: usize = start;
        while end < text.len() && !is_whitespace(text[end])
            invariant
                start <= end <= text@.len(),
                forall|i: int| start <= i < end ==> !whitespace(text@[i]),
            decreases text@.len() - end,
        {
            end += 1;
        }
        let ghost rest = text@.skip(start as int);
        let ghost before = words.deep_view();
        proof {
            lemma_word_len(rest, end - start);
        }
        if end == start {
            assert(text@.skip(start + 1) =~= rest.drop_first());
            start += 1;
        } else {
            let word = chars_between(text, start, end);
            assert(word@ =~= rest.take(end - start));
            words.push(word);
            assert(word.deep_view() =~= word@);
            assert(words.deep_view() =~= before.push(word@));
            assert(text@.skip(end as int) =~= rest.skip(end - start));
            assert(words.deep_view() + words_of(text@.skip(end as int)) =~= before + words_of(
                rest,
            ));
            start = end;
        }
    }
    assert(words.deep_view() + words_of(text@.skip(start as int)) =~= words.deep_view());
    words
}

/// Whether two texts are the same.
pub(crate) fn same_chars(a: &[char], b: &[char]) -> (same: bool)
    ensures
        same == (a@ == b@),
{
    if a.len() != b.len() {
        return false;
    }
    let mut i: usize = 0;
    while i < a.len()
        invariant
            a@.len() == b@.len(),
            i <= a@.len(),
            forall|k: int| 0 <= k < i ==> a@[k] == b@[k],
        decreases a@.len() - i,
    {
        if a[i] != b[i] {
            return false;
        }
        i += 1;
    }
    assert(a@ =~= b@);
    true
}

/// Whether the characters are exactly those of `text`.
pub(crate) fn same_text(chars: &[char], text: &str) -> (same: bool)
    ensures
        same == (chars@ == text@),
{
    let other = chars_of(text);
    same_chars(chars, other.as_slice())
}

/// Whether `chars` begins with `prefix`.
pub open spec fn begins_with(chars: Seq<char>, prefix: Seq<char>) -> bool {
    prefix.len() <= chars.len() && chars.take(prefix.len() as int) == prefix
}

/// Whether the characters begin with those of `prefix`.
pub(crate) fn starts_with(chars: &[char], prefix: &str) -> (yes: bool)
    ensures
        yes == begins_with(chars@, prefix@),
{
    let head = chars_of(prefix);
    if head.len() > chars.len() {
        return false;
    }
    let part = chars_between(chars, 0, head.len());
    same_text(part.as_slice(), prefix)
}

/// Whether every character is a decimal digit.
pub open spec fn all_digits(chars: Seq<char>) -> bool {
    forall|i: int| 0 <= i < chars.len() ==> '0' <= #[trigger] chars[i] <= '9'
}

/// The number that a run of decimal digits stands for.
pub open spec fn digits_value(chars: Seq<char>) -> nat
    decreases chars.len(),
{
    if chars.len() == 0 {
        0
    } else {
        digits_value(chars.drop_last()) * 10 + (chars.last() as u32 - '0' as u32) as nat
    }
}

/// The digits of a number that may have a plus sign before them.
pub open spec fn without_plus(chars: Seq<char>) -> Seq<char> {
    if chars.len() > 0 && chars[0] == '+' {
        chars.drop_first()
    } else {
        chars
    }
}

/// The unsigned number that `chars` writes in decimal: nothing but digits, at least one of them,
/// perhaps after a plus sign, and of a value no larger than `max`.
pub open spec fn unsigned_of(chars: Seq<char>, max: nat) -> Option<nat> {
    let digits = without_plus(chars);
    if digits.len() > 0 && all_digits(digits) && digits_value(digits) <= max {
        Some(digits_value(digits))
    } else {
        None
    }
}

/// A longer run of digits does not stand for a smaller number.
proof fn lemma_digits_value_grows(chars: Seq<char>, n: int)
    requires
        0 <= n <= chars.len(),
        all_digits(chars),
    ensures
        digits_value(chars.take(n)) <= digits_value(chars),
    decreases chars.len(),
{
    if n == chars.len() {
        assert(chars.take(n) =~= chars);
    } else {
        let shorter = chars.drop_last();
        assert forall|i: int| 0 <= i < shorter.len() implies '0' <= #[trigger] shorter[i] <= '9' by {
            assert(shorter[i] == chars[i]);
        }
        lemma_digits_value_grows(shorter, n);
        assert(shorter.take(n) =~= chars.take(n));
    }
}

/// Reads an unsigned decimal number no larger than `max`.
pub fn parse_unsigned(chars: &[char], max: u64) -> (value: Option<u64>)
    ensures
        value is Some <==> unsigned_of(chars@, max as nat) is Some,
        value is Some ==> value->0 == unsigned_of(chars@, max as nat)->0,
{
    let first: usize = if chars.len() > 0 && chars[0] == '+' {
        1
    } else {
        0
    };
    let ghost digits = without_plus(chars@);
    assert(digits =~= chars@.skip(first as int));
    if first == chars.len() {
        return None;
    }
    let mut value: u64 = 0;
    let mut i: usize = first;
    assert(digits.take(0) =~= Seq::<char>::empty());
    while i < chars.len()
        invariant
            first <= i <= chars@.len(),
            digits == chars@.skip(first as int),
            digits == without_plus(chars@),
            value <= max,
            value == digits_value(digits.take(i - first)),
            forall|k: int| 0 <= k < i - first ==> '0' <= #[trigger] digits[k] <= '9',
        decreases chars@.len() - i,
    {
        let c = chars[i];
        assert(c == digits[i - first]);
        if c < '0' || '9' < c {
            return None;
        }
        let digit: u64 = (c as u32 - '0' as u32) as u64;
        let ghost longer = digits.take(i - first + 1);
        assert(longer.drop_last() =~= digits.take(i - first));
        assert(longer.last() == c);
        let too_large = digit > max || value > (max - digit) / 10;
        if too_large {
            proof {
                if all_digits(digits) {
                    lemma_digits_value_grows(digits, i - first + 1);
                }
            }
            return None;
        }
        value = value * 10 + digit;
        i += 1;
    }
    assert(digits.take(digits.len() as int) =~= digits);
    Some(value)
}

/// The decimal digit for a number below ten.
pub open spec fn digit_char(d: nat) -> char {
    (48 + d) as char
}

/// The decimal digits of `n`, without leading zeros.
pub open spec fn decimal_of(n: nat) -> Seq<char>
    decreases n,
{
    if n < 10 {
        seq![digit_char(n)]
    } else {
        decimal_of(n / 10).push(digit_char(n % 10))
    }
}

/// Writes `n` in decimal.
pub fn decimal(n: u64) -> (chars: Vec<char>)
    ensures
        chars@ == decimal_of(n as nat),
    decreases n,
{
    let mut chars: Vec<char> = if n < 10 {
        Vec::new()
    } else {
        decimal(n / 10)
    };
    let digit: u8 = 48 + (n % 10) as u8;
    chars.push(digit as char);
    assert(chars@ =~= decimal_of(n as nat));
    chars
}

/// A number is read back from the decimal digits that it is written with.
pub proof fn lemma_decimal_round_trip(n: nat, max: nat)
    requires
        n <= max,
    ensures
        unsigned_of(decimal_of(n), max) == Some(n),
{
    lemma_decimal_digits(n);
}

/// The decimal digits of a number are digits, and stand for it.
pub(crate) proof fn lemma_decimal_digits(n: nat)
    ensures
        decimal_of(n).len() > 0,
        all_digits(decimal_of(n)),
        digits_value(decimal_of(n)) == n,
    decreases n,
{
    if n >= 10 {
        lemma_decimal_digits(n / 10);
        assert(decimal_of(n).drop_last() =~= decimal_of(n / 10));
    } else {
        assert(decimal_of(n).drop_last() =~= Seq::<char>::empty());
        assert(digits_value(Seq::<char>::empty()) == 0);
    }
    assert(decimal_of(n).last() == digit_char(n % 10));
    assert(digit_char(n % 10) as u32 == 48 + n % 10);
    assert(n == n / 10 * 10 + n % 10);
}

/// The text of these lines: each with a line feed behind it.
pub open spec fn joined(lines: Seq<Seq<char>>) -> Seq<char>
    decreases lines.len(),
{
    if lines.len() == 0 {
        seq![]
    } else {
        lines[0] + seq!['\n'] + joined(lines.drop_first())
    }
}

/// Whether `line` can be one line of a text: no line feed is in it, and no carriage return at its
/// end.
pub open spec fn is_line(line: Seq<char>) -> bool {
    &&& forall|i: int| 0 <= i < line.len() ==> #[trigger] line[i] != '\n'
    &&& line.len() > 0 ==> line.last() != '\r'
}

/// Lines are read back from the text that they are joined to.
pub proof fn lemma_lines_of_joined(lines: Seq<Seq<char>>)
    requires
        forall|i: int| 0 <= i < lines.len() ==> is_line(#[trigger] lines[i]),
    ensures
        lines_of(joined(lines)) == lines,
    decreases lines.len(),
{
    if lines.len() > 0 {
        let line = lines[0];
        let rest = lines.drop_first();
        let text = joined(lines);
        let n = line.len() as int;
        assert(is_line(line));
        assert forall|i: int| 0 <= i < rest.len() implies is_line(#[trigger] rest[i]) by {
            assert(rest[i] == lines[i + 1]);
        }
        lemma_lines_of_joined(rest);
        assert forall|i: int| 0 <= i < n implies text[i] != '\n' by {
            assert(text[i] == line[i]);
        }
        lemma_line_len(text, n);
        assert(text.take(n) =~= line);
        assert(text.skip(n + 1) =~= joined(rest));
        assert(lines =~= seq![line] + rest);
    }
}

/// Whether `word` is one word: not empty, and without whitespace.
pub open spec fn is_word(word: Seq<char>) -> bool {
    &&& word.len() > 0
    &&& forall|i: int| 0 <= i < word.len() ==> !whitespace(#[trigger] word[i])
}

/// A word is read back as it stands.
pub proof fn lemma_words_of_word(word: Seq<char>)
    requires
        is_word(word),
    ensures
        words_of(word) == seq![word],
{
    let n = word.len() as int;
    lemma_word_len(word, n);
    assert(word.take(n) =~= word);
    assert(word.skip(n) =~= Seq::<char>::empty());
    assert(words_of(word.skip(n)) =~= Seq::<Seq<char>>::empty());
    assert(words_of(word) =~= seq![word]);
}

/// A word that a space follows is the first word of a text.
pub proof fn lemma_words_of_spaced(word: Seq<char>, rest: Seq<char>)
    requires
        is_word(word),
    ensures
        words_of(word + seq![' '] + rest) == seq![word] + words_of(rest),
{
    let text = word + seq![' '] + rest;
    let n = word.len() as int;
    assert forall|i: int| 0 <= i < n implies !whitespace(text[i]) by {
        assert(text[i] == word[i]);
    }
    assert(text[n] == ' ');
    lemma_word_len(text, n);
    assert(text.take(n) =~= word);
    let tail = text.skip(n);
    assert(tail[0] == ' ');
    assert(word_len(tail) == 0);
    assert(tail.drop_first() =~= rest);
    assert(words_of(tail) == words_of(rest));
}

/// The text of valid bytes is what they encode: encoding it gives the bytes again.
pub proof fn lemma_encoded_text_of(bytes: Seq<u8>)
    requires
        valid_utf8(bytes),
    ensures
        encode_utf8(text_of(bytes)) == bytes,
{
    vstd::utf8::decode_utf8_encode_utf8(bytes);
}

/// A line ends at its line feed, and a carriage return right before that belongs to the end: a line
/// that stands before either end is the first line of a text, as it is.
pub proof fn lemma_first_line(line: Seq<char>, with_cr: bool, rest: Seq<char>)
    requires
        forall|i: int| 0 <= i < line.len() ==> #[trigger] line[i] != '\n',
        !with_cr && line.len() > 0 ==> line.last() != '\r',
    ensures
        with_cr ==> lines_of(line + seq!['\r', '\n'] + rest) == seq![line] + lines_of(rest),
        !with_cr ==> lines_of(line + seq!['\n'] + rest) == seq![line] + lines_of(rest),
{
    if with_cr {
        let text = line + seq!['\r', '\n'] + rest;
        let n = line.len() as int;
        assert(text[n] == '\r' && text[n + 1] == '\n');
        assert forall|i: int| 0 <= i < n + 1 implies text[i] != '\n' by {
            if i < n {
                assert(text[i] == line[i]);
            }
        }
        lemma_line_len(text, n + 1);
        assert(without_cr(text.take(n + 1)) =~= line);
        assert(text.skip(n + 2) =~= rest);
    } else {
        let text = line + seq!['\n'] + rest;
        let n = line.len() as int;
        assert(text[n] == '\n');
        assert forall|i: int| 0 <= i < n implies text[i] != '\n' by {
            assert(text[i] == line[i]);
        }
        lemma_line_len(text, n);
        assert(text.take(n) =~= line);
        assert(text.skip(n + 1) =~= rest);
    }
}

/// A text without a line feed is one line, as it is, unless it is empty.
pub proof fn lemma_last_line(line: Seq<char>)
    requires
        forall|i: int| 0 <= i < line.len() ==> #[trigger] line[i] != '\n',
    ensures
        line.len() > 0 ==> lines_of(line) == seq![line],
        line.len() == 0 ==> lines_of(line) == Seq::<Seq<char>>::empty(),
{
    lemma_line_len(line, line.len() as int);
}

/// Whitespace before a text adds no word to it.
pub proof fn lemma_words_behind_gap(gap: char, rest: Seq<char>)
    requires
        whitespace(gap),
    ensures
        words_of(seq![gap] + rest) == words_of(rest),
        words_of(Seq::<char>::empty()) == Seq::<Seq<char>>::empty(),
{
    let text = seq![gap] + rest;
    assert(text[0] == gap);
    assert(word_len(text) == 0);
    assert(text.drop_first() =~= rest);
}

/// A word that any whitespace follows is the first word of a text.
pub proof fn lemma_first_word(word: Seq<char>, gap: char, rest: Seq<char>)
    requires
        is_word(word),
        whitespace(gap),
    ensures
        words_of(word + seq![gap] + rest) == seq![word] + words_of(rest),
{
    let text = word + seq![gap] + rest;
    let n = word.len() as int;
    assert forall|i: int| 0 <= i < n implies !whitespace(text[i]) by {
        assert(text[i] == word[i]);
    }
    assert(text[n] == gap);
    lemma_word_len(text, n);
    assert(text.take(n) =~= word);
    let tail = text.skip(n);
    assert(tail =~= seq![gap] + rest);
    lemma_words_behind_gap(gap, rest);
}

/// The words of a text with one space between them.
pub open spec fn spaced(words: Seq<Seq<char>>) -> Seq<char>
    decreases words.len(),
{
    if words.len() == 0 {
        seq![]
    } else if words.len() == 1 {
        words[0]
    } else {
        words[0] + seq![' '] + spaced(words.drop_first())
    }
}

/// Words are read back from the text that they are put together to, which is one line.
pub proof fn lemma_words_of_text(words: Seq<Seq<char>>)
    requires
        forall|i: int| 0 <= i < words.len() ==> is_word(#[trigger] words[i]),
    ensures
        words_of(spaced(words)) == words,
        is_line(spaced(words)),
        words.len() > 0 ==> spaced(words).len() > 0 && !whitespace(spaced(words).last()),
    decreases words.len(),
{
    let text = spaced(words);
    if words.len() == 0 {
        assert(words_of(text) =~= words);
    } else {
        let word = words[0];
        assert(is_word(word));
        assert forall|i: int| 0 <= i < word.len() implies #[trigger] word[i] != '\n' by {
            assert(!whitespace(word[i]));
        }
        if words.len() == 1 {
            lemma_words_of_word(word);
            assert(words =~= seq![word]);
            assert(!whitespace(word[word.len() - 1]));
        } else {
            let rest = words.drop_first();
            assert forall|i: int| 0 <= i < rest.len() implies is_word(#[trigger] rest[i]) by {
                assert(rest[i] == words[i + 1]);
            }
            lemma_words_of_text(rest);
            lemma_first_word(word, ' ', spaced(rest));
            assert(words =~= seq![word] + rest);
            let tail = spaced(rest);
            assert forall|i: int| 0 <= i < text.len() implies #[trigger] text[i] != '\n' by {
                if i < word.len() {
                    assert(text[i] == word[i]);
                } else if i > word.len() {
                    assert(text[i] == tail[i - word.len() - 1]);
                }
            }
            assert(text.last() == tail.last());
        }
    }
}

/// A text begins with a prefix exactly where it is the prefix and then something.
pub proof fn lemma_prefix(chars: Seq<char>, prefix: Seq<char>, rest: Seq<char>)
    ensures
        begins_with(prefix + rest, prefix),
        begins_with(chars, prefix) ==> chars == prefix + chars.skip(prefix.len() as int),
{
    assert((prefix + rest).take(prefix.len() as int) =~= prefix);
    if begins_with(chars, prefix) {
        let n = prefix.len() as int;
        assert(chars =~= chars.take(n) + chars.skip(n));
    }
}

/// What one digit stands for, and what one digit more makes of a number: ten times as much, and
/// the digit. A number that is too large is none, and stays so with more digits.
pub proof fn lemma_one_more_digit(digits: Seq<char>, digit: char, max: nat)
    requires
        forall|i: int| 0 <= i < digits.len() ==> '0' <= #[trigger] digits[i] <= '9',
        '0' <= digit <= '9',
    ensures
        ({
            let d = digit as u32 - '0' as u32;
            let before = unsigned_of(digits, max);
            let after = unsigned_of(digits.push(digit), max);
            &&& digits.len() == 0 ==> before is None
            &&& digits.len() == 0 && d <= max ==> after == Some(d as nat)
            &&& digits.len() == 0 && d > max ==> after is None
            &&& digits.len() > 0 && before is None ==> after is None
            &&& before is Some && before->0 * 10 + d <= max ==> after == Some(
                (before->0 * 10 + d) as nat,
            )
            &&& before is Some && before->0 * 10 + d > max ==> after is None
        }),
{
    let all = digits.push(digit);
    assert forall|i: int| 0 <= i < all.len() implies '0' <= #[trigger] all[i] <= '9' by {
        if i < digits.len() {
            assert(all[i] == digits[i]);
        }
    }
    assert(all[0] != '+');
    if digits.len() > 0 {
        assert(digits[0] != '+');
    }
    assert(all_digits(digits) && all_digits(all));
    assert(all.drop_last() =~= digits);
    assert(digits_value(all) == digits_value(digits) * 10 + (digit as u32 - '0' as u32));
    if digits.len() == 0 {
        assert(digits_value(digits) == 0);
    }
}

/// One plus sign before a number does not change it; nothing but digits can follow; and a sign
/// alone, or nothing at all, is no number.
pub proof fn lemma_signs(chars: Seq<char>, max: nat)
    ensures
        chars.len() > 0 && chars[0] != '+' ==> unsigned_of(seq!['+'] + chars, max) == unsigned_of(
            chars,
            max,
        ),
        chars.len() > 0 && chars[0] == '+' ==> unsigned_of(seq!['+'] + chars, max) is None,
        unsigned_of(seq!['+'], max) is None,
        unsigned_of(Seq::<char>::empty(), max) is None,
        unsigned_of(chars, max) is Some ==> {
            &&& unsigned_of(chars, max)->0 <= max
            &&& forall|i: int|
                0 <= i < chars.len() ==> '0' <= #[trigger] chars[i] <= '9' || (i == 0 && chars[i]
                    == '+')
        },
{
    let signed = seq!['+'] + chars;
    assert(signed.drop_first() =~= chars);
    assert(seq!['+'].drop_first() =~= Seq::<char>::empty());
    if chars.len() > 0 && chars[0] == '+' {
        assert(!all_digits(chars));
    }
    if unsigned_of(chars, max) is Some {
        let digits = without_plus(chars);
        assert forall|i: int| 0 <= i < chars.len() implies '0' <= #[trigger] chars[i] <= '9' || (i
            == 0 && chars[i] == '+') by {
            if chars[0] == '+' {
                if i > 0 {
                    assert(digits[i - 1] == chars[i]);
                }
            } else {
                assert(digits[i] == chars[i]);
            }
        }
    }
}

/// A number is written with digits alone, without leading zeros; its last digit is its remainder
/// by ten, and the others are the digits of its tenth.
pub proof fn lemma_decimal_form(n: nat, d: nat)
    requires
        d < 10,
    ensures
        forall|i: int|
            0 <= i < decimal_of(n).len() ==> '0' <= #[trigger] decimal_of(n)[i] <= '9',
        decimal_of(n).len() > 0,
        n > 0 ==> decimal_of(n)[0] != '0',
        decimal_of(d) == seq![(48 + d) as char],
        n > 0 ==> decimal_of(10 * n + d) == decimal_of(n).push((48 + d) as char),
    decreases n,
{
    lemma_decimal_digits(n);
    if n >= 10 {
        lemma_decimal_form(n / 10, d);
        assert(decimal_of(n)[0] == decimal_of(n / 10)[0]);
    }
    if n > 0 {
        assert((10 * n + d) / 10 == n && (10 * n + d) % 10 == d);
    }
}

} // verus!
