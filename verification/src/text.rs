//! Text as a sequence of characters: splitting, trimming and number rendering.

use vstd::prelude::*;

verus! {

/// `String::push` appends one character to the end of the string.
pub assume_specification[ String::push ](text: &mut String, c: char)
    ensures
        final(text)@ == old(text)@.push(c),
;

/// The text that `String::from_utf8_lossy` makes of `bytes`.
pub uninterp spec fn utf8_lossy(bytes: Seq<u8>) -> Seq<char>;

/// `String::from_utf8_lossy` gives a text that depends on the bytes alone. Bytes
/// that are valid UTF-8 give the text that they encode; of other bytes nothing
/// more is claimed than that the result has a name.
#[verifier::external_body]
pub(crate) fn text_from_utf8_lossy(bytes: &[u8]) -> (text: String)
    ensures
        text@ == utf8_lossy(bytes@),
        vstd::utf8::valid_utf8(bytes@) ==> text@ == vstd::utf8::decode_utf8(bytes@),
{
    String::from_utf8_lossy(bytes).into_owned()
}

/// The characters of `text`.
pub fn chars_of(text: &str) -> (chars: Vec<char>)
    ensures
        chars@ == text@,
{
    let mut chars: Vec<char> = Vec::new();
    for c in it: text.chars()
        invariant
            chars@ == it.seq().take(it.index()),
            it.seq() == text@,
    {
        chars.push(c);
    }
    chars
}

/// The text made of `chars`.
pub fn text_of(chars: &[char]) -> (text: String)
    ensures
        text@ == chars@,
{
    let mut text = String::new();
    for i in 0..chars.len()
        invariant
            text@ == chars@.take(i as int),
    {
        text.push(chars[i]);
    }
    text
}

/// Whether two sequences of characters are the same.
pub fn same_chars(a: &[char], b: &[char]) -> (same: bool)
    ensures
        same == (a@ == b@),
{
    if a.len() != b.len() {
        return false;
    }
    for i in 0..a.len()
        invariant
            a@.len() == b@.len(),
            forall|j: int| 0 <= j < i ==> a@[j] == b@[j],
    {
        if a[i] != b[i] {
            return false;
        }
    }
    assert(a@ =~= b@);
    true
}

/// Whether two texts are the same: they are where their bytes are.
pub fn same_text(a: &str, b: &str) -> (same: bool)
    ensures
        same == (a@ == b@),
{
    let a_bytes = a.as_bytes();
    let b_bytes = b.as_bytes();
    if a_bytes.len() != b_bytes.len() {
        return false;
    }
    for i in 0..a_bytes.len()
        invariant
            a_bytes@ == vstd::utf8::encode_utf8(a@),
            b_bytes@ == vstd::utf8::encode_utf8(b@),
            a_bytes@.len() == b_bytes@.len(),
            forall|j: int| 0 <= j < i ==> a_bytes@[j] == b_bytes@[j],
    {
        if a_bytes[i] != b_bytes[i] {
            return false;
        }
    }
    proof {
        assert(a_bytes@ =~= b_bytes@);
        vstd::utf8::encode_utf8_decode_utf8(a@);
        vstd::utf8::encode_utf8_decode_utf8(b@);
    }
    true
}

/// Whether `text` holds no character.
pub fn is_empty(text: &str) -> (empty: bool)
    ensures
        empty == (text@.len() == 0),
{
    let empty = text.as_bytes().len() == 0;
    proof {
        if empty {
            assert(vstd::utf8::encode_utf8(text@) =~= Seq::<u8>::empty());
            vstd::utf8::encode_utf8_decode_utf8(text@);
            assert(vstd::utf8::decode_utf8(Seq::<u8>::empty()).len() == 0);
        }
    }
    empty
}

/// Whether `c` has the Unicode property `White_Space`.
pub open spec fn is_white_space(c: char) -> bool {
    ||| '\u{9}' <= c <= '\u{d}'
    ||| c == '\u{20}'
    ||| c == '\u{85}'
    ||| c == '\u{a0}'
    ||| c == '\u{1680}'
    ||| '\u{2000}' <= c <= '\u{200a}'
    ||| c == '\u{2028}'
    ||| c == '\u{2029}'
    ||| c == '\u{202f}'
    ||| c == '\u{205f}'
    ||| c == '\u{3000}'
}

/// Whether `c` has the Unicode property `White_Space`.
pub fn white_space(c: char) -> (white: bool)
    ensures
        white == is_white_space(c),
{
    ('\u{9}' <= c && c <= '\u{d}') || c == '\u{20}' || c == '\u{85}' || c == '\u{a0}' || c
        == '\u{1680}' || ('\u{2000}' <= c && c <= '\u{200a}') || c == '\u{2028}' || c == '\u{2029}'
        || c == '\u{202f}' || c == '\u{205f}' || c == '\u{3000}'
}

/// `text` without the white space at its start.
pub open spec fn trim_start(text: Seq<char>) -> Seq<char>
    decreases text.len(),
{
    if text.len() > 0 && is_white_space(text[0]) {
        trim_start(text.drop_first())
    } else {
        text
    }
}

/// `text` without the white space at its end.
pub open spec fn trim_end(text: Seq<char>) -> Seq<char>
    decreases text.len(),
{
    if text.len() > 0 && is_white_space(text.last()) {
        trim_end(text.drop_last())
    } else {
        text
    }
}

/// `text` without the white space at its start and its end.
pub open spec fn trimmed(text: Seq<char>) -> Seq<char> {
    trim_end(trim_start(text))
}

/// `text` without the white space at its start and its end.
pub fn trim(text: &[char]) -> (result: Vec<char>)
    ensures
        result@ == trimmed(text@),
{
    let mut start: usize = 0;
    assert(text@.skip(0) =~= text@);
    while start < text.len() && white_space(text[start])
        invariant
            start <= text@.len(),
            trim_start(text@) == trim_start(text@.skip(start as int)),
        decreases text@.len() - start,
    {
        assert(text@.skip(start as int).drop_first() =~= text@.skip(start + 1));
        start = start + 1;
    }
    let ghost rest = text@.skip(start as int);
    assert(trim_start(text@) == rest);
    let mut end: usize = text.len();
    assert(text@.subrange(start as int, end as int) =~= rest);
    while start < end && white_space(text[end - 1])
        invariant
            start <= end <= text@.len(),
            trimmed(text@) == trim_end(text@.subrange(start as int, end as int)),
        decreases end,
    {
        assert(text@.subrange(start as int, end as int).drop_last() =~= text@.subrange(
            start as int,
            end - 1,
        ));
        end = end - 1;
    }
    part(text, start, end)
}

/// The contents of `parts`.
pub open spec fn contents(parts: Seq<Vec<char>>) -> Seq<Seq<char>> {
    parts.map_values(|part: Vec<char>| part@)
}

/// The parts of `text` between the occurrences of `separator`: a separator opens
/// a new part, any other character goes to the end of the last one.
pub open spec fn split(text: Seq<char>, separator: char) -> Seq<Seq<char>>
    decreases text.len(),
{
    if text.len() == 0 {
        seq![Seq::empty()]
    } else {
        let parts = split(text.drop_last(), separator);
        if text.last() == separator {
            parts.push(Seq::empty())
        } else {
            parts.drop_last().push(parts.last().push(text.last()))
        }
    }
}

/// The parts of `text` between the occurrences of `separator`.
pub fn split_at_each(text: &[char], separator: char) -> (parts: Vec<Vec<char>>)
    ensures
        contents(parts@) == split(text@, separator),
{
    let mut parts: Vec<Vec<char>> = Vec::new();
    let mut last: Vec<char> = Vec::new();
    assert(contents(parts@).push(last@) =~= split(text@.take(0), separator));
    for i in 0..text.len()
        invariant
            contents(parts@).push(last@) == split(text@.take(i as int), separator),
    {
        let ghost done = contents(parts@);
        let ghost open = last@;
        assert(text@.take(i + 1).drop_last() =~= text@.take(i as int));
        if text[i] == separator {
            parts.push(last);
            last = Vec::new();
            assert(contents(parts@) =~= done.push(open));
        } else {
            last.push(text[i]);
            assert(done.push(open).drop_last() =~= done);
        }
    }
    let ghost done = contents(parts@);
    let ghost open = last@;
    parts.push(last);
    assert(contents(parts@) =~= done.push(open));
    assert(text@.take(text@.len() as int) =~= text@);
    parts
}

/// The texts of `strings`.
pub open spec fn string_texts(strings: Seq<String>) -> Seq<Seq<char>> {
    strings.map_values(|string: String| string@)
}

/// `parts` with `separator` between each and the next.
pub open spec fn join(parts: Seq<Seq<char>>, separator: Seq<char>) -> Seq<char>
    decreases parts.len(),
{
    if parts.len() == 0 {
        Seq::empty()
    } else if parts.len() == 1 {
        parts[0]
    } else {
        join(parts.drop_last(), separator) + separator + parts.last()
    }
}

/// The character of a decimal digit.
pub open spec fn digit_char(digit: nat) -> char {
    (48 + digit) as char
}

/// The decimal digits of `n`, without leading zeros.
pub open spec fn decimal(n: nat) -> Seq<char>
    decreases n,
{
    if n < 10 {
        seq![digit_char(n)]
    } else {
        decimal(n / 10).push(digit_char(n % 10))
    }
}

/// Appends the decimal digits of `n` to `text`.
pub fn push_decimal(text: &mut String, n: u64)
    ensures
        final(text)@ == old(text)@ + decimal(n as nat),
    decreases n,
{
    if n >= 10 {
        push_decimal(text, n / 10);
    }
    let digit: u8 = (n % 10) as u8;
    text.push((48u8 + digit) as char);
    assert(text@ =~= old(text)@ + decimal(n as nat));
}

/// Appends `chars` to `text`.
pub fn push_chars(text: &mut String, chars: &[char])
    ensures
        final(text)@ == old(text)@ + chars@,
{
    for i in 0..chars.len()
        invariant
            text@ == old(text)@ + chars@.take(i as int),
    {
        text.push(chars[i]);
        assert(chars@.take(i + 1) =~= chars@.take(i as int).push(chars@[i as int]));
    }
    assert(chars@.take(chars@.len() as int) =~= chars@);
}

/// Whether `c` is an ASCII digit.
pub open spec fn is_digit(c: char) -> bool {
    '0' <= c <= '9'
}

/// Whether `c` is an ASCII digit.
pub fn digit(c: char) -> (yes: bool)
    ensures
        yes == is_digit(c),
{
    '0' <= c && c <= '9'
}

/// Whether `c` is an ASCII lowercase letter.
pub open spec fn is_lowercase(c: char) -> bool {
    'a' <= c <= 'z'
}

/// Whether `c` is an ASCII lowercase letter.
pub fn lowercase(c: char) -> (yes: bool)
    ensures
        yes == is_lowercase(c),
{
    'a' <= c && c <= 'z'
}

/// Whether `c` is an ASCII letter or digit.
pub open spec fn is_alphanumeric(c: char) -> bool {
    is_digit(c) || is_lowercase(c) || 'A' <= c <= 'Z'
}

/// The lowercase form of an ASCII character.
pub open spec fn to_lowercase(c: char) -> char {
    if 'A' <= c <= 'Z' {
        (c as u8 + 32) as char
    } else {
        c
    }
}

/// The ASCII letters and digits of `text`, in lowercase.
pub open spec fn alphanumerics(text: Seq<char>) -> Seq<char> {
    text.filter(|c: char| is_alphanumeric(c)).map_values(|c: char| to_lowercase(c))
}

/// The ASCII letters and digits of `text`, in lowercase.
pub fn lower_alphanumerics(text: &[char]) -> (result: Vec<char>)
    ensures
        result@ == alphanumerics(text@),
{
    let mut result: Vec<char> = Vec::new();
    let ghost keep = |c: char| is_alphanumeric(c);
    let ghost lower = |c: char| to_lowercase(c);
    proof {
        reveal(Seq::filter);
        assert(text@.take(0).filter(keep) =~= Seq::<char>::empty());
    }
    for i in 0..text.len()
        invariant
            keep == (|c: char| is_alphanumeric(c)),
            lower == (|c: char| to_lowercase(c)),
            result@ == text@.take(i as int).filter(keep).map_values(lower),
    {
        let c = text[i];
        let ghost before = text@.take(i as int);
        proof {
            reveal(Seq::filter);
            assert(text@.take(i + 1).drop_last() =~= before);
            assert(before.filter(keep).push(c).map_values(lower) =~= before.filter(
                keep,
            ).map_values(lower).push(to_lowercase(c)));
        }
        if 'A' <= c && c <= 'Z' {
            result.push((c as u8 + 32) as char);
        } else if digit(c) || lowercase(c) {
            result.push(c);
        }
    }
    assert(text@.take(text@.len() as int) =~= text@);
    result
}

/// How many items stand before the first `item`; all of them, where there is none.
pub open spec fn before_first<T>(items: Seq<T>, item: T) -> nat
    decreases items.len(),
{
    if items.len() == 0 || items[0] == item {
        0
    } else {
        1 + before_first(items.drop_first(), item)
    }
}

/// How many characters stand before the first `c`; all of them, where there is none.
pub fn find_first(text: &[char], c: char) -> (index: usize)
    ensures
        index == before_first(text@, c),
        index <= text@.len(),
        index < text@.len() ==> text@[index as int] == c,
{
    let mut index: usize = 0;
    assert(text@.skip(0) =~= text@);
    while index < text.len() && text[index] != c
        invariant
            index <= text@.len(),
            before_first(text@, c) == index + before_first(text@.skip(index as int), c),
        decreases text@.len() - index,
    {
        assert(text@.skip(index as int).drop_first() =~= text@.skip(index + 1));
        index = index + 1;
    }
    index
}

/// The characters of `text` from `start` up to `end`.
pub fn part(text: &[char], start: usize, end: usize) -> (result: Vec<char>)
    requires
        start <= end <= text@.len(),
    ensures
        result@ == text@.subrange(start as int, end as int),
{
    let mut result: Vec<char> = Vec::new();
    for i in start..end
        invariant
            start <= end <= text@.len(),
            result@ == text@.subrange(start as int, i as int),
    {
        result.push(text[i]);
    }
    result
}

/// Whether `text` ends with `suffix`.
pub fn ends_with(text: &[char], suffix: &[char]) -> (yes: bool)
    ensures
        yes == suffix@.is_suffix_of(text@),
{
    if text.len() < suffix.len() {
        return false;
    }
    let end = part(text, text.len() - suffix.len(), text.len());
    same_chars(&end, suffix)
}

} // verus!
