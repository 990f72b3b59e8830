//! What the operations on text do, said without the way in which they do it.

use vstd::prelude::*;

use crate::text::{
    alphanumerics, before_first, decimal, is_alphanumeric, is_digit, is_lowercase, is_white_space,
    join, split, string_texts, to_lowercase, trim_end, trim_start, trimmed,
};

verus! {

/// Digits are the ten ASCII ones, lowercase letters the twenty-six.
pub proof fn law_character_classes(c: char)
    ensures
        is_digit(c) <==> 48 <= c as int <= 57,
        is_lowercase(c) <==> 97 <= c as int <= 122,
{
}

/// White space is the twenty-five characters to which Unicode gives that property.
pub proof fn law_white_space(c: char)
    ensures
        is_white_space(c) <==> {
            ||| 9 <= c as int <= 13
            ||| c as int == 32
            ||| c as int == 133
            ||| c as int == 160
            ||| c as int == 5760
            ||| 8192 <= c as int <= 8202
            ||| 8232 <= c as int <= 8233
            ||| c as int == 8239
            ||| c as int == 8287
            ||| c as int == 12288
        },
{
}

proof fn lemma_trim_start_skips(text: Seq<char>) -> (start: int)
    ensures
        0 <= start <= text.len(),
        trim_start(text) == text.skip(start),
        forall|i: int| 0 <= i < start ==> is_white_space(#[trigger] text[i]),
        start < text.len() ==> !is_white_space(text[start]),
    decreases text.len(),
{
    if text.len() > 0 && is_white_space(text[0]) {
        let rest = text.drop_first();
        let start = lemma_trim_start_skips(rest);
        assert(rest.skip(start) =~= text.skip(start + 1));
        assert forall|i: int| 0 <= i < start + 1 implies is_white_space(#[trigger] text[i]) by {
            if i > 0 {
                assert(rest[i - 1] == text[i]);
            }
        }
        if start + 1 < text.len() {
            assert(rest[start] == text[start + 1]);
        }
        start + 1
    } else {
        assert(text.skip(0) =~= text);
        0
    }
}

proof fn lemma_trim_end_takes(text: Seq<char>) -> (end: int)
    ensures
        0 <= end <= text.len(),
        trim_end(text) == text.take(end),
        forall|i: int| end <= i < text.len() ==> is_white_space(#[trigger] text[i]),
        end > 0 ==> !is_white_space(text[end - 1]),
    decreases text.len(),
{
    if text.len() > 0 && is_white_space(text.last()) {
        let rest = text.drop_last();
        let end = lemma_trim_end_takes(rest);
        assert(rest.take(end) =~= text.take(end));
        assert forall|i: int| end <= i < text.len() implies is_white_space(#[trigger] text[i]) by {
            if i < rest.len() {
                assert(rest[i] == text[i]);
            }
        }
        if end > 0 {
            assert(rest[end - 1] == text[end - 1]);
        }
        end
    } else {
        assert(text.take(text.len() as int) =~= text);
        text.len() as int
    }
}

/// Trimming takes away the white space at both ends and nothing else: what is left is the
/// stretch from the first to the last character that is no white space.
pub proof fn law_trimming_keeps_the_middle(text: Seq<char>)
    ensures
        exists|start: int, end: int| #[trigger]
            text.subrange(start, end) == trimmed(text) && 0 <= start <= end <= text.len() && (
            forall|i: int|
                0 <= i < start || end <= i < text.len() ==> is_white_space(#[trigger] text[i])) && (
            start < end ==> !is_white_space(text[start]) && !is_white_space(text[end - 1])),
{
    let start = lemma_trim_start_skips(text);
    let rest = text.skip(start);
    let count = lemma_trim_end_takes(rest);
    let end = start + count;
    assert(text.subrange(start, end) =~= rest.take(count));
    assert forall|i: int| 0 <= i < start || end <= i < text.len() implies is_white_space(
        #[trigger] text[i],
    ) by {
        if i >= end {
            assert(rest[i - start] == text[i]);
        }
    }
    if start < end {
        assert(rest[0] == text[start]);
        assert(rest[count - 1] == text[end - 1]);
    }
    assert(text.subrange(start, end) == trimmed(text));
}

/// A text with nothing but white space around it is trimmed to itself.
pub proof fn law_trimmed_in_white_space(before: Seq<char>, text: Seq<char>, after: Seq<char>)
    requires
        forall|i: int| 0 <= i < before.len() ==> is_white_space(#[trigger] before[i]),
        forall|i: int| 0 <= i < after.len() ==> is_white_space(#[trigger] after[i]),
        text.len() > 0 ==> !is_white_space(text[0]) && !is_white_space(text.last()),
    ensures
        trimmed(before + text + after) == text,
{
    let all = before + text + after;
    let start = lemma_trim_start_skips(all);
    let rest = all.skip(start);
    let count = lemma_trim_end_takes(rest);
    let end = start + count;
    if text.len() > 0 {
        let first = before.len() as int;
        let last = before.len() + text.len() - 1;
        assert(all[first] == text[0] && all[last] == text.last());
        if start < first {
            assert(all[start] == before[start]);
        }
        assert(start == first);
        assert(rest[last - start] == all[last]);
        if end - 1 > last {
            assert(rest[count - 1] == all[end - 1]);
            assert(all[end - 1] == after[end - 1 - before.len() - text.len()]);
        }
        assert(end == last + 1);
        assert(rest.take(count) =~= text);
    } else {
        if start < all.len() {
            if start < before.len() {
                assert(all[start] == before[start]);
            } else {
                assert(all[start] == after[start - before.len()]);
            }
        }
        assert(rest.take(count) =~= text);
    }
}

/// Joining two lists of parts is joining each and putting the separator between them; one
/// part is joined to itself.
pub proof fn law_join_of_two_lists(a: Seq<Seq<char>>, b: Seq<Seq<char>>, separator: Seq<char>)
    requires
        a.len() > 0,
        b.len() > 0,
    ensures
        join(a + b, separator) == join(a, separator) + separator + join(b, separator),
        join(seq![a[0]], separator) == a[0],
        join(Seq::empty(), separator) == Seq::<char>::empty(),
    decreases b.len(),
{
    let all = a + b;
    if b.len() == 1 {
        assert(all.drop_last() =~= a);
        assert(join(b, separator) == b[0]);
    } else {
        let before = b.drop_last();
        law_join_of_two_lists(a, before, separator);
        assert(all.drop_last() =~= a + before);
        assert(join(all, separator) =~= join(a, separator) + separator + join(b, separator));
    }
}

proof fn lemma_split_len(text: Seq<char>, separator: char)
    ensures
        split(text, separator).len() > 0,
    decreases text.len(),
{
    if text.len() > 0 {
        lemma_split_len(text.drop_last(), separator);
    }
}

proof fn lemma_split_append(text: Seq<char>, more: Seq<char>, separator: char)
    requires
        !more.contains(separator),
    ensures
        split(text + more, separator) == split(text, separator).drop_last().push(
            split(text, separator).last() + more,
        ),
    decreases more.len(),
{
    lemma_split_len(text, separator);
    let parts = split(text, separator);
    if more.len() == 0 {
        assert(text + more =~= text);
        assert(parts.last() + more =~= parts.last());
        assert(parts.drop_last().push(parts.last()) =~= parts);
    } else {
        let before = more.drop_last();
        assert(!before.contains(separator)) by {
            if before.contains(separator) {
                let i = choose|i: int| 0 <= i < before.len() && before[i] == separator;
                assert(more[i] == separator);
            }
        }
        lemma_split_append(text, before, separator);
        assert((text + more).drop_last() =~= text + before);
        assert(more[more.len() - 1] != separator);
        let earlier = parts.drop_last().push(parts.last() + before);
        assert(earlier.drop_last() =~= parts.drop_last());
        assert((parts.last() + before).push(more.last()) =~= parts.last() + more);
    }
}

/// Splitting undoes joining: parts without the separator come back one by one.
pub proof fn law_split_undoes_join(parts: Seq<Seq<char>>, separator: char)
    requires
        parts.len() > 0,
        forall|i: int| 0 <= i < parts.len() ==> !(#[trigger] parts[i]).contains(separator),
    ensures
        split(join(parts, seq![separator]), separator) == parts,
    decreases parts.len(),
{
    let last = parts[parts.len() - 1];
    assert(!last.contains(separator));
    if parts.len() == 1 {
        lemma_split_append(Seq::empty(), last, separator);
        assert(Seq::<char>::empty() + last =~= last);
        let none = split(Seq::<char>::empty(), separator);
        assert(none =~= seq![Seq::<char>::empty()]);
        assert(none.drop_last().push(none.last() + last) =~= parts);
    } else {
        let before = parts.drop_last();
        assert forall|i: int| 0 <= i < before.len() implies !(#[trigger] before[i]).contains(
            separator,
        ) by {
            assert(before[i] == parts[i]);
        }
        law_split_undoes_join(before, separator);
        let text = join(before, seq![separator]);
        let open = text.push(separator);
        assert(open.drop_last() =~= text);
        assert(split(open, separator) == before.push(Seq::empty()));
        lemma_split_append(open, last, separator);
        assert(join(parts, seq![separator]) =~= open + last);
        assert(before.push(Seq::<char>::empty()).drop_last() =~= before);
        assert(Seq::<char>::empty() + last =~= last);
        assert(before.push(last) =~= parts);
    }
}

/// The number that decimal digits write.
pub open spec fn number_of_digits(digits: Seq<char>) -> int
    decreases digits.len(),
{
    if digits.len() == 0 {
        0
    } else {
        10 * number_of_digits(digits.drop_last()) + (digits.last() as int - 48)
    }
}

/// The decimal digits of a number are digits, write that number, and do not begin with a zero
/// unless it is the only one.
pub proof fn law_decimal(n: nat)
    ensures
        decimal(n).len() > 0,
        number_of_digits(decimal(n)) == n,
        forall|i: int| 0 <= i < decimal(n).len() ==> 48 <= #[trigger] decimal(n)[i] as int <= 57,
        decimal(n).len() > 1 ==> decimal(n)[0] != '0',
    decreases n,
{
    let digits = decimal(n);
    if n < 10 {
        assert(digits.drop_last() =~= Seq::<char>::empty());
        assert(digits[0] as int == 48 + n);
        assert(number_of_digits(digits.drop_last()) == 0);
    } else {
        law_decimal(n / 10);
        let before = decimal(n / 10);
        assert(digits.drop_last() =~= before);
        assert(digits.last() as int == 48 + n % 10);
        assert forall|i: int| 0 <= i < digits.len() implies 48 <= #[trigger] digits[i] as int
            <= 57 by {
            if i < before.len() {
                assert(digits[i] == before[i]);
            }
        }
        assert(digits[0] == before[0]);
        if before.len() == 1 {
            assert(number_of_digits(before.drop_last()) == 0) by {
                assert(before.drop_last() =~= Seq::<char>::empty());
            }
            assert(before[0] as int - 48 == n / 10);
        }
    }
}

/// The compared form of a name is made letter by letter: a digit or lowercase letter is kept,
/// an uppercase letter becomes the lowercase one, and anything else is left out.
pub proof fn law_compared_form(text: Seq<char>, c: char)
    ensures
        alphanumerics(Seq::empty()) == Seq::<char>::empty(),
        48 <= c as int <= 57 || 97 <= c as int <= 122 ==> alphanumerics(text.push(c))
            == alphanumerics(text).push(c),
        65 <= c as int <= 90 ==> alphanumerics(text.push(c)) == alphanumerics(text).push(
            (c as int + 32) as char,
        ),
        !(48 <= c as int <= 57 || 97 <= c as int <= 122 || 65 <= c as int <= 90) ==> alphanumerics(
            text.push(c),
        ) == alphanumerics(text),
{
    reveal(Seq::filter);
    let keep = |c: char| is_alphanumeric(c);
    let lower = |c: char| to_lowercase(c);
    assert(alphanumerics(Seq::empty()) =~= Seq::<char>::empty());
    assert(text.push(c).drop_last() =~= text);
    assert(text.filter(keep).push(c).map_values(lower) =~= text.filter(keep).map_values(lower).push(
        to_lowercase(c),
    ));
}

/// The compared form of two texts in a row is that of the one and that of the other.
pub proof fn law_compared_form_of_two(a: Seq<char>, b: Seq<char>)
    ensures
        alphanumerics(a + b) == alphanumerics(a) + alphanumerics(b),
    decreases b.len(),
{
    if b.len() == 0 {
        law_compared_form(a, 'a');
        assert(b =~= Seq::<char>::empty());
        assert(a + b =~= a);
        assert(alphanumerics(a) + alphanumerics(b) =~= alphanumerics(a));
    } else {
        let before = b.drop_last();
        law_compared_form_of_two(a, before);
        law_compared_form(a + before, b.last());
        law_compared_form(before, b.last());
        assert((a + before).push(b.last()) =~= a + b);
        assert(before.push(b.last()) =~= b);
        assert(alphanumerics(a + b) =~= alphanumerics(a) + alphanumerics(b));
    }
}

/// The first occurrence of an item is one, and there is none before it; where there is none
/// at all, every item counts.
pub proof fn law_before_first<T>(items: Seq<T>, item: T)
    ensures
        before_first(items, item) <= items.len(),
        forall|i: int| 0 <= i < before_first(items, item) ==> #[trigger] items[i] != item,
        before_first(items, item) < items.len() ==> items[before_first(items, item) as int] == item,
    decreases items.len(),
{
    if items.len() > 0 && items[0] != item {
        let rest = items.drop_first();
        law_before_first(rest, item);
        assert forall|i: int| 0 <= i < before_first(items, item) implies #[trigger] items[i]
            != item by {
            if i > 0 {
                assert(rest[i - 1] == items[i]);
            }
        }
    }
}

/// The texts of strings are theirs, one by one.
pub proof fn law_string_texts(strings: Seq<String>)
    ensures
        string_texts(strings).len() == strings.len(),
        forall|i: int|
            0 <= i < strings.len() ==> #[trigger] string_texts(strings)[i] == strings[i]@,
{
}

} // verus!
