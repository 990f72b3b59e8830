//! Which zones are read out of `INFO SERVER` and of hosts' names, said of the texts themselves.

use arcstr::ArcStr;
use vstd::prelude::*;

use crate::arc_str::arc_text;
use crate::text::{
    alphanumerics, before_first, is_white_space, join, split, trim_end, trim_start, trimmed,
};
use crate::text_laws::{law_before_first, law_split_undoes_join};
use crate::zone_metadata::{
    first_zone_in, parse_info_server_availability_zone, zone_in_line,
};
use crate::zone_names::{
    candidates_in, digits_then_single_letter, first_zone_label, first_zone_name, is_aws_zone,
    is_aws_zone_id, is_digits_and_letter, is_gcp_zone, is_zone_name, nonempty_parts,
    parse_hostname_availability_zone, run_of, runs,
};

verus! {

proof fn lemma_trim_start_of_white(before: Seq<char>, text: Seq<char>)
    requires
        forall|i: int| 0 <= i < before.len() ==> is_white_space(#[trigger] before[i]),
    ensures
        trim_start(before + text) == trim_start(text),
    decreases before.len(),
{
    let all = before + text;
    if before.len() == 0 {
        assert(all =~= text);
    } else {
        assert(all[0] == before[0]);
        assert(all.drop_first() =~= before.drop_first() + text);
        assert forall|i: int| 0 <= i < before.len() - 1 implies is_white_space(
            #[trigger] before.drop_first()[i],
        ) by {
            assert(before.drop_first()[i] == before[i + 1]);
        }
        lemma_trim_start_of_white(before.drop_first(), text);
    }
}

proof fn lemma_trim_end_behind(start: Seq<char>, text: Seq<char>)
    requires
        start.len() > 0,
        !is_white_space(start.last()),
    ensures
        trim_end(start + text) == start + trim_end(text),
    decreases text.len(),
{
    let all = start + text;
    if text.len() == 0 {
        assert(all =~= start);
        assert(start + trim_end(text) =~= start);
    } else {
        assert(all.last() == text.last());
        if is_white_space(text.last()) {
            assert(all.drop_last() =~= start + text.drop_last());
            lemma_trim_end_behind(start, text.drop_last());
        }
    }
}

proof fn lemma_trim_end_first(text: Seq<char>)
    ensures
        trimmed(trim_end(text)) == trimmed(text),
    decreases text.len(),
{
    if text.len() > 0 && is_white_space(text.last()) {
        lemma_trim_end_first(text.drop_last());
        crate::zone_laws::law_trailing_white_space(text.drop_last(), text.last());
        assert(text.drop_last().push(text.last()) =~= text);
    }
}

proof fn lemma_before_first_at<T>(items: Seq<T>, item: T, at: int)
    requires
        0 <= at < items.len(),
        items[at] == item,
        forall|i: int| 0 <= i < at ==> #[trigger] items[i] != item,
    ensures
        before_first(items, item) == at,
{
    law_before_first(items, item);
    let first = before_first(items, item) as int;
    if first > at {
        assert(items[at] != item);
    }
    if first < at {
        assert(items[first] != item);
    }
}

/// Whether `key` is a name of a zone in a reply to `INFO`: its compared form is `az` or ends
/// with `availabilityzone`.
pub open spec fn is_info_zone_key(key: Seq<char>) -> bool {
    let form = alphanumerics(key);
    let long = "availabilityzone"@;
    form == "az"@ || (form.len() >= 16 && form.subrange(form.len() - 16, form.len() as int)
        == long)
}

/// A line `key:value`, with white space before it or not, tells of a zone where the key names
/// one and the value is not blank: the value, without white space around it.
pub proof fn law_zone_of_line(before: Seq<char>, key: Seq<char>, value: Seq<char>)
    requires
        forall|i: int| 0 <= i < before.len() ==> is_white_space(#[trigger] before[i]),
        key.len() > 0 ==> !is_white_space(key[0]) && key[0] != '#',
        forall|i: int| 0 <= i < key.len() ==> #[trigger] key[i] != ':',
    ensures
        is_info_zone_key(key) && trimmed(value).len() > 0 ==> zone_in_line(
            before + (key.push(':') + value),
        ) == Some(trimmed(value)),
        !is_info_zone_key(key) || trimmed(value).len() == 0 ==> zone_in_line(
            before + (key.push(':') + value),
        ) is None,
{
    let start = key.push(':');
    let content = start + value;
    let line = before + content;
    lemma_trim_start_of_white(before, content);
    assert(content[0] == start[0]);
    assert(trim_start(content) == content);
    lemma_trim_end_behind(start, value);
    let text = start + trim_end(value);
    assert(trimmed(line) == text);
    assert(text[0] == start[0]);
    assert forall|i: int| 0 <= i < key.len() implies #[trigger] text[i] != ':' by {
        assert(text[i] == key[i]);
    }
    lemma_before_first_at(text, ':', key.len() as int);
    assert(text.take(key.len() as int) =~= key);
    assert(text.skip(key.len() as int + 1) =~= trim_end(value));
    lemma_trim_end_first(value);
    reveal_strlit("availabilityzone");
    let long = "availabilityzone"@;
    let form = alphanumerics(key);
    assert(long.len() == 16);
    assert(long.is_suffix_of(form) <==> form.len() >= 16 && form.subrange(
        form.len() - 16,
        form.len() as int,
    ) == long) by {
        if form.len() >= 16 {
            assert(form.subrange(form.len() - long.len(), form.len() as int) =~= form.subrange(
                form.len() - 16,
                form.len() as int,
            ));
        }
    }
}

/// A blank line, a comment and a line without a colon tell of no zone.
pub proof fn law_lines_without_zone(line: Seq<char>)
    ensures
        trimmed(line).len() == 0 ==> zone_in_line(line) is None,
        trimmed(line).len() > 0 && trimmed(line)[0] == '#' ==> zone_in_line(line) is None,
        !trimmed(line).contains(':') ==> zone_in_line(line) is None,
{
    let text = trimmed(line);
    law_before_first(text, ':');
    if !text.contains(':') && before_first(text, ':') < text.len() {
        assert(text[before_first(text, ':') as int] == ':');
    }
}

/// The zone of a reply to `INFO` is that of its first line that tells of one.
pub proof fn law_zone_of_info(lines: Seq<Seq<char>>, i: int)
    requires
        lines.len() > 0,
        forall|j: int| 0 <= j < lines.len() ==> !(#[trigger] lines[j]).contains('\n'),
    ensures
        0 <= i < lines.len() && zone_in_line(lines[i]) is Some && (forall|j: int|
            0 <= j < i ==> zone_in_line(#[trigger] lines[j]) is None) ==> first_zone_in(
            split(join(lines, seq!['\n']), '\n'),
        ) == zone_in_line(lines[i]),
        (forall|j: int| 0 <= j < lines.len() ==> zone_in_line(#[trigger] lines[j]) is None)
            ==> first_zone_in(split(join(lines, seq!['\n']), '\n')) is None,
{
    law_split_undoes_join(lines, '\n');
    lemma_first_zone_in(lines, i);
}

proof fn lemma_first_zone_in(lines: Seq<Seq<char>>, i: int)
    ensures
        0 <= i < lines.len() && zone_in_line(lines[i]) is Some && (forall|j: int|
            0 <= j < i ==> zone_in_line(#[trigger] lines[j]) is None) ==> first_zone_in(lines)
            == zone_in_line(lines[i]),
        (forall|j: int| 0 <= j < lines.len() ==> zone_in_line(#[trigger] lines[j]) is None)
            ==> first_zone_in(lines) is None,
    decreases lines.len(),
{
    if lines.len() > 0 {
        let rest = lines.drop_first();
        lemma_first_zone_in(rest, i - 1);
        assert forall|j: int| 0 <= j < rest.len() implies #[trigger] rest[j] == lines[j + 1] by {}
        if 0 <= i < lines.len() && zone_in_line(lines[i]) is Some && (forall|j: int|
            0 <= j < i ==> zone_in_line(#[trigger] lines[j]) is None) && i > 0 {
            assert(zone_in_line(lines[0]) is None);
            assert forall|j: int| 0 <= j < i - 1 implies zone_in_line(
                #[trigger] rest[j],
            ) is None by {
                assert(zone_in_line(lines[j + 1]) is None);
            }
            assert(rest[i - 1] == lines[i]);
        }
        if forall|j: int| 0 <= j < lines.len() ==> zone_in_line(#[trigger] lines[j]) is None {
            assert(zone_in_line(lines[0]) is None);
            assert forall|j: int| 0 <= j < rest.len() implies zone_in_line(
                #[trigger] rest[j],
            ) is None by {
                assert(zone_in_line(lines[j + 1]) is None);
            }
        }
    }
}

/// Whether `text` is made of lowercase letters.
pub open spec fn is_word(text: Seq<char>) -> bool {
    forall|i: int| 0 <= i < text.len() ==> 97 <= #[trigger] text[i] as int <= 122
}

/// Whether `text` is made of digits.
pub open spec fn is_number(text: Seq<char>) -> bool {
    forall|i: int| 0 <= i < text.len() ==> 48 <= #[trigger] text[i] as int <= 57
}

/// Whether no part holds a hyphen.
pub open spec fn without_hyphens(parts: Seq<Seq<char>>) -> bool {
    forall|i: int| 0 <= i < parts.len() ==> !(#[trigger] parts[i]).contains('-')
}

/// A name is an AWS zone exactly where it is two or three words of lowercase letters, then one
/// or more digits with one lowercase letter behind them.
pub proof fn law_aws_zones(parts: Seq<Seq<char>>)
    requires
        parts.len() > 0,
        without_hyphens(parts),
    ensures
        is_aws_zone(join(parts, seq!['-'])) <==> {
            let last = parts.last();
            &&& parts.len() == 3 || parts.len() == 4
            &&& forall|i: int| 0 <= i < parts.len() - 1 ==> is_word(#[trigger] parts[i])
            &&& last.len() >= 2
            &&& is_number(last.subrange(0, last.len() - 1))
            &&& 97 <= last[last.len() - 1] as int <= 122
        },
{
    law_split_undoes_join(parts, '-');
    let last = parts.last();
    if last.len() >= 2 {
        assert(last.subrange(0, last.len() - 1) =~= last.drop_last());
    }
    let name = join(parts, seq!['-']);
    if is_aws_zone(name) {
        assert forall|i: int| 0 <= i < parts.len() - 1 implies is_word(#[trigger] parts[i]) by {
            assert(crate::zone_names::all_lowercase(split(name, '-')[i]));
        }
        assert forall|i: int| 0 <= i < last.drop_last().len() implies 48
            <= #[trigger] last.drop_last()[i] as int <= 57 by {
            assert(crate::text::is_digit(last.drop_last()[i]));
        }
    }
    if (parts.len() == 3 || parts.len() == 4) && (forall|i: int|
        0 <= i < parts.len() - 1 ==> is_word(#[trigger] parts[i])) && last.len() >= 2 && is_number(
        last.subrange(0, last.len() - 1),
    ) && 97 <= last[last.len() - 1] as int <= 122 {
        assert forall|i: int|
            0 <= i < parts.len() - 1 implies crate::zone_names::all_lowercase(
            #[trigger] parts[i],
        ) by {
            assert(is_word(parts[i]));
            assert forall|j: int| 0 <= j < parts[i].len() implies crate::text::is_lowercase(
                #[trigger] parts[i][j],
            ) by {
                assert(97 <= parts[i][j] as int <= 122);
            }
        }
        assert forall|i: int| 0 <= i < last.drop_last().len() implies crate::text::is_digit(
            #[trigger] last.drop_last()[i],
        ) by {
            assert(48 <= last.subrange(0, last.len() - 1)[i] as int <= 57);
        }
    }
}

/// A text is a number with a letter exactly where all of it but its last character is digits,
/// at least one, and the last is a lowercase letter.
pub proof fn law_digits_and_letter(start: Seq<char>, end: char)
    ensures
        is_digits_and_letter(start.push(end)) <==> start.len() > 0 && is_number(start) && 97
            <= end as int <= 122,
        !is_digits_and_letter(Seq::empty()),
{
    let text = start.push(end);
    assert(text.drop_last() =~= start);
    if is_digits_and_letter(text) {
        assert forall|i: int| 0 <= i < start.len() implies 48 <= #[trigger] start[i] as int
            <= 57 by {
            assert(crate::text::is_digit(text.drop_last()[i]));
        }
    }
    if is_number(start) {
        assert forall|i: int| 0 <= i < start.len() implies crate::text::is_digit(
            #[trigger] text.drop_last()[i],
        ) by {
            assert(48 <= start[i] as int <= 57);
        }
    }
}

/// Every region's zones are known by their names: two or three words, any number, any letter.
pub proof fn law_every_aws_zone_is_one(words: Seq<Seq<char>>, digits: Seq<char>, letter: char)
    requires
        words.len() == 2 || words.len() == 3,
        forall|i: int| 0 <= i < words.len() ==> is_word(#[trigger] words[i]),
        digits.len() > 0,
        is_number(digits),
        97 <= letter as int <= 122,
    ensures
        is_zone_name(join(words.push(digits.push(letter)), seq!['-'])),
{
    let last = digits.push(letter);
    let parts = words.push(last);
    assert forall|i: int| 0 <= i < parts.len() implies !(#[trigger] parts[i]).contains('-') by {
        if i < words.len() {
            assert(is_word(words[i]));
            if parts[i].contains('-') {
                let j = choose|j: int| 0 <= j < parts[i].len() && parts[i][j] == '-';
                assert(97 <= words[i][j] as int);
            }
        } else if last.contains('-') {
            let j = choose|j: int| 0 <= j < last.len() && last[j] == '-';
            if j < digits.len() {
                assert(48 <= digits[j] as int);
            }
        }
    }
    assert forall|i: int| 0 <= i < parts.len() - 1 implies is_word(#[trigger] parts[i]) by {
        assert(parts[i] == words[i]);
    }
    assert(last.subrange(0, last.len() - 1) =~= digits);
    law_aws_zones(parts);
}

/// A name is the identifier of an AWS zone exactly where it is lowercase letters and digits, a
/// hyphen, `az` and digits.
pub proof fn law_aws_zone_ids(parts: Seq<Seq<char>>)
    requires
        parts.len() > 0,
        without_hyphens(parts),
    ensures
        is_aws_zone_id(join(parts, seq!['-'])) <==> {
            &&& parts.len() == 2
            &&& parts[0].len() > 0
            &&& forall|i: int|
                0 <= i < parts[0].len() ==> 97 <= #[trigger] parts[0][i] as int <= 122 || 48
                    <= parts[0][i] as int <= 57
            &&& exists|digits: Seq<char>| #[trigger]
                is_number(digits) && digits.len() > 0 && parts[1] == seq!['a', 'z'] + digits
        },
{
    law_split_undoes_join(parts, '-');
    let name = join(parts, seq!['-']);
    if is_aws_zone_id(name) {
        let digits = parts[1].skip(2);
        assert forall|i: int| 0 <= i < digits.len() implies 48 <= #[trigger] digits[i] as int
            <= 57 by {
            assert(crate::text::is_digit(digits[i]));
        }
        assert(is_number(digits));
        assert(parts[1] =~= seq!['a', 'z'] + digits);
        assert forall|i: int|
            0 <= i < parts[0].len() implies 97 <= #[trigger] parts[0][i] as int <= 122 || 48
            <= parts[0][i] as int <= 57 by {
            assert(crate::text::is_lowercase(parts[0][i]) || crate::text::is_digit(parts[0][i]));
        }
    }
    if parts.len() == 2 && exists|digits: Seq<char>| #[trigger]
        is_number(digits) && digits.len() > 0 && parts[1] == seq!['a', 'z'] + digits {
        let digits = choose|digits: Seq<char>| #[trigger]
            is_number(digits) && digits.len() > 0 && parts[1] == seq!['a', 'z'] + digits;
        assert(parts[1].skip(2) =~= digits);
        assert forall|i: int| 0 <= i < digits.len() implies crate::text::is_digit(
            #[trigger] digits[i],
        ) by {
            assert(48 <= digits[i] as int <= 57);
        }
    }
}

/// A name is a GCP zone exactly where it is a word of lowercase letters, a part that ends with a
/// digit, and one lowercase letter.
pub proof fn law_gcp_zones(parts: Seq<Seq<char>>)
    requires
        parts.len() > 0,
        without_hyphens(parts),
    ensures
        is_gcp_zone(join(parts, seq!['-'])) <==> {
            &&& parts.len() == 3
            &&& is_word(parts[0])
            &&& parts[1].len() > 0
            &&& 48 <= parts[1][parts[1].len() - 1] as int <= 57
            &&& parts[2].len() == 1
            &&& 97 <= parts[2][0] as int <= 122
        },
{
    law_split_undoes_join(parts, '-');
    if parts.len() == 3 {
        if crate::zone_names::all_lowercase(parts[0]) {
            assert forall|i: int| 0 <= i < parts[0].len() implies 97 <= #[trigger] parts[0][i] as int
                <= 122 by {
                assert(crate::text::is_lowercase(parts[0][i]));
            }
        }
        if is_word(parts[0]) {
            assert forall|i: int| 0 <= i < parts[0].len() implies crate::text::is_lowercase(
                #[trigger] parts[0][i],
            ) by {
                assert(97 <= parts[0][i] as int <= 122);
            }
        }
    }
}

/// A zone's name has one of the three shapes, and whatever has one of them is a zone's name.
pub proof fn law_zone_shapes(name: Seq<char>)
    ensures
        is_zone_name(name) <==> is_aws_zone(name) || is_aws_zone_id(name) || is_gcp_zone(name),
{
}

/// The runs of two, three and four of the first of `parts`, as far as there are so many.
pub open spec fn runs_at_front(parts: Seq<Seq<char>>) -> Seq<Seq<char>> {
    let two = if parts.len() >= 2 {
        seq![join(parts.take(2), seq!['-'])]
    } else {
        Seq::empty()
    };
    let three = if parts.len() >= 3 {
        two.push(join(parts.take(3), seq!['-']))
    } else {
        two
    };
    if parts.len() >= 4 {
        three.push(join(parts.take(4), seq!['-']))
    } else {
        three
    }
}

proof fn lemma_runs_shift(parts: Seq<Seq<char>>, end: nat)
    requires
        parts.len() > 0,
        end < parts.len(),
    ensures
        runs(parts, end + 1) == runs_at_front(parts) + runs(parts.drop_first(), end),
    decreases end,
{
    let rest = parts.drop_first();
    if end == 0 {
        assert(parts.subrange(0, 2) =~= parts.take(2));
        assert(parts.subrange(0, 3) =~= parts.take(3));
        assert(parts.subrange(0, 4) =~= parts.take(4));
        assert(runs(parts, 0) =~= Seq::<Seq<char>>::empty());
        assert(runs(parts, 1) =~= runs_at_front(parts) + runs(rest, 0));
    } else {
        let start = end as int;
        lemma_runs_shift(parts, (end - 1) as nat);
        assert forall|count: int| 2 <= count <= 4 implies #[trigger] run_of(parts, start, count)
            == run_of(rest, start - 1, count) by {
            if start + count <= parts.len() {
                assert(parts.subrange(start, start + count) =~= rest.subrange(
                    start - 1,
                    start - 1 + count,
                ));
            }
        }
        assert(run_of(parts, start, 2) == run_of(rest, start - 1, 2));
        assert(run_of(parts, start, 3) == run_of(rest, start - 1, 3));
        assert(run_of(parts, start, 4) == run_of(rest, start - 1, 4));
        assert(runs(parts, end + 1) =~= runs_at_front(parts) + runs(rest, end));
    }
}

proof fn lemma_nonempty(parts: Seq<Seq<char>>)
    requires
        forall|i: int| 0 <= i < parts.len() ==> (#[trigger] parts[i]).len() > 0,
    ensures
        nonempty_parts(parts) == parts,
    decreases parts.len(),
{
    reveal(Seq::filter);
    if parts.len() > 0 {
        let before = parts.drop_last();
        assert forall|i: int| 0 <= i < before.len() implies (#[trigger] before[i]).len() > 0 by {
            assert(before[i] == parts[i]);
        }
        lemma_nonempty(before);
        assert(parts[parts.len() - 1].len() > 0);
        assert(before.push(parts.last()) =~= parts);
    } else {
        assert(nonempty_parts(parts) =~= parts);
    }
}

/// The names that a label may hold are the runs of two, three and four of its parts that begin
/// with the first part, by their length, and then those of the label without that part.
pub proof fn law_candidates_of_label(parts: Seq<Seq<char>>)
    requires
        parts.len() > 0,
        without_hyphens(parts),
        forall|i: int| 0 <= i < parts.len() ==> (#[trigger] parts[i]).len() > 0,
    ensures
        parts.len() > 1 ==> candidates_in(join(parts, seq!['-'])) == runs_at_front(parts)
            + candidates_in(join(parts.drop_first(), seq!['-'])),
        parts.len() == 1 ==> candidates_in(join(parts, seq!['-'])).len() == 0,
{
    law_split_undoes_join(parts, '-');
    lemma_nonempty(parts);
    if parts.len() > 1 {
        let rest = parts.drop_first();
        assert forall|i: int| 0 <= i < rest.len() implies !(#[trigger] rest[i]).contains('-')
            && rest[i].len() > 0 by {
            assert(rest[i] == parts[i + 1]);
        }
        law_split_undoes_join(rest, '-');
        lemma_nonempty(rest);
        lemma_runs_shift(parts, rest.len());
    } else {
        assert(runs(parts, 0) =~= Seq::<Seq<char>>::empty());
        assert(runs(parts, 1) =~= Seq::<Seq<char>>::empty());
    }
}

/// Hyphens in a row count as one: a part without a character is as good as none.
pub proof fn law_empty_parts_do_not_count(before: Seq<Seq<char>>, after: Seq<Seq<char>>)
    requires
        before.len() + after.len() > 0,
        without_hyphens(before),
        without_hyphens(after),
    ensures
        candidates_in(join(before.push(Seq::empty()) + after, seq!['-'])) == candidates_in(
            join(before + after, seq!['-']),
        ),
{
    let with_gap = before.push(Seq::empty()) + after;
    let without = before + after;
    assert forall|i: int| 0 <= i < with_gap.len() implies !(#[trigger] with_gap[i]).contains(
        '-',
    ) by {
        if i < before.len() {
            assert(with_gap[i] == before[i]);
        } else if i > before.len() {
            assert(with_gap[i] == after[i - before.len() - 1]);
        }
    }
    assert forall|i: int| 0 <= i < without.len() implies !(#[trigger] without[i]).contains('-') by {
        if i < before.len() {
            assert(without[i] == before[i]);
        } else {
            assert(without[i] == after[i - before.len()]);
        }
    }
    law_split_undoes_join(with_gap, '-');
    law_split_undoes_join(without, '-');
    lemma_gap(before, after);
}

proof fn lemma_gap(before: Seq<Seq<char>>, after: Seq<Seq<char>>)
    ensures
        nonempty_parts(before.push(Seq::empty()) + after) == nonempty_parts(before + after),
    decreases after.len(),
{
    reveal(Seq::filter);
    let with_gap = before.push(Seq::empty()) + after;
    let without = before + after;
    if after.len() == 0 {
        assert(with_gap.drop_last() =~= before);
        assert(without =~= before);
    } else {
        lemma_gap(before, after.drop_last());
        assert(with_gap.drop_last() =~= before.push(Seq::empty()) + after.drop_last());
        assert(without.drop_last() =~= before + after.drop_last());
        assert(with_gap.last() == after.last() && without.last() == after.last());
    }
}

proof fn lemma_first_name(candidates: Seq<Seq<char>>, c: int)
    ensures
        0 <= c < candidates.len() && is_zone_name(candidates[c]) && (forall|d: int|
            0 <= d < c ==> !is_zone_name(#[trigger] candidates[d])) ==> first_zone_name(candidates)
            == Some(candidates[c]),
        (forall|d: int| 0 <= d < candidates.len() ==> !is_zone_name(#[trigger] candidates[d]))
            ==> first_zone_name(candidates) is None,
    decreases candidates.len(),
{
    if candidates.len() > 0 {
        let rest = candidates.drop_first();
        lemma_first_name(rest, c - 1);
        if 0 < c < candidates.len() && (forall|d: int|
            0 <= d < c ==> !is_zone_name(#[trigger] candidates[d])) {
            assert(!is_zone_name(candidates[0]));
            assert forall|d: int| 0 <= d < c - 1 implies !is_zone_name(#[trigger] rest[d]) by {
                assert(!is_zone_name(candidates[d + 1]));
            }
            assert(rest[c - 1] == candidates[c]);
        }
        if forall|d: int| 0 <= d < candidates.len() ==> !is_zone_name(#[trigger] candidates[d]) {
            assert(!is_zone_name(candidates[0]));
            assert forall|d: int| 0 <= d < rest.len() implies !is_zone_name(#[trigger] rest[d]) by {
                assert(!is_zone_name(candidates[d + 1]));
            }
        }
    }
}

/// Whether no name that `label` may hold is built like that of a zone.
pub open spec fn holds_no_zone(label: Seq<char>) -> bool {
    forall|d: int|
        0 <= d < candidates_in(label).len() ==> !is_zone_name(#[trigger] candidates_in(label)[d])
}

proof fn lemma_first_label(labels: Seq<Seq<char>>, l: int, c: int)
    ensures
        0 <= l < labels.len() && 0 <= c < candidates_in(labels[l]).len() && is_zone_name(
            candidates_in(labels[l])[c],
        ) && (forall|d: int|
            0 <= d < c ==> !is_zone_name(#[trigger] candidates_in(labels[l])[d])) && (forall|m: int|
            0 <= m < l ==> holds_no_zone(#[trigger] labels[m])) ==> first_zone_label(labels)
            == Some(candidates_in(labels[l])[c]),
        (forall|m: int| 0 <= m < labels.len() ==> holds_no_zone(#[trigger] labels[m]))
            ==> first_zone_label(labels) is None,
    decreases labels.len(),
{
    if labels.len() > 0 {
        let rest = labels.drop_first();
        let first = candidates_in(labels[0]);
        lemma_first_label(rest, l - 1, c);
        lemma_first_name(first, c);
        if 0 < l < labels.len() && 0 <= c < candidates_in(labels[l]).len() && is_zone_name(
            candidates_in(labels[l])[c],
        ) && (forall|d: int|
            0 <= d < c ==> !is_zone_name(#[trigger] candidates_in(labels[l])[d])) && (forall|m: int|
            0 <= m < l ==> holds_no_zone(#[trigger] labels[m])) {
            assert(holds_no_zone(labels[0]));
            assert(rest[l - 1] == labels[l]);
            assert forall|m: int| 0 <= m < l - 1 implies holds_no_zone(#[trigger] rest[m]) by {
                assert(holds_no_zone(labels[m + 1]));
            }
            assert(first_zone_name(first) is None);
        }
        if forall|m: int| 0 <= m < labels.len() ==> holds_no_zone(#[trigger] labels[m]) {
            assert(holds_no_zone(labels[0]));
            assert forall|m: int| 0 <= m < rest.len() implies holds_no_zone(#[trigger] rest[m]) by {
                assert(holds_no_zone(labels[m + 1]));
            }
            assert(first_zone_name(first) is None);
        }
    }
}

/// The zone of a host is the first name built like a zone's in its first label that may hold
/// one; a host whose labels hold none has none.
pub proof fn law_zone_of_hostname(labels: Seq<Seq<char>>, l: int, c: int)
    requires
        labels.len() > 0,
        forall|m: int| 0 <= m < labels.len() ==> !(#[trigger] labels[m]).contains('.'),
    ensures
        0 <= l < labels.len() && 0 <= c < candidates_in(labels[l]).len() && is_zone_name(
            candidates_in(labels[l])[c],
        ) && (forall|d: int|
            0 <= d < c ==> !is_zone_name(#[trigger] candidates_in(labels[l])[d])) && (forall|m: int|
            0 <= m < l ==> holds_no_zone(#[trigger] labels[m])) ==> first_zone_label(
            split(join(labels, seq!['.']), '.'),
        ) == Some(candidates_in(labels[l])[c]),
        (forall|m: int| 0 <= m < labels.len() ==> holds_no_zone(#[trigger] labels[m]))
            ==> first_zone_label(split(join(labels, seq!['.']), '.')) is None,
{
    law_split_undoes_join(labels, '.');
    lemma_first_label(labels, l, c);
}

proof fn lemma_word_pair_is_no_zone(a: Seq<char>, b: Seq<char>)
    requires
        is_word(a),
        is_word(b),
    ensures
        !is_zone_name(join(seq![a, b], seq!['-'])),
{
    let parts = seq![a, b];
    lemma_words_without_hyphens(parts);
    law_aws_zones(parts);
    law_aws_zone_ids(parts);
    law_gcp_zones(parts);
    if exists|digits: Seq<char>| #[trigger]
        is_number(digits) && digits.len() > 0 && parts[1] == seq!['a', 'z'] + digits {
        let digits = choose|digits: Seq<char>| #[trigger]
            is_number(digits) && digits.len() > 0 && parts[1] == seq!['a', 'z'] + digits;
        assert(b[2] == digits[0]);
        assert(97 <= b[2] as int);
        assert(digits[0] as int <= 57);
    }
}

proof fn lemma_words_without_hyphens(parts: Seq<Seq<char>>)
    requires
        forall|i: int| 0 <= i < parts.len() ==> is_word(#[trigger] parts[i]),
    ensures
        without_hyphens(parts),
{
    assert forall|i: int| 0 <= i < parts.len() implies !(#[trigger] parts[i]).contains('-') by {
        assert(is_word(parts[i]));
        if parts[i].contains('-') {
            let j = choose|j: int| 0 <= j < parts[i].len() && parts[i][j] == '-';
            assert(97 <= parts[i][j] as int);
        }
    }
}

proof fn lemma_no_dot(parts: Seq<Seq<char>>)
    requires
        parts.len() > 0,
        forall|i: int| 0 <= i < parts.len() ==> !(#[trigger] parts[i]).contains('.'),
    ensures
        !join(parts, seq!['-']).contains('.'),
    decreases parts.len(),
{
    let text = join(parts, seq!['-']);
    if parts.len() == 1 {
        assert(text == parts[0]);
    } else {
        let rest = parts.drop_last();
        assert forall|i: int| 0 <= i < rest.len() implies !(#[trigger] rest[i]).contains('.') by {
            assert(rest[i] == parts[i]);
        }
        lemma_no_dot(rest);
        let start = join(rest, seq!['-']);
        let last = parts[parts.len() - 1];
        assert(text == start + seq!['-'] + last);
        if text.contains('.') {
            let j = choose|j: int| 0 <= j < text.len() && text[j] == '.';
            if j < start.len() {
                assert(start[j] == '.');
            } else if j > start.len() {
                assert(last[j - start.len() - 1] == '.');
            }
            assert(false);
        }
    }
}

proof fn lemma_parts_of_zone(words: Seq<Seq<char>>, digits: Seq<char>, letter: char, i: int)
    requires
        forall|i: int| 0 <= i < words.len() ==> is_word(#[trigger] words[i]),
        is_number(digits),
        97 <= letter as int <= 122,
        0 <= i <= words.len(),
    ensures
        !words.push(digits.push(letter))[i].contains('-'),
        !words.push(digits.push(letter))[i].contains('.'),
{
    let last = digits.push(letter);
    let part = words.push(last)[i];
    assert forall|j: int| 0 <= j < part.len() implies part[j] != '-' && part[j] != '.' by {
        if i < words.len() {
            assert(is_word(words[i]));
            assert(97 <= words[i][j] as int);
        } else if j < digits.len() {
            assert(48 <= digits[j] as int);
        }
    }
}

proof fn lemma_three_words_are_no_zone(words: Seq<Seq<char>>)
    requires
        words.len() == 3,
        forall|i: int| 0 <= i < words.len() ==> is_word(#[trigger] words[i]),
    ensures
        !is_zone_name(join(words, seq!['-'])),
{
    lemma_words_without_hyphens(words);
    law_aws_zones(words);
    law_aws_zone_ids(words);
    law_gcp_zones(words);
    let last = words[2];
    assert(is_word(last) && is_word(words[1]));
    if last.len() >= 2 && is_number(last.subrange(0, last.len() - 1)) {
        assert(48 <= last.subrange(0, last.len() - 1)[0] as int <= 57);
        assert(97 <= last[0] as int);
    }
    if words[1].len() > 0 {
        assert(97 <= words[1][words[1].len() - 1] as int);
    }
}

/// A host with a label that is the name of an AWS zone, of a region of two words or of three,
/// and no zone in an earlier label, is in that zone.
pub proof fn law_hosts_in_aws_zones(
    before: Seq<Seq<char>>,
    words: Seq<Seq<char>>,
    digits: Seq<char>,
    letter: char,
    after: Seq<Seq<char>>,
)
    requires
        forall|m: int|
            0 <= m < before.len() ==> !(#[trigger] before[m]).contains('.') && holds_no_zone(
                before[m],
            ),
        forall|m: int| 0 <= m < after.len() ==> !(#[trigger] after[m]).contains('.'),
        words.len() == 2 || words.len() == 3,
        forall|i: int| 0 <= i < words.len() ==> (#[trigger] words[i]).len() > 0 && is_word(words[i]),
        digits.len() > 0,
        is_number(digits),
        97 <= letter as int <= 122,
    ensures
        first_zone_label(
            split(
                join(
                    before.push(join(words.push(digits.push(letter)), seq!['-'])) + after,
                    seq!['.'],
                ),
                '.',
            ),
        ) == Some(join(words.push(digits.push(letter)), seq!['-'])),
{
    let last = digits.push(letter);
    let parts = words.push(last);
    let zone = join(parts, seq!['-']);
    law_every_aws_zone_is_one(words, digits, letter);
    assert forall|i: int|
        0 <= i < parts.len() implies !(#[trigger] parts[i]).contains('-') && !parts[i].contains('.')
        && parts[i].len() > 0 by {
        lemma_parts_of_zone(words, digits, letter, i);
    }
    lemma_no_dot(parts);
    law_candidates_of_label(parts);
    let candidates = candidates_in(zone);
    assert(parts.take(2) =~= seq![words[0], words[1]]);
    lemma_word_pair_is_no_zone(words[0], words[1]);
    let front = runs_at_front(parts);
    let c = words.len() - 1;
    if words.len() == 2 {
        assert(parts.take(3) =~= parts);
        assert(front.len() == 2);
        assert(front[0] == join(parts.take(2), seq!['-']) && front[1] == zone);
    } else {
        assert(parts.take(3) =~= words);
        assert(parts.take(4) =~= parts);
        lemma_three_words_are_no_zone(words);
        assert(front.len() == 3);
        assert(front[0] == join(parts.take(2), seq!['-']) && front[1] == join(words, seq!['-'])
            && front[2] == zone);
    }
    assert(candidates[c] == front[c] && candidates[0] == front[0] && candidates[1] == front[1]);
    let labels = before.push(zone) + after;
    let l = before.len() as int;
    assert(labels[l] == zone);
    assert forall|m: int| 0 <= m < labels.len() implies !(#[trigger] labels[m]).contains('.') by {
        if m < l {
            assert(labels[m] == before[m]);
        } else if m > l {
            assert(labels[m] == after[m - l - 1]);
        }
    }
    assert forall|m: int| 0 <= m < l implies holds_no_zone(#[trigger] labels[m]) by {
        assert(labels[m] == before[m]);
    }
    assert forall|d: int| 0 <= d < c implies !is_zone_name(
        #[trigger] candidates_in(labels[l])[d],
    ) by {
        assert(d == 0 || d == 1);
    }
    law_zone_of_hostname(labels, l, c);
}

/// What is said of a host's name is its zone: the first name built like a zone's in the first
/// label that may hold one.
pub proof fn law_parsed_hostnames(
    host: &str,
    zone: Option<ArcStr>,
    labels: Seq<Seq<char>>,
    l: int,
    c: int,
)
    requires
        call_ensures(parse_hostname_availability_zone, (host,), zone),
        labels.len() > 0,
        forall|m: int| 0 <= m < labels.len() ==> !(#[trigger] labels[m]).contains('.'),
        host@ == join(labels, seq!['.']),
    ensures
        0 <= l < labels.len() && 0 <= c < candidates_in(labels[l]).len() && is_zone_name(
            candidates_in(labels[l])[c],
        ) && (forall|d: int|
            0 <= d < c ==> !is_zone_name(#[trigger] candidates_in(labels[l])[d])) && (forall|m: int|
            0 <= m < l ==> holds_no_zone(#[trigger] labels[m])) ==> zone is Some && arc_text(
            zone.unwrap(),
        ) == candidates_in(labels[l])[c],
        (forall|m: int| 0 <= m < labels.len() ==> holds_no_zone(#[trigger] labels[m]))
            ==> zone is None,
{
    law_zone_of_hostname(labels, l, c);
}

/// A host with a label that is the name of an AWS zone, and no zone in an earlier label, is
/// said to be in exactly that zone.
pub proof fn law_parsed_aws_zones(
    host: &str,
    zone: Option<ArcStr>,
    before: Seq<Seq<char>>,
    words: Seq<Seq<char>>,
    digits: Seq<char>,
    letter: char,
    after: Seq<Seq<char>>,
)
    requires
        call_ensures(parse_hostname_availability_zone, (host,), zone),
        forall|m: int|
            0 <= m < before.len() ==> !(#[trigger] before[m]).contains('.') && holds_no_zone(
                before[m],
            ),
        forall|m: int| 0 <= m < after.len() ==> !(#[trigger] after[m]).contains('.'),
        words.len() == 2 || words.len() == 3,
        forall|i: int| 0 <= i < words.len() ==> (#[trigger] words[i]).len() > 0 && is_word(words[i]),
        digits.len() > 0,
        is_number(digits),
        97 <= letter as int <= 122,
        host@ == join(
            before.push(join(words.push(digits.push(letter)), seq!['-'])) + after,
            seq!['.'],
        ),
    ensures
        zone is Some,
        arc_text(zone.unwrap()) == join(words.push(digits.push(letter)), seq!['-']),
{
    law_hosts_in_aws_zones(before, words, digits, letter, after);
}

/// What is said of a reply to `INFO` is the zone of its first line that tells of one.
pub proof fn law_parsed_info(
    info: &str,
    zone: Option<ArcStr>,
    lines: Seq<Seq<char>>,
    i: int,
)
    requires
        call_ensures(parse_info_server_availability_zone, (info,), zone),
        lines.len() > 0,
        forall|j: int| 0 <= j < lines.len() ==> !(#[trigger] lines[j]).contains('\n'),
        info@ == join(lines, seq!['\n']),
    ensures
        0 <= i < lines.len() && zone_in_line(lines[i]) is Some && (forall|j: int|
            0 <= j < i ==> zone_in_line(#[trigger] lines[j]) is None) ==> zone is Some && Some(
            arc_text(zone.unwrap()),
        ) == zone_in_line(lines[i]),
        (forall|j: int| 0 <= j < lines.len() ==> zone_in_line(#[trigger] lines[j]) is None)
            ==> zone is None,
{
    law_zone_of_info(lines, i);
}

/// A text is said to be a number with a letter exactly where it is digits, at least one, and a
/// lowercase letter behind them.
pub proof fn law_number_and_letter(text: &str, yes: bool)
    requires
        call_ensures(digits_then_single_letter, (text,), yes),
    ensures
        yes <==> text@.len() >= 2 && is_number(text@.subrange(0, text@.len() - 1)) && 97
            <= text@[text@.len() - 1] as int <= 122,
{
    if text@.len() > 0 {
        let start = text@.subrange(0, text@.len() - 1);
        let end = text@[text@.len() - 1];
        assert(start.push(end) =~= text@);
        law_digits_and_letter(start, end);
    }
}

} // verus!
