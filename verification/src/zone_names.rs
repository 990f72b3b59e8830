//! Names of availability zones, and where hosts' names hold one.

use arcstr::ArcStr;
use vstd::prelude::*;

use crate::arc_str::{arc_from, arc_text};
use crate::text::{
    chars_of, contents, digit, is_digit, is_lowercase, join, lowercase, push_chars, split,
    split_at_each, string_texts, text_of,
};

verus! {

/// Whether every character of `text` is a lowercase letter.
pub open spec fn all_lowercase(text: Seq<char>) -> bool {
    forall|i: int| 0 <= i < text.len() ==> is_lowercase(#[trigger] text[i])
}

/// Whether every character of `text` is a digit.
pub open spec fn all_digits(text: Seq<char>) -> bool {
    forall|i: int| 0 <= i < text.len() ==> is_digit(#[trigger] text[i])
}

/// Whether `text` is one or more digits and a lowercase letter.
pub open spec fn is_digits_and_letter(text: Seq<char>) -> bool {
    text.len() >= 2 && all_digits(text.drop_last()) && is_lowercase(text.last())
}

/// Whether `name` is built like `us-east-1a`: two or three words, then a number with a
/// letter.
pub open spec fn is_aws_zone(name: Seq<char>) -> bool {
    let parts = split(name, '-');
    &&& 3 <= parts.len() <= 4
    &&& is_digits_and_letter(parts.last())
    &&& forall|i: int| 0 <= i < parts.len() - 1 ==> all_lowercase(#[trigger] parts[i])
}

/// Whether `name` is built like `use1-az1`.
pub open spec fn is_aws_zone_id(name: Seq<char>) -> bool {
    let parts = split(name, '-');
    &&& parts.len() == 2
    &&& parts[0].len() > 0
    &&& forall|i: int|
        0 <= i < parts[0].len() ==> is_lowercase(#[trigger] parts[0][i]) || is_digit(parts[0][i])
    &&& parts[1].len() > 2
    &&& parts[1][0] == 'a'
    &&& parts[1][1] == 'z'
    &&& all_digits(parts[1].skip(2))
}

/// Whether `name` is built like `us-central1-a`.
pub open spec fn is_gcp_zone(name: Seq<char>) -> bool {
    let parts = split(name, '-');
    &&& parts.len() == 3
    &&& all_lowercase(parts[0])
    &&& parts[1].len() > 0
    &&& is_digit(parts[1].last())
    &&& parts[2].len() == 1
    &&& is_lowercase(parts[2][0])
}

/// Whether `name` is built like the name of a zone.
pub open spec fn is_zone_name(name: Seq<char>) -> bool {
    is_aws_zone(name) || is_aws_zone_id(name) || is_gcp_zone(name)
}

/// Whether every character of `text` is a lowercase letter.
fn only_lowercase(text: &[char]) -> (yes: bool)
    ensures
        yes == all_lowercase(text@),
{
    for i in 0..text.len()
        invariant
            forall|j: int| 0 <= j < i ==> is_lowercase(#[trigger] text@[j]),
    {
        if !lowercase(text[i]) {
            return false;
        }
    }
    true
}

/// Whether `value` is one or more digits and a lowercase letter.
pub fn digits_then_single_letter(value: &str) -> (yes: bool)
    ensures
        yes == is_digits_and_letter(value@),
{
    let chars = chars_of(value);
    if chars.len() < 2 {
        return false;
    }
    let last: usize = chars.len() - 1;
    for i in 0..last
        invariant
            chars@ == value@,
            chars@.len() >= 2,
            last == chars@.len() - 1,
            forall|j: int| 0 <= j < i ==> is_digit(#[trigger] chars@.drop_last()[j]),
    {
        assert(chars@.drop_last()[i as int] == chars@[i as int]);
        if !digit(chars[i]) {
            return false;
        }
    }
    lowercase(chars[last])
}

/// Whether the last character of `value` is a digit.
pub fn ends_with_digit(value: &str) -> (yes: bool)
    ensures
        yes == (value@.len() > 0 && is_digit(value@.last())),
{
    let chars = chars_of(value);
    chars.len() > 0 && digit(chars[chars.len() - 1])
}

/// Whether `candidate` is built like `us-east-1a`.
pub fn is_aws_availability_zone(candidate: &str) -> (yes: bool)
    ensures
        yes == is_aws_zone(candidate@),
{
    let chars = chars_of(candidate);
    let parts = split_at_each(&chars, '-');
    let ghost all = contents(parts@);
    if parts.len() < 3 || parts.len() > 4 {
        return false;
    }
    let last: usize = parts.len() - 1;
    assert(all[last as int] == parts@[last as int]@);
    let last_text = text_of(&parts[last]);
    if !digits_then_single_letter(last_text.as_str()) {
        return false;
    }
    for i in 0..last
        invariant
            all == contents(parts@),
            all == split(candidate@, '-'),
            last == all.len() - 1,
            forall|j: int| 0 <= j < i ==> all_lowercase(#[trigger] all[j]),
    {
        assert(all[i as int] == parts@[i as int]@);
        if !only_lowercase(&parts[i]) {
            return false;
        }
    }
    true
}

/// Whether `candidate` is built like `use1-az1`.
pub fn is_aws_availability_zone_id(candidate: &str) -> (yes: bool)
    ensures
        yes == is_aws_zone_id(candidate@),
{
    let chars = chars_of(candidate);
    let parts = split_at_each(&chars, '-');
    let ghost all = contents(parts@);
    if parts.len() != 2 {
        return false;
    }
    assert(all[0] == parts@[0]@ && all[1] == parts@[1]@);
    let region = &parts[0];
    let zone = &parts[1];
    if region.len() == 0 || zone.len() <= 2 || zone[0] != 'a' || zone[1] != 'z' {
        return false;
    }
    for i in 0..region.len()
        invariant
            all == split(candidate@, '-'),
            all.len() == 2,
            region@ == all[0],
            forall|j: int|
                0 <= j < i ==> is_lowercase(#[trigger] all[0][j]) || is_digit(all[0][j]),
    {
        if !lowercase(region[i]) && !digit(region[i]) {
            assert(!(is_lowercase(all[0][i as int]) || is_digit(all[0][i as int])));
            return false;
        }
    }
    for i in 2..zone.len()
        invariant
            all == split(candidate@, '-'),
            all.len() == 2,
            zone@ == all[1],
            zone@.len() > 2,
            forall|j: int| 0 <= j < i - 2 ==> is_digit(#[trigger] zone@.skip(2)[j]),
    {
        assert(zone@.skip(2)[i - 2] == zone@[i as int]);
        if !digit(zone[i]) {
            return false;
        }
    }
    true
}

/// Whether `candidate` is built like `us-central1-a`.
pub fn is_gcp_availability_zone(candidate: &str) -> (yes: bool)
    ensures
        yes == is_gcp_zone(candidate@),
{
    let chars = chars_of(candidate);
    let parts = split_at_each(&chars, '-');
    let ghost all = contents(parts@);
    if parts.len() != 3 {
        return false;
    }
    assert(all[0] == parts@[0]@ && all[1] == parts@[1]@ && all[2] == parts@[2]@);
    let middle = text_of(&parts[1]);
    only_lowercase(&parts[0]) && ends_with_digit(middle.as_str()) && parts[2].len() == 1
        && lowercase(parts[2][0])
}

/// The parts that hold a character.
pub open spec fn nonempty_parts(parts: Seq<Seq<char>>) -> Seq<Seq<char>> {
    parts.filter(|part: Seq<char>| part.len() > 0)
}

/// The `count` parts from `start` on, joined by hyphens, where there are so many.
pub open spec fn run_of(parts: Seq<Seq<char>>, start: int, count: int) -> Seq<Seq<char>> {
    if start + count <= parts.len() {
        seq![join(parts.subrange(start, start + count), seq!['-'])]
    } else {
        Seq::empty()
    }
}

/// The runs of two to four of `parts` that begin before `end`: by where they begin, then
/// by how long they are.
pub open spec fn runs(parts: Seq<Seq<char>>, end: nat) -> Seq<Seq<char>>
    decreases end,
{
    if end == 0 {
        Seq::empty()
    } else {
        let start = end - 1;
        runs(parts, start as nat) + run_of(parts, start, 2) + run_of(parts, start, 3) + run_of(
            parts,
            start,
            4,
        )
    }
}

/// The names that the label of a host may hold: each run of two to four of its parts
/// between hyphens.
pub open spec fn candidates_in(label: Seq<char>) -> Seq<Seq<char>> {
    let parts = nonempty_parts(split(label, '-'));
    runs(parts, parts.len())
}

/// The parts from `start` up to `end`, joined by hyphens.
fn join_parts(parts: &Vec<Vec<char>>, start: usize, end: usize) -> (text: String)
    requires
        start < end <= parts@.len(),
    ensures
        text@ == join(contents(parts@).subrange(start as int, end as int), seq!['-']),
{
    let ghost all = contents(parts@);
    let mut text = String::new();
    push_chars(&mut text, &parts[start]);
    assert(all.subrange(start as int, start + 1) =~= seq![all[start as int]]);
    assert(text@ =~= all[start as int]);
    for i in start + 1..end
        invariant
            start < end <= parts@.len(),
            all == contents(parts@),
            text@ == join(all.subrange(start as int, i as int), seq!['-']),
    {
        let ghost next = all.subrange(start as int, i + 1);
        assert(next.drop_last() =~= all.subrange(start as int, i as int));
        assert(next.last() == parts@[i as int]@);
        let ghost before = text@;
        text.push('-');
        push_chars(&mut text, &parts[i]);
        assert(text@ =~= before + seq!['-'] + next.last());
    }
    text
}

/// The names that `label` may hold.
pub fn candidate_zones_from_label(label: &str) -> (candidates: Vec<String>)
    ensures
        string_texts(candidates@) == candidates_in(label@),
{
    let chars = chars_of(label);
    let all = split_at_each(&chars, '-');
    let ghost texts = contents(all@);
    let ghost keep = |part: Seq<char>| part.len() > 0;
    let mut parts: Vec<Vec<char>> = Vec::new();
    proof {
        reveal(Seq::filter);
        assert(contents(parts@) =~= texts.take(0).filter(keep));
    }
    for i in 0..all.len()
        invariant
            texts == contents(all@),
            keep == (|part: Seq<char>| part.len() > 0),
            contents(parts@) == texts.take(i as int).filter(keep),
    {
        let ghost before = contents(parts@);
        proof {
            reveal(Seq::filter);
            assert(texts.take(i + 1).drop_last() =~= texts.take(i as int));
            assert(texts.take(i + 1).last() == all@[i as int]@);
        }
        if all[i].len() > 0 {
            let part = copy_of(&all[i]);
            let ghost part_text = part@;
            parts.push(part);
            assert(contents(parts@) =~= before.push(part_text));
        }
    }
    assert(texts.take(texts.len() as int) =~= texts);
    let ghost kept = contents(parts@);
    let mut candidates: Vec<String> = Vec::new();
    assert(string_texts(candidates@) =~= runs(kept, 0));
    for start in 0..parts.len()
        invariant
            kept == contents(parts@),
            string_texts(candidates@) == runs(kept, start as nat),
    {
        let ghost begun = string_texts(candidates@);
        add_run(&parts, start, 2, &mut candidates);
        add_run(&parts, start, 3, &mut candidates);
        add_run(&parts, start, 4, &mut candidates);
        assert(string_texts(candidates@) =~= begun + run_of(kept, start as int, 2) + run_of(
            kept,
            start as int,
            3,
        ) + run_of(kept, start as int, 4));
    }
    candidates
}

/// A copy of `text`.
fn copy_of(text: &Vec<char>) -> (copy: Vec<char>)
    ensures
        copy@ == text@,
{
    let mut copy: Vec<char> = Vec::new();
    for i in 0..text.len()
        invariant
            copy@ == text@.take(i as int),
    {
        copy.push(text[i]);
    }
    copy
}

/// Adds the run of `count` parts from `start` on to `candidates`.
fn add_run(parts: &Vec<Vec<char>>, start: usize, count: usize, candidates: &mut Vec<String>)
    requires
        start < parts@.len(),
        0 < count,
    ensures
        string_texts(final(candidates)@) == string_texts(old(candidates)@) + run_of(
            contents(parts@),
            start as int,
            count as int,
        ),
{
    if count <= parts.len() - start {
        let run = join_parts(parts, start, start + count);
        let ghost text = run@;
        candidates.push(run);
        assert(string_texts(candidates@) =~= string_texts(old(candidates)@).push(text));
    }
}

/// The first of `candidates` that is built like the name of a zone.
pub open spec fn first_zone_name(candidates: Seq<Seq<char>>) -> Option<Seq<char>>
    decreases candidates.len(),
{
    if candidates.len() == 0 {
        None
    } else if is_zone_name(candidates[0]) {
        Some(candidates[0])
    } else {
        first_zone_name(candidates.drop_first())
    }
}

/// The zone in the first of `labels` that holds one.
pub open spec fn first_zone_label(labels: Seq<Seq<char>>) -> Option<Seq<char>>
    decreases labels.len(),
{
    if labels.len() == 0 {
        None
    } else if first_zone_name(candidates_in(labels[0])) is Some {
        first_zone_name(candidates_in(labels[0]))
    } else {
        first_zone_label(labels.drop_first())
    }
}

/// The zone in a label.
fn label_zone(label: &str) -> (zone: Option<ArcStr>)
    ensures
        match zone {
            Some(zone) => first_zone_name(candidates_in(label@)) == Some(arc_text(zone)),
            None => first_zone_name(candidates_in(label@)) is None,
        },
{
    let candidates = candidate_zones_from_label(label);
    let ghost all = string_texts(candidates@);
    assert(all.skip(0) =~= all);
    for i in 0..candidates.len()
        invariant
            all == string_texts(candidates@),
            all == candidates_in(label@),
            first_zone_name(all) == first_zone_name(all.skip(i as int)),
    {
        assert(all.skip(i as int).drop_first() =~= all.skip(i + 1));
        assert(all[i as int] == candidates@[i as int]@);
        let candidate = candidates[i].as_str();
        if is_aws_availability_zone(candidate) || is_aws_availability_zone_id(candidate)
            || is_gcp_availability_zone(candidate) {
            return Some(arc_from(candidate));
        }
    }
    None
}

/// Finds the zone that a host's name holds, if it holds one.
pub fn parse_hostname_availability_zone(host: &str) -> (zone: Option<ArcStr>)
    ensures
        match zone {
            Some(zone) => first_zone_label(split(host@, '.')) == Some(arc_text(zone)),
            None => first_zone_label(split(host@, '.')) is None,
        },
{
    let chars = chars_of(host);
    let labels = split_at_each(&chars, '.');
    let ghost all = contents(labels@);
    assert(all.skip(0) =~= all);
    for i in 0..labels.len()
        invariant
            all == contents(labels@),
            all == split(host@, '.'),
            first_zone_label(all) == first_zone_label(all.skip(i as int)),
    {
        assert(all.skip(i as int).drop_first() =~= all.skip(i + 1));
        assert(all[i as int] == labels@[i as int]@);
        let label = text_of(&labels[i]);
        if let Some(zone) = label_zone(label.as_str()) {
            return Some(zone);
        }
    }
    None
}

} // verus!
