//! What holds of every zone that is read or recorded.

use vstd::prelude::*;

use crate::node_address::NodeKey;
use crate::text::{
    alphanumerics, before_first, is_alphanumeric, is_white_space, join, split, to_lowercase,
    trim_end, trim_start, trimmed,
};
use crate::value::Value;
use crate::zone_discovery::{is_news, NodeAvailabilityZoneCoverage};
use crate::zone_metadata::{
    fields, first_field, first_zone_in, node_zone, nodes_of_shard, same_name, text_in, with_node,
    with_nodes, zone_in_line, zone_names, zones_of_reply, zones_of_shards,
};
use crate::zone_names::{candidates_in, first_zone_label, first_zone_name, is_zone_name};

verus! {

/// The parts of a text, joined again, are the text, and none of them holds the separator.
pub proof fn law_split_and_join(text: Seq<char>, separator: char)
    ensures
        split(text, separator).len() > 0,
        join(split(text, separator), seq![separator]) == text,
        forall|i: int|
            0 <= i < split(text, separator).len() ==> !(#[trigger] split(
                text,
                separator,
            )[i]).contains(separator),
    decreases text.len(),
{
    let parts = split(text, separator);
    if text.len() > 0 {
        let before = text.drop_last();
        let earlier = split(before, separator);
        law_split_and_join(before, separator);
        assert(before.push(text.last()) =~= text);
        if text.last() == separator {
            assert(parts.drop_last() =~= earlier);
            assert(join(parts, seq![separator]) =~= join(earlier, seq![separator]) + seq![separator]
                + Seq::<char>::empty());
            assert forall|i: int| 0 <= i < parts.len() implies !(#[trigger] parts[i]).contains(
                separator,
            ) by {
                if i < earlier.len() {
                    assert(parts[i] == earlier[i]);
                }
            }
        } else {
            assert(parts.drop_last() =~= earlier.drop_last());
            if earlier.len() > 1 {
                assert(join(parts, seq![separator]) =~= join(earlier, seq![separator]).push(
                    text.last(),
                ));
            } else {
                assert(join(parts, seq![separator]) =~= join(earlier, seq![separator]).push(
                    text.last(),
                ));
            }
            assert forall|i: int| 0 <= i < parts.len() implies !(#[trigger] parts[i]).contains(
                separator,
            ) by {
                if i < earlier.len() - 1 {
                    assert(parts[i] == earlier[i]);
                } else {
                    let last = earlier[earlier.len() - 1];
                    assert(!last.contains(separator));
                    assert forall|j: int| 0 <= j < parts[i].len() implies parts[i][j] != separator by {
                        if j < last.len() {
                            assert(last[j] == parts[i][j]);
                        }
                    }
                }
            }
        }
    } else {
        assert(join(parts, seq![separator]) =~= text);
    }
}

proof fn lemma_trim_end(text: Seq<char>)
    ensures
        trim_end(text).is_prefix_of(text),
        trim_end(text).len() > 0 ==> !is_white_space(trim_end(text).last()),
        trim_end(trim_end(text)) == trim_end(text),
    decreases text.len(),
{
    if text.len() > 0 && is_white_space(text.last()) {
        lemma_trim_end(text.drop_last());
    }
}

proof fn lemma_trim_start(text: Seq<char>)
    ensures
        trim_start(text).len() > 0 ==> !is_white_space(trim_start(text)[0]),
    decreases text.len(),
{
    if text.len() > 0 && is_white_space(text[0]) {
        lemma_trim_start(text.drop_first());
    }
}

/// A trimmed text has no white space at either end, and trimming it again changes nothing.
pub proof fn law_trimmed(text: Seq<char>)
    ensures
        trimmed(trimmed(text)) == trimmed(text),
        trimmed(text).len() > 0 ==> !is_white_space(trimmed(text)[0]) && !is_white_space(
            trimmed(text).last(),
        ),
{
    lemma_trim_start(text);
    lemma_trim_end(trim_start(text));
    assert(trim_start(trimmed(text)) == trimmed(text));
}

/// White space behind a text is trimmed away.
pub proof fn law_trailing_white_space(text: Seq<char>, c: char)
    requires
        is_white_space(c),
    ensures
        trimmed(text.push(c)) == trimmed(text),
    decreases text.len(),
{
    let longer = text.push(c);
    if text.len() == 0 {
        assert(longer.drop_first() =~= text);
        assert(trim_start(longer) == trim_start(text));
    } else if is_white_space(text[0]) {
        assert(longer.drop_first() =~= text.drop_first().push(c));
        law_trailing_white_space(text.drop_first(), c);
    } else {
        assert(longer.drop_last() =~= text);
        assert(trim_start(longer) == longer);
    }
}

/// Lines that end with a carriage return before the line feed tell of the same zone as
/// lines that do not.
pub proof fn law_carriage_returns(lines: Seq<Seq<char>>)
    ensures
        first_zone_in(lines.map_values(|line: Seq<char>| line.push('\r'))) == first_zone_in(lines),
    decreases lines.len(),
{
    let end = |line: Seq<char>| line.push('\r');
    if lines.len() > 0 {
        law_trailing_white_space(lines[0], '\r');
        law_carriage_returns(lines.drop_first());
        assert(lines.map_values(end).drop_first() =~= lines.drop_first().map_values(end));
        assert(lines.map_values(end)[0] == lines[0].push('\r'));
    }
}

/// A zone that a node tells of is never empty and has no white space around it.
pub proof fn law_zones_are_trimmed(node: Value, line: Seq<char>)
    ensures
        node_zone(node) matches Some(zone) ==> zone.len() > 0 && trimmed(zone) == zone,
        zone_in_line(line) matches Some(zone) ==> zone.len() > 0 && trimmed(zone) == zone,
{
    if let Some(zone) = node_zone(node) {
        let field = first_field(fields(node), zone_names())->0;
        law_trimmed(text_in(field)->0);
    }
    if let Some(zone) = zone_in_line(line) {
        let text = trimmed(line);
        law_trimmed(text.skip(before_first(text, ':') as int + 1));
    }
}

/// Whether no zone is empty or has white space around it.
spec fn zones_are_trimmed(zones: Map<NodeKey, Seq<char>>) -> bool {
    forall|key: NodeKey| #[trigger]
        zones.contains_key(key) ==> zones[key].len() > 0 && trimmed(zones[key]) == zones[key]
}

proof fn lemma_with_nodes_trimmed(
    zones: Map<NodeKey, Seq<char>>,
    nodes: Seq<Value>,
    answering: Seq<char>,
)
    requires
        zones_are_trimmed(zones),
    ensures
        zones_are_trimmed(with_nodes(zones, nodes, answering)),
    decreases nodes.len(),
{
    if nodes.len() > 0 {
        let before = with_nodes(zones, nodes.drop_last(), answering);
        let after = with_node(before, nodes.last(), answering);
        lemma_with_nodes_trimmed(zones, nodes.drop_last(), answering);
        law_zones_are_trimmed(nodes.last(), Seq::empty());
        assert forall|key: NodeKey| #[trigger] after.contains_key(key) implies after[key].len() > 0
            && trimmed(after[key]) == after[key] by {
            if before.contains_key(key) {
                assert(before[key].len() > 0 && trimmed(before[key]) == before[key]);
            }
        }
    }
}

proof fn lemma_zones_of_shards_trimmed(shards: Seq<Value>, answering: Seq<char>)
    ensures
        zones_are_trimmed(zones_of_shards(shards, answering)),
    decreases shards.len(),
{
    if shards.len() > 0 {
        let before = zones_of_shards(shards.drop_last(), answering);
        lemma_zones_of_shards_trimmed(shards.drop_last(), answering);
        lemma_with_nodes_trimmed(before, nodes_of_shard(shards.last()), answering);
    }
}

/// No zone that a reply to `CLUSTER SHARDS` tells of is empty or has white space around
/// it.
pub proof fn law_reply_zones(reply: Value, answering: Seq<char>, key: NodeKey)
    requires
        zones_of_reply(reply, answering).contains_key(key),
    ensures
        zones_of_reply(reply, answering)[key].len() > 0,
        trimmed(zones_of_reply(reply, answering)[key]) == zones_of_reply(reply, answering)[key],
{
    if let Value::Array(shards) = reply {
        lemma_zones_of_shards_trimmed(shards@, answering);
    }
}

/// Pairs and a list that holds the same keys and values in turn are read alike.
pub proof fn law_pairs_and_lists(
    pairs: Vec<(Value, Value)>,
    items: Vec<Value>,
    names: Seq<Seq<char>>,
)
    requires
        items@.len() == 2 * pairs@.len(),
        forall|i: int|
            0 <= i < pairs@.len() ==> (#[trigger] pairs@[i]).0 == items@[2 * i] && pairs@[i].1
                == items@[2 * i + 1],
    ensures
        fields(Value::Pairs(pairs)) == fields(Value::Array(items)),
        first_field(fields(Value::Pairs(pairs)), names) == first_field(
            fields(Value::Array(items)),
            names,
        ),
{
    let flat = fields(Value::Array(items));
    assert forall|i: int| 0 <= i < pairs@.len() implies pairs@[i] == #[trigger] flat[i] by {
        assert(flat[i] == (items@[2 * i], items@[2 * i + 1]));
    }
    assert(pairs@ =~= flat);
}

proof fn lemma_alphanumerics_push(text: Seq<char>, c: char)
    ensures
        alphanumerics(text.push(c)) == if is_alphanumeric(c) {
            alphanumerics(text).push(to_lowercase(c))
        } else {
            alphanumerics(text)
        },
{
    reveal(Seq::filter);
    let keep = |c: char| is_alphanumeric(c);
    let lower = |c: char| to_lowercase(c);
    assert(text.push(c).drop_last() =~= text);
    assert(text.filter(keep).push(c).map_values(lower) =~= text.filter(keep).map_values(lower).push(
        to_lowercase(c),
    ));
}

proof fn lemma_alphanumerics_empty()
    ensures
        alphanumerics(Seq::empty()) == Seq::<char>::empty(),
{
    reveal(Seq::filter);
    assert(alphanumerics(Seq::empty()) =~= Seq::<char>::empty());
}

/// Names of fields are compared without regard to case.
pub proof fn law_case_does_not_count(name: Seq<char>)
    ensures
        same_name(name, name.map_values(|c: char| to_lowercase(c))),
    decreases name.len(),
{
    let lower = |c: char| to_lowercase(c);
    if name.len() == 0 {
        assert(name.map_values(lower) =~= name);
    } else {
        let before = name.drop_last();
        law_case_does_not_count(before);
        lemma_alphanumerics_push(before, name.last());
        lemma_alphanumerics_push(before.map_values(lower), to_lowercase(name.last()));
        assert(before.push(name.last()) =~= name);
        assert(before.map_values(lower).push(to_lowercase(name.last())) =~= name.map_values(lower));
        assert(to_lowercase(to_lowercase(name.last())) == to_lowercase(name.last()));
    }
}

/// Names of fields are compared without regard to hyphens, underscores, spaces and whatever
/// else is neither a letter nor a digit.
pub proof fn law_separators_do_not_count(start: Seq<char>, separator: char, end: Seq<char>)
    requires
        !is_alphanumeric(separator),
    ensures
        same_name(start.push(separator) + end, start + end),
    decreases end.len(),
{
    if end.len() == 0 {
        lemma_alphanumerics_push(start, separator);
        assert(start.push(separator) + end =~= start.push(separator));
        assert(start + end =~= start);
    } else {
        let before = end.drop_last();
        law_separators_do_not_count(start, separator, before);
        lemma_alphanumerics_push(start.push(separator) + before, end.last());
        lemma_alphanumerics_push(start + before, end.last());
        assert((start.push(separator) + before).push(end.last()) =~= start.push(separator) + end);
        assert((start + before).push(end.last()) =~= start + end);
    }
}

/// The compared form of a name is its own compared form.
pub proof fn law_normalization_is_idempotent(name: Seq<char>)
    ensures
        alphanumerics(alphanumerics(name)) == alphanumerics(name),
    decreases name.len(),
{
    if name.len() == 0 {
        lemma_alphanumerics_empty();
        assert(name =~= Seq::<char>::empty());
    } else {
        let before = name.drop_last();
        law_normalization_is_idempotent(before);
        lemma_alphanumerics_push(before, name.last());
        lemma_alphanumerics_push(alphanumerics(before), to_lowercase(name.last()));
        assert(before.push(name.last()) =~= name);
        assert(to_lowercase(to_lowercase(name.last())) == to_lowercase(name.last()));
    }
}

proof fn lemma_first_zone_name(candidates: Seq<Seq<char>>)
    ensures
        first_zone_name(candidates) matches Some(zone) ==> is_zone_name(zone)
            && candidates.contains(zone),
        first_zone_name(candidates) is None ==> forall|i: int|
            0 <= i < candidates.len() ==> !is_zone_name(#[trigger] candidates[i]),
    decreases candidates.len(),
{
    if candidates.len() > 0 && !is_zone_name(candidates[0]) {
        let rest = candidates.drop_first();
        lemma_first_zone_name(rest);
        if let Some(zone) = first_zone_name(rest) {
            let i = choose|i: int| 0 <= i < rest.len() && rest[i] == zone;
            assert(candidates[i + 1] == zone);
        } else {
            assert forall|i: int| 0 <= i < candidates.len() implies !is_zone_name(
                #[trigger] candidates[i],
            ) by {
                if i > 0 {
                    assert(rest[i - 1] == candidates[i]);
                }
            }
        }
    }
}

/// Whether some label of a host's name holds `zone`.
pub open spec fn held_by_label(labels: Seq<Seq<char>>, zone: Seq<char>) -> bool {
    exists|i: int| 0 <= i < labels.len() && candidates_in(#[trigger] labels[i]).contains(zone)
}

/// A zone that is found in a host's name is built like one and stands in one of the name's
/// labels. Where none is found, no label holds any.
pub proof fn law_zone_of_host(labels: Seq<Seq<char>>, zone: Seq<char>)
    ensures
        first_zone_label(labels) == Some(zone) ==> is_zone_name(zone) && held_by_label(labels, zone),
        first_zone_label(labels) is None && held_by_label(labels, zone) ==> !is_zone_name(zone),
    decreases labels.len(),
{
    if labels.len() > 0 {
        let rest = labels.drop_first();
        let first = candidates_in(labels[0]);
        lemma_first_zone_name(first);
        law_zone_of_host(rest, zone);
        if first_zone_name(first) is None {
            if held_by_label(rest, zone) {
                let i = choose|i: int|
                    0 <= i < rest.len() && candidates_in(#[trigger] rest[i]).contains(zone);
                assert(labels[i + 1] == rest[i]);
            }
            if held_by_label(labels, zone) {
                let i = choose|i: int|
                    0 <= i < labels.len() && candidates_in(#[trigger] labels[i]).contains(zone);
                if i > 0 {
                    assert(rest[i - 1] == labels[i]);
                    assert(held_by_label(rest, zone));
                }
            }
        }
    }
}

/// The same coverage is never logged twice in a row, any other is, and of a first one
/// only complete coverage is passed over.
pub proof fn law_only_changes_are_logged(
    coverage: NodeAvailabilityZoneCoverage,
    next: NodeAvailabilityZoneCoverage,
)
    ensures
        is_news(None, coverage) <==> coverage !is Complete,
        is_news(Some(coverage), next) <==> next != coverage,
{
}

/// Zones that were found are known from then on, and replace what was known of their nodes
/// before; what is known of other nodes stays.
pub proof fn law_found_zones_are_known(
    known: Map<NodeKey, Seq<char>>,
    found: Map<NodeKey, Seq<char>>,
    nodes: Set<NodeKey>,
    node: NodeKey,
)
    requires
        nodes.contains(node),
    ensures
        found.contains_key(node) ==> known.union_prefer_right(found).restrict(nodes).contains_key(
            node,
        ) && known.union_prefer_right(found).restrict(nodes)[node] == found[node],
        !found.contains_key(node) ==> known.union_prefer_right(found).restrict(nodes).contains_key(
            node,
        ) == known.contains_key(node) && (known.contains_key(node) ==> known.union_prefer_right(
            found,
        ).restrict(nodes)[node] == known[node]),
{
}

} // verus!
