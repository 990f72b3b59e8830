//! Which zones are read out of a reply to `CLUSTER SHARDS`, said of the reply itself.

use vstd::prelude::*;

use crate::node_address::NodeKey;
use crate::node_collections::NodeZones;
use crate::text::{alphanumerics, trimmed, utf8_lossy};
use crate::text_laws::{law_compared_form, law_compared_form_of_two};
use crate::value::Value;
use crate::zone_metadata::{
    fields, first_field, first_host, first_port, host_in, host_names, is_named, node_zone,
    nodes_of_shard, parse_cluster_shards_availability_zones, port_in, port_names, same_name,
    shard_node_address, text_in, with_node, with_nodes, zone_names, zones_of_reply, zones_of_shards,
};

verus! {

/// Bytes and texts have a text, the status `OK` is one, and nothing else has any.
pub proof fn law_texts_of_values(value: Value)
    ensures
        match value {
            Value::BulkString(bytes) => text_in(value) == Some(utf8_lossy(bytes@)),
            Value::SimpleString(text) => text_in(value) == Some(text@),
            Value::VerbatimString { text, .. } => text_in(value) == Some(text@),
            Value::Okay => text_in(value) == Some(seq!['O', 'K']),
            _ => text_in(value) is None,
        },
{
    reveal_strlit("OK");
    assert("OK"@ =~= seq!['O', 'K']);
}

/// The fields of pairs are the pairs; those of a list are its items two by two, without one
/// that is left over; nothing else has fields.
pub proof fn law_fields(value: Value)
    ensures
        match value {
            Value::Pairs(pairs) => fields(value) == pairs@,
            Value::Array(items) => fields(value).len() == items@.len() / 2 && forall|i: int|
                0 <= i < items@.len() / 2 ==> #[trigger] fields(value)[i] == (
                    items@[2 * i],
                    items@[2 * i + 1],
                ),
            _ => fields(value).len() == 0,
        },
{
}

/// Whether the text of `key` has the compared form `form`.
pub open spec fn has_form(key: Value, form: Seq<char>) -> bool {
    match text_in(key) {
        Some(text) => alphanumerics(text) == form,
        None => false,
    }
}

/// Whether field `i` is the first whose key has the compared form `form`.
pub open spec fn is_first_of_form(all: Seq<(Value, Value)>, form: Seq<char>, i: int) -> bool {
    &&& 0 <= i < all.len()
    &&& has_form(all[i].0, form)
    &&& forall|j: int| 0 <= j < i ==> !has_form((#[trigger] all[j]).0, form)
}

/// The field that is found is the first with one of the names; none is found only where none
/// has any of them.
pub proof fn law_first_field(all: Seq<(Value, Value)>, names: Seq<Seq<char>>)
    ensures
        first_field(all, names) matches Some(value) ==> exists|i: int, n: int|
            0 <= i < all.len() && 0 <= n < names.len() && (#[trigger] all[i]).1 == value
                && has_form(all[i].0, alphanumerics(#[trigger] names[n])) && forall|j: int, m: int|
                0 <= j < i && 0 <= m < names.len() ==> !has_form(
                    (#[trigger] all[j]).0,
                    alphanumerics(#[trigger] names[m]),
                ),
        first_field(all, names) is None ==> forall|j: int, m: int|
            0 <= j < all.len() && 0 <= m < names.len() ==> !has_form(
                (#[trigger] all[j]).0,
                alphanumerics(#[trigger] names[m]),
            ),
    decreases all.len(),
{
    if all.len() > 0 {
        if is_named(all[0].0, names) {
            let text = text_in(all[0].0)->0;
            let n = choose|n: int| 0 <= n < names.len() && same_name(text, #[trigger] names[n]);
            assert(has_form(all[0].0, alphanumerics(names[n])));
        } else {
            let rest = all.drop_first();
            law_first_field(rest, names);
            assert forall|m: int| 0 <= m < names.len() implies !has_form(
                all[0].0,
                alphanumerics(#[trigger] names[m]),
            ) by {
                if let Some(text) = text_in(all[0].0) {
                    assert(!same_name(text, names[m]));
                }
            }
            if let Some(value) = first_field(rest, names) {
                let (i, n) = choose|i: int, n: int|
                    0 <= i < rest.len() && 0 <= n < names.len() && (#[trigger] rest[i]).1 == value
                        && has_form(rest[i].0, alphanumerics(#[trigger] names[n])) && forall|
                        j: int,
                        m: int,
                    |
                        0 <= j < i && 0 <= m < names.len() ==> !has_form(
                            (#[trigger] rest[j]).0,
                            alphanumerics(#[trigger] names[m]),
                        );
                assert(all[i + 1] == rest[i]);
                assert forall|j: int, m: int|
                    0 <= j < i + 1 && 0 <= m < names.len() implies !has_form(
                    (#[trigger] all[j]).0,
                    alphanumerics(#[trigger] names[m]),
                ) by {
                    if j > 0 {
                        assert(rest[j - 1] == all[j]);
                    }
                }
                assert(all[i + 1].1 == value && has_form(
                    all[i + 1].0,
                    alphanumerics(names[n]),
                ));
            } else {
                assert forall|j: int, m: int|
                    0 <= j < all.len() && 0 <= m < names.len() implies !has_form(
                    (#[trigger] all[j]).0,
                    alphanumerics(#[trigger] names[m]),
                ) by {
                    if j > 0 {
                        assert(rest[j - 1] == all[j]);
                    }
                }
            }
        }
    }
}

proof fn lemma_plain_word(word: Seq<char>)
    requires
        forall|i: int| 0 <= i < word.len() ==> 97 <= #[trigger] word[i] as int <= 122,
    ensures
        alphanumerics(word) == word,
    decreases word.len(),
{
    if word.len() == 0 {
        law_compared_form(word, 'a');
        assert(word =~= Seq::<char>::empty());
    } else {
        let before = word.drop_last();
        assert forall|i: int| 0 <= i < before.len() implies 97 <= #[trigger] before[i] as int
            <= 122 by {
            assert(before[i] == word[i]);
        }
        assert(97 <= word[word.len() - 1] as int <= 122);
        lemma_plain_word(before);
        law_compared_form(before, word.last());
        assert(before.push(word.last()) =~= word);
    }
}

proof fn lemma_separated(a: Seq<char>, c: char, b: Seq<char>)
    requires
        forall|i: int| 0 <= i < a.len() ==> 97 <= #[trigger] a[i] as int <= 122,
        forall|i: int| 0 <= i < b.len() ==> 97 <= #[trigger] b[i] as int <= 122,
        c == '-' || c == '_' || c == ' ',
    ensures
        alphanumerics(a.push(c) + b) == a + b,
{
    lemma_plain_word(a);
    lemma_plain_word(b);
    law_compared_form(a, c);
    law_compared_form_of_two(a.push(c), b);
}

/// The compared forms of the names of the fields that are read.
pub proof fn law_compared_forms_of_names()
    ensures
        alphanumerics("availability-zone"@) == "availabilityzone"@,
        alphanumerics("availability_zone"@) == "availabilityzone"@,
        alphanumerics("availability zone"@) == "availabilityzone"@,
        alphanumerics("availabilityZone"@) == "availabilityzone"@,
        alphanumerics("az"@) == "az"@,
        alphanumerics("zone"@) == "zone"@,
        alphanumerics("port"@) == "port"@,
        alphanumerics("tls-port"@) == "tlsport"@,
        alphanumerics("tls_port"@) == "tlsport"@,
        alphanumerics("endpoint"@) == "endpoint"@,
        alphanumerics("hostname"@) == "hostname"@,
        alphanumerics("host"@) == "host"@,
        alphanumerics("ip"@) == "ip"@,
        alphanumerics("addr"@) == "addr"@,
        alphanumerics("nodes"@) == "nodes"@,
{
    reveal_strlit("availability-zone");
    reveal_strlit("availability_zone");
    reveal_strlit("availability zone");
    reveal_strlit("availabilityZone");
    reveal_strlit("availabilityzone");
    reveal_strlit("availability");
    reveal_strlit("one");
    reveal_strlit("az");
    reveal_strlit("zone");
    reveal_strlit("port");
    reveal_strlit("tls-port");
    reveal_strlit("tls_port");
    reveal_strlit("tlsport");
    reveal_strlit("tls");
    reveal_strlit("endpoint");
    reveal_strlit("hostname");
    reveal_strlit("host");
    reveal_strlit("ip");
    reveal_strlit("addr");
    reveal_strlit("nodes");
    lemma_plain_word("az"@);
    lemma_plain_word("zone"@);
    lemma_plain_word("port"@);
    lemma_plain_word("endpoint"@);
    lemma_plain_word("hostname"@);
    lemma_plain_word("host"@);
    lemma_plain_word("ip"@);
    lemma_plain_word("addr"@);
    lemma_plain_word("nodes"@);
    let first = "availability"@;
    let second = "zone"@;
    assert(first + second =~= "availabilityzone"@);
    lemma_separated(first, '-', second);
    assert(first.push('-') + second =~= "availability-zone"@);
    lemma_separated(first, '_', second);
    assert(first.push('_') + second =~= "availability_zone"@);
    lemma_separated(first, ' ', second);
    assert(first.push(' ') + second =~= "availability zone"@);
    lemma_plain_word(first);
    lemma_plain_word("one"@);
    law_compared_form(first, 'Z');
    law_compared_form_of_two(first.push('Z'), "one"@);
    assert(first.push('Z') + "one"@ =~= "availabilityZone"@);
    assert(first.push('z') + "one"@ =~= "availabilityzone"@);
    assert(('Z' as int + 32) as char == 'z');
    lemma_separated("tls"@, '-', "port"@);
    assert("tls"@.push('-') + "port"@ =~= "tls-port"@);
    lemma_separated("tls"@, '_', "port"@);
    assert("tls"@.push('_') + "port"@ =~= "tls_port"@);
    assert("tls"@ + "port"@ =~= "tlsport"@);
}

/// Whether `key` names a zone, in any of the ways to write it.
pub open spec fn names_zone(key: Value) -> bool {
    has_form(key, "availabilityzone"@) || has_form(key, "az"@) || has_form(key, "zone"@)
}

/// A node's zone is the text, without white space around it, of its first field that names
/// one. It has none where that field has no text or a blank one, or where no field names one.
pub proof fn law_zone_of_node(node: Value)
    ensures
        forall|i: int|
            0 <= i < fields(node).len() && names_zone((#[trigger] fields(node)[i]).0) && (forall|
                j: int,
            |
                0 <= j < i ==> !names_zone((#[trigger] fields(node)[j]).0)) ==> match text_in(
                fields(node)[i].1,
            ) {
                Some(text) => if trimmed(text).len() > 0 {
                    node_zone(node) == Some(trimmed(text))
                } else {
                    node_zone(node) is None
                },
                None => node_zone(node) is None,
            },
        (forall|j: int| 0 <= j < fields(node).len() ==> !names_zone((#[trigger] fields(node)[j]).0))
            ==> node_zone(node) is None,
{
    let all = fields(node);
    let names = zone_names();
    law_compared_forms_of_names();
    law_first_field(all, names);
    assert forall|i: int| 0 <= i < all.len() implies (names_zone((#[trigger] all[i]).0) <==> exists|
        n: int,
    |
        0 <= n < names.len() && has_form(all[i].0, alphanumerics(#[trigger] names[n]))) by {
        if has_form(all[i].0, "availabilityzone"@) {
            assert(has_form(all[i].0, alphanumerics(names[0])));
        }
        if has_form(all[i].0, "az"@) {
            assert(has_form(all[i].0, alphanumerics(names[4])));
        }
        if has_form(all[i].0, "zone"@) {
            assert(has_form(all[i].0, alphanumerics(names[5])));
        }
    }
    assert forall|i: int|
        0 <= i < all.len() && names_zone((#[trigger] all[i]).0) && (forall|j: int|
            0 <= j < i ==> !names_zone((#[trigger] all[j]).0)) implies first_field(all, names)
        == Some(all[i].1) by {
        let n = choose|n: int|
            0 <= n < names.len() && has_form(all[i].0, alphanumerics(#[trigger] names[n]));
        assert(first_field(all, names) is Some);
        let value = first_field(all, names)->0;
        let (k, m) = choose|k: int, m: int|
            0 <= k < all.len() && 0 <= m < names.len() && (#[trigger] all[k]).1 == value
                && has_form(all[k].0, alphanumerics(#[trigger] names[m])) && forall|
                j: int,
                m: int,
            |
                0 <= j < k && 0 <= m < names.len() ==> !has_form(
                    (#[trigger] all[j]).0,
                    alphanumerics(#[trigger] names[m]),
                );
        assert(names_zone(all[k].0));
        assert(k >= i);
        if k > i {
            assert(!has_form(all[i].0, alphanumerics(names[n])));
        }
    }
    if forall|j: int| 0 <= j < all.len() ==> !names_zone((#[trigger] all[j]).0) {
        if let Some(value) = first_field(all, names) {
            let (k, m) = choose|k: int, m: int|
                0 <= k < all.len() && 0 <= m < names.len() && (#[trigger] all[k]).1 == value
                    && has_form(all[k].0, alphanumerics(#[trigger] names[m])) && forall|
                    j: int,
                    m: int,
                |
                    0 <= j < k && 0 <= m < names.len() ==> !has_form(
                        (#[trigger] all[j]).0,
                        alphanumerics(#[trigger] names[m]),
                    );
            assert(names_zone(all[k].0));
        }
    }
}

/// The value of the first field whose key has the compared form `form`.
pub open spec fn value_of_form(all: Seq<(Value, Value)>, form: Seq<char>) -> Option<Value> {
    if exists|i: int| is_first_of_form(all, form, i) {
        Some(all[choose|i: int| is_first_of_form(all, form, i)].1)
    } else {
        None
    }
}

proof fn lemma_field_of_name(all: Seq<(Value, Value)>, name: Seq<char>)
    ensures
        first_field(all, seq![name]) == value_of_form(all, alphanumerics(name)),
{
    let names = seq![name];
    let form = alphanumerics(name);
    law_first_field(all, names);
    if let Some(value) = first_field(all, names) {
        let (k, m) = choose|k: int, m: int|
            0 <= k < all.len() && 0 <= m < names.len() && (#[trigger] all[k]).1 == value
                && has_form(all[k].0, alphanumerics(#[trigger] names[m])) && forall|
                j: int,
                m: int,
            |
                0 <= j < k && 0 <= m < names.len() ==> !has_form(
                    (#[trigger] all[j]).0,
                    alphanumerics(#[trigger] names[m]),
                );
        assert(names[0] == name);
        assert(is_first_of_form(all, form, k));
        let i = choose|i: int| is_first_of_form(all, form, i);
        assert(is_first_of_form(all, form, i));
        assert(i == k) by {
            if i < k {
                assert(!has_form(all[i].0, form));
            }
            if k < i {
                assert(!has_form(all[k].0, form));
            }
        }
    } else {
        assert(names[0] == name);
        assert forall|i: int| !is_first_of_form(all, form, i) by {
            if is_first_of_form(all, form, i) {
                assert(!has_form(all[i].0, alphanumerics(names[0])));
            }
        }
    }
}

/// Whether `value` is an integer that is a port.
pub open spec fn is_port(value: Option<Value>) -> bool {
    match value {
        Some(Value::Int(port)) => 0 <= port <= 65535,
        _ => false,
    }
}

/// A node's port is in its field `port`, or where that holds none in its field for TLS. A node
/// with a port in neither has no address.
pub proof fn law_port_of_node(node: Value, answering: Seq<char>)
    ensures
        ({
            let plain = value_of_form(fields(node), "port"@);
            let tls = value_of_form(fields(node), "tlsport"@);
            &&& shard_node_address(node, answering) matches Some(address) ==> {
                &&& is_port(plain) || is_port(tls)
                &&& is_port(plain) ==> address.1 == plain->0->Int_0
                &&& !is_port(plain) ==> address.1 == tls->0->Int_0
            }
            &&& !is_port(plain) && !is_port(tls) ==> shard_node_address(node, answering) is None
        }),
{
    let all = fields(node);
    let names = port_names();
    law_compared_forms_of_names();
    lemma_field_of_name(all, "port"@);
    lemma_field_of_name(all, "tls-port"@);
    lemma_field_of_name(all, "tls_port"@);
    let later = names.drop_first();
    let last = later.drop_first();
    assert(names[0] == "port"@ && later[0] == "tls-port"@ && last[0] == "tls_port"@);
    assert(last.drop_first() =~= Seq::<Seq<char>>::empty());
    assert(first_port(node, last.drop_first()) is None);
    assert(first_port(node, last) == port_in(node, "tls_port"@));
    assert(first_port(node, later) == port_in(node, "tls-port"@));
}

/// The compared form of the name of the `k`th field that may hold a host.
pub open spec fn host_form(k: int) -> Seq<char> {
    if k == 0 {
        "endpoint"@
    } else if k == 1 {
        "hostname"@
    } else if k == 2 {
        "host"@
    } else if k == 3 {
        "ip"@
    } else {
        "addr"@
    }
}

/// The text of a field that may hold a host, without white space around it. A question mark is
/// none.
pub open spec fn host_text(value: Option<Value>) -> Option<Seq<char>> {
    match value {
        Some(value) => match text_in(value) {
            Some(text) => if trimmed(text) == seq!['?'] {
                None
            } else {
                Some(trimmed(text))
            },
            None => None,
        },
        None => None,
    }
}

proof fn lemma_host_in(node: Value, name: Seq<char>, answering: Seq<char>)
    ensures
        match host_text(value_of_form(fields(node), alphanumerics(name))) {
            Some(text) => host_in(node, name, answering) == Some(
                if text.len() == 0 || text == seq!['0', '.', '0', '.', '0', '.', '0'] || text
                    == seq![':', ':'] {
                    answering
                } else {
                    text
                },
            ),
            None => host_in(node, name, answering) is None,
        },
{
    lemma_field_of_name(fields(node), name);
    reveal_strlit("?");
    assert("?"@ =~= seq!['?']);
    if let Some(value) = value_of_form(fields(node), alphanumerics(name)) {
        if let Some(text) = text_in(value) {
            crate::slot_reply_laws::law_wildcards(trimmed(text));
        }
    }
}

/// A node's host is in the first of its fields `endpoint`, `hostname`, `host`, `ip` and `addr`
/// that tells of one; an empty or wildcard host there is that of the node that answered. A
/// node with a host in none of them has no address, and one with a host and a port has.
pub proof fn law_host_of_node(node: Value, answering: Seq<char>, k: int)
    requires
        0 <= k < 5,
        host_text(value_of_form(fields(node), host_form(k))) is Some,
        forall|j: int|
            0 <= j < k ==> host_text(value_of_form(fields(node), #[trigger] host_form(j))) is None,
        is_port(value_of_form(fields(node), "port"@)) || is_port(
            value_of_form(fields(node), "tlsport"@),
        ),
    ensures
        shard_node_address(node, answering) is Some,
        ({
            let address = shard_node_address(node, answering).unwrap();
            let host = address.0;
            let text = host_text(value_of_form(fields(node), host_form(k)))->0;
            let unnamed = text.len() == 0 || text == seq!['0', '.', '0', '.', '0', '.', '0'] || text
                == seq![':', ':'];
            &&& unnamed ==> host == answering
            &&& !unnamed ==> host == text
        }),
{
    lemma_hosts(node, answering);
    assert(host_form(0) == "endpoint"@ && host_form(1) == "hostname"@ && host_form(2) == "host"@
        && host_form(3) == "ip"@ && host_form(4) == "addr"@);
    lemma_ports(node, answering);
}

/// A node without a host in any of its fields has no address.
pub proof fn law_node_without_host(node: Value, answering: Seq<char>)
    requires
        forall|j: int|
            0 <= j < 5 ==> host_text(value_of_form(fields(node), #[trigger] host_form(j))) is None,
    ensures
        shard_node_address(node, answering) is None,
{
    lemma_hosts(node, answering);
    assert(host_form(0) == "endpoint"@ && host_form(1) == "hostname"@ && host_form(2) == "host"@
        && host_form(3) == "ip"@ && host_form(4) == "addr"@);
}

proof fn lemma_ports(node: Value, answering: Seq<char>)
    requires
        is_port(value_of_form(fields(node), "port"@)) || is_port(
            value_of_form(fields(node), "tlsport"@),
        ),
    ensures
        first_port(node, port_names()) is Some,
{
    let all = fields(node);
    law_compared_forms_of_names();
    lemma_field_of_name(all, "port"@);
    lemma_field_of_name(all, "tls-port"@);
    let names = port_names();
    let later = names.drop_first();
    assert(names[0] == "port"@ && later[0] == "tls-port"@);
    assert(first_port(node, later) is Some || port_in(node, "tls-port"@) is None);
}

proof fn lemma_hosts(node: Value, answering: Seq<char>)
    ensures
        ({
            let a = host_in(node, "endpoint"@, answering);
            let b = host_in(node, "hostname"@, answering);
            let c = host_in(node, "host"@, answering);
            let d = host_in(node, "ip"@, answering);
            let e = host_in(node, "addr"@, answering);
            first_host(node, host_names(), answering) == if a is Some {
                a
            } else if b is Some {
                b
            } else if c is Some {
                c
            } else if d is Some {
                d
            } else {
                e
            }
        }),
        forall|k: int|
            0 <= k < 5 ==> match host_text(value_of_form(fields(node), #[trigger] host_form(k))) {
                Some(text) => host_in(node, host_form(k), answering) == Some(
                    if text.len() == 0 || text == seq!['0', '.', '0', '.', '0', '.', '0'] || text
                        == seq![':', ':'] {
                        answering
                    } else {
                        text
                    },
                ),
                None => host_in(node, host_form(k), answering) is None,
            },
{
    law_compared_forms_of_names();
    lemma_host_in(node, "endpoint"@, answering);
    lemma_host_in(node, "hostname"@, answering);
    lemma_host_in(node, "host"@, answering);
    lemma_host_in(node, "ip"@, answering);
    lemma_host_in(node, "addr"@, answering);
    let names = host_names();
    let n1 = names.drop_first();
    let n2 = n1.drop_first();
    let n3 = n2.drop_first();
    let n4 = n3.drop_first();
    assert(names[0] == "endpoint"@ && n1[0] == "hostname"@ && n2[0] == "host"@ && n3[0] == "ip"@
        && n4[0] == "addr"@);
    assert(n4.drop_first() =~= Seq::<Seq<char>>::empty());
    assert(first_host(node, n4.drop_first(), answering) is None);
    assert(first_host(node, n4, answering) == host_in(node, "addr"@, answering));
    assert(first_host(node, n3, answering) == if host_in(node, "ip"@, answering) is Some {
        host_in(node, "ip"@, answering)
    } else {
        first_host(node, n4, answering)
    });
    assert(first_host(node, n2, answering) == if host_in(node, "host"@, answering) is Some {
        host_in(node, "host"@, answering)
    } else {
        first_host(node, n3, answering)
    });
    assert(first_host(node, n1, answering) == if host_in(node, "hostname"@, answering) is Some {
        host_in(node, "hostname"@, answering)
    } else {
        first_host(node, n2, answering)
    });
}

/// The nodes of a shard are the list in its first field `nodes`, and none where that field is
/// absent or no list.
pub proof fn law_nodes_of_shard(shard: Value)
    ensures
        match value_of_form(fields(shard), "nodes"@) {
            Some(Value::Array(nodes)) => nodes_of_shard(shard) == nodes@,
            _ => nodes_of_shard(shard).len() == 0,
        },
{
    law_compared_forms_of_names();
    lemma_field_of_name(fields(shard), "nodes"@);
}

/// Whether `node` has the address `key` and a zone.
pub open spec fn tells_zone_of(node: Value, answering: Seq<char>, key: NodeKey) -> bool {
    shard_node_address(node, answering) == Some(key) && node_zone(node) is Some
}

proof fn lemma_with_node(
    zones: Map<NodeKey, Seq<char>>,
    node: Value,
    answering: Seq<char>,
    key: NodeKey,
)
    ensures
        tells_zone_of(node, answering, key) ==> with_node(zones, node, answering).contains_key(key)
            && with_node(zones, node, answering)[key] == node_zone(node)->0,
        !tells_zone_of(node, answering, key) ==> with_node(zones, node, answering).contains_key(key)
            == zones.contains_key(key) && (zones.contains_key(key) ==> with_node(
            zones,
            node,
            answering,
        )[key] == zones[key]),
{
}

proof fn lemma_untold_node(
    zones: Map<NodeKey, Seq<char>>,
    nodes: Seq<Value>,
    answering: Seq<char>,
    key: NodeKey,
)
    requires
        forall|k: int|
            0 <= k < nodes.len() ==> !tells_zone_of(#[trigger] nodes[k], answering, key),
    ensures
        with_nodes(zones, nodes, answering).contains_key(key) == zones.contains_key(key),
        zones.contains_key(key) ==> with_nodes(zones, nodes, answering)[key] == zones[key],
    decreases nodes.len(),
{
    if nodes.len() > 0 {
        let before = nodes.drop_last();
        assert forall|k: int| 0 <= k < before.len() implies !tells_zone_of(
            #[trigger] before[k],
            answering,
            key,
        ) by {
            assert(before[k] == nodes[k]);
        }
        lemma_untold_node(zones, before, answering, key);
        assert(!tells_zone_of(nodes[nodes.len() - 1], answering, key));
        lemma_with_node(with_nodes(zones, before, answering), nodes.last(), answering, key);
    }
}

proof fn lemma_told_node(
    zones: Map<NodeKey, Seq<char>>,
    nodes: Seq<Value>,
    answering: Seq<char>,
    key: NodeKey,
    j: int,
)
    requires
        0 <= j < nodes.len(),
        tells_zone_of(nodes[j], answering, key),
        forall|k: int|
            j < k < nodes.len() ==> !tells_zone_of(#[trigger] nodes[k], answering, key),
    ensures
        with_nodes(zones, nodes, answering).contains_key(key),
        with_nodes(zones, nodes, answering)[key] == node_zone(nodes[j])->0,
    decreases nodes.len(),
{
    let before = nodes.drop_last();
    lemma_with_node(with_nodes(zones, before, answering), nodes.last(), answering, key);
    if j < before.len() {
        assert(before[j] == nodes[j]);
        assert forall|k: int| j < k < before.len() implies !tells_zone_of(
            #[trigger] before[k],
            answering,
            key,
        ) by {
            assert(before[k] == nodes[k]);
        }
        lemma_told_node(zones, before, answering, key, j);
        assert(!tells_zone_of(nodes[nodes.len() - 1], answering, key));
    }
}

proof fn lemma_zones_of_nodes(
    zones: Map<NodeKey, Seq<char>>,
    nodes: Seq<Value>,
    answering: Seq<char>,
    key: NodeKey,
)
    ensures
        forall|j: int|
            0 <= j < nodes.len() && tells_zone_of(#[trigger] nodes[j], answering, key) && (forall|
                k: int,
            |
                j < k < nodes.len() ==> !tells_zone_of(#[trigger] nodes[k], answering, key))
                ==> with_nodes(zones, nodes, answering).contains_key(key) && with_nodes(
                zones,
                nodes,
                answering,
            )[key] == node_zone(nodes[j])->0,
        (forall|k: int|
            0 <= k < nodes.len() ==> !tells_zone_of(#[trigger] nodes[k], answering, key)) ==> (
        with_nodes(zones, nodes, answering).contains_key(key) == zones.contains_key(key) && (
        zones.contains_key(key) ==> with_nodes(zones, nodes, answering)[key] == zones[key])),
{
    assert forall|j: int|
        0 <= j < nodes.len() && tells_zone_of(#[trigger] nodes[j], answering, key) && (forall|
            k: int,
        |
            j < k < nodes.len() ==> !tells_zone_of(
                #[trigger] nodes[k],
                answering,
                key,
            )) implies with_nodes(zones, nodes, answering).contains_key(key) && with_nodes(
        zones,
        nodes,
        answering,
    )[key] == node_zone(nodes[j])->0 by {
        lemma_told_node(zones, nodes, answering, key, j);
    }
    if forall|k: int|
        0 <= k < nodes.len() ==> !tells_zone_of(#[trigger] nodes[k], answering, key) {
        lemma_untold_node(zones, nodes, answering, key);
    }
}

/// Whether some node of `shards` from the shard `from` on has the address `key` and a zone.
pub open spec fn told_from(
    shards: Seq<Value>,
    from: int,
    answering: Seq<char>,
    key: NodeKey,
) -> bool {
    exists|i: int, j: int|
        0 <= i && from <= i < shards.len() && 0 <= j < nodes_of_shard(shards[i]).len()
            && #[trigger] tells_zone_of(nodes_of_shard(shards[i])[j], answering, key)
}

proof fn lemma_told_before(shards: Seq<Value>, from: int, answering: Seq<char>, key: NodeKey)
    requires
        shards.len() > 0,
        !told_from(shards, from, answering, key),
    ensures
        !told_from(shards.drop_last(), from, answering, key),
{
    let before = shards.drop_last();
    if told_from(before, from, answering, key) {
        let (i, j) = choose|i: int, j: int|
            0 <= i && from <= i < before.len() && 0 <= j < nodes_of_shard(before[i]).len()
                && #[trigger] tells_zone_of(nodes_of_shard(before[i])[j], answering, key);
        assert(before[i] == shards[i]);
        assert(tells_zone_of(nodes_of_shard(shards[i])[j], answering, key));
    }
}

proof fn lemma_untold_last(shards: Seq<Value>, from: int, answering: Seq<char>, key: NodeKey, k: int)
    requires
        0 <= from < shards.len(),
        !told_from(shards, from, answering, key),
        0 <= k < nodes_of_shard(shards[shards.len() - 1]).len(),
    ensures
        !tells_zone_of(nodes_of_shard(shards[shards.len() - 1])[k], answering, key),
{
}

proof fn lemma_untold_shards(shards: Seq<Value>, answering: Seq<char>, key: NodeKey)
    requires
        !told_from(shards, 0, answering, key),
    ensures
        !zones_of_shards(shards, answering).contains_key(key),
    decreases shards.len(),
{
    if shards.len() > 0 {
        let before = shards.drop_last();
        let nodes = nodes_of_shard(shards[shards.len() - 1]);
        lemma_told_before(shards, 0, answering, key);
        lemma_untold_shards(before, answering, key);
        assert forall|k: int| 0 <= k < nodes.len() implies !tells_zone_of(
            #[trigger] nodes[k],
            answering,
            key,
        ) by {
            lemma_untold_last(shards, 0, answering, key, k);
        }
        lemma_untold_node(zones_of_shards(before, answering), nodes, answering, key);
    }
}

proof fn lemma_told_shard(
    shards: Seq<Value>,
    answering: Seq<char>,
    key: NodeKey,
    i: int,
    j: int,
)
    requires
        0 <= i < shards.len(),
        0 <= j < nodes_of_shard(shards[i]).len(),
        tells_zone_of(nodes_of_shard(shards[i])[j], answering, key),
        forall|k: int|
            j < k < nodes_of_shard(shards[i]).len() ==> !tells_zone_of(
                #[trigger] nodes_of_shard(shards[i])[k],
                answering,
                key,
            ),
        !told_from(shards, i + 1, answering, key),
    ensures
        zones_of_shards(shards, answering).contains_key(key),
        zones_of_shards(shards, answering)[key] == node_zone(nodes_of_shard(shards[i])[j])->0,
    decreases shards.len(),
{
    let before = shards.drop_last();
    let last = shards.len() - 1;
    let nodes = nodes_of_shard(shards[last]);
    let earlier = zones_of_shards(before, answering);
    if i < last {
        assert(before[i] == shards[i]);
        lemma_told_before(shards, i + 1, answering, key);
        lemma_told_shard(before, answering, key, i, j);
        assert forall|k: int| 0 <= k < nodes.len() implies !tells_zone_of(
            #[trigger] nodes[k],
            answering,
            key,
        ) by {
            lemma_untold_last(shards, i + 1, answering, key, k);
        }
        lemma_untold_node(earlier, nodes, answering, key);
    } else {
        lemma_told_node(earlier, nodes, answering, key, j);
    }
}

/// Every node of every shard that has an address and a zone has its zone in the result, unless
/// a later node, of the same shard or of a later one, has the same address and a zone: the last
/// one counts.
pub proof fn law_zones_of_all_shards(
    shards: Vec<Value>,
    answering: Seq<char>,
    i: int,
    j: int,
    key: NodeKey,
)
    requires
        0 <= i < shards@.len(),
        0 <= j < nodes_of_shard(shards@[i]).len(),
        shard_node_address(nodes_of_shard(shards@[i])[j], answering) == Some(key),
        node_zone(nodes_of_shard(shards@[i])[j]) is Some,
        forall|k: int|
            j < k < nodes_of_shard(shards@[i]).len() ==> !tells_zone_of(
                #[trigger] nodes_of_shard(shards@[i])[k],
                answering,
                key,
            ),
        forall|m: int, k: int|
            i < m < shards@.len() && 0 <= k < nodes_of_shard(shards@[m]).len()
                ==> !#[trigger] tells_zone_of(nodes_of_shard(shards@[m])[k], answering, key),
    ensures
        zones_of_reply(Value::Array(shards), answering).contains_key(key),
        zones_of_reply(Value::Array(shards), answering)[key] == node_zone(
            nodes_of_shard(shards@[i])[j],
        )->0,
{
    assert(!told_from(shards@, i + 1, answering, key));
    lemma_told_shard(shards@, answering, key, i, j);
}

/// A node has a zone in the result only where the reply has a node with its address and a zone;
/// what is no list tells of none.
pub proof fn law_no_other_zones(shards: Vec<Value>, other: Value, answering: Seq<char>, key: NodeKey)
    requires
        other !is Array,
    ensures
        zones_of_reply(Value::Array(shards), answering).contains_key(key) <==> exists|
            i: int,
            j: int,
        |
            0 <= i < shards@.len() && 0 <= j < nodes_of_shard(shards@[i]).len()
                && #[trigger] tells_zone_of(nodes_of_shard(shards@[i])[j], answering, key),
        !zones_of_reply(other, answering).contains_key(key),
{
    if told_from(shards@, 0, answering, key) {
        lemma_last_told(shards@, answering, key);
    } else {
        lemma_untold_shards(shards@, answering, key);
    }
}

proof fn lemma_last_told(shards: Seq<Value>, answering: Seq<char>, key: NodeKey)
    requires
        told_from(shards, 0, answering, key),
    ensures
        zones_of_shards(shards, answering).contains_key(key),
    decreases shards.len(),
{
    let (i, j) = choose|i: int, j: int|
        0 <= i < shards.len() && 0 <= j < nodes_of_shard(shards[i]).len()
            && #[trigger] tells_zone_of(nodes_of_shard(shards[i])[j], answering, key);
    let before = shards.drop_last();
    let last = shards.len() - 1;
    let nodes = nodes_of_shard(shards[last]);
    lemma_zones_of_nodes(zones_of_shards(before, answering), nodes, answering, key);
    if exists|k: int| 0 <= k < nodes.len() && tells_zone_of(#[trigger] nodes[k], answering, key) {
        lemma_last_node(nodes, answering, key);
    } else {
        assert(i < last) by {
            if i == last {
                assert(tells_zone_of(nodes[j], answering, key));
            }
        }
        assert(before[i] == shards[i]);
        assert(tells_zone_of(nodes_of_shard(before[i])[j], answering, key));
        lemma_last_told(before, answering, key);
    }
}

proof fn lemma_last_node(nodes: Seq<Value>, answering: Seq<char>, key: NodeKey)
    requires
        exists|k: int| 0 <= k < nodes.len() && tells_zone_of(#[trigger] nodes[k], answering, key),
    ensures
        exists|j: int|
            0 <= j < nodes.len() && tells_zone_of(#[trigger] nodes[j], answering, key) && forall|
                k: int,
            |
                j < k < nodes.len() ==> !tells_zone_of(#[trigger] nodes[k], answering, key),
    decreases nodes.len(),
{
    let last = nodes.len() - 1;
    if tells_zone_of(nodes[last], answering, key) {
    } else {
        let before = nodes.drop_last();
        let k = choose|k: int|
            0 <= k < nodes.len() && tells_zone_of(#[trigger] nodes[k], answering, key);
        assert(before[k] == nodes[k]);
        lemma_last_node(before, answering, key);
        let j = choose|j: int|
            0 <= j < before.len() && tells_zone_of(#[trigger] before[j], answering, key) && forall|
                k: int,
            |
                j < k < before.len() ==> !tells_zone_of(#[trigger] before[k], answering, key);
        assert(nodes[j] == before[j]);
        assert forall|k: int| j < k < nodes.len() implies !tells_zone_of(
            #[trigger] nodes[k],
            answering,
            key,
        ) by {
            if k < last {
                assert(before[k] == nodes[k]);
            }
        }
    }
}

/// What is read out of a reply has the zone of every node of every shard that has an address
/// and a zone, the last one's where several have the address, and of no other node.
pub proof fn law_parsed_shards(
    reply: &Value,
    answering: &str,
    zones: NodeZones,
    shards: Vec<Value>,
    key: NodeKey,
)
    requires
        call_ensures(parse_cluster_shards_availability_zones, (reply, answering), zones),
        *reply == Value::Array(shards),
    ensures
        zones@.contains_key(key) <==> exists|i: int, j: int|
            0 <= i < shards@.len() && 0 <= j < nodes_of_shard(shards@[i]).len()
                && #[trigger] tells_zone_of(nodes_of_shard(shards@[i])[j], answering@, key),
        forall|i: int, j: int|
            0 <= i < shards@.len() && 0 <= j < nodes_of_shard(shards@[i]).len()
                && #[trigger] tells_zone_of(nodes_of_shard(shards@[i])[j], answering@, key)
                && (forall|k: int|
                j < k < nodes_of_shard(shards@[i]).len() ==> !tells_zone_of(
                    #[trigger] nodes_of_shard(shards@[i])[k],
                    answering@,
                    key,
                )) && (forall|m: int, k: int|
                i < m < shards@.len() && 0 <= k < nodes_of_shard(shards@[m]).len()
                    ==> !#[trigger] tells_zone_of(nodes_of_shard(shards@[m])[k], answering@, key))
                ==> Some(zones@[key]) == node_zone(nodes_of_shard(shards@[i])[j]),
{
    law_no_other_zones(shards, Value::Nil, answering@, key);
    assert forall|i: int, j: int|
        0 <= i < shards@.len() && 0 <= j < nodes_of_shard(shards@[i]).len()
            && #[trigger] tells_zone_of(nodes_of_shard(shards@[i])[j], answering@, key) && (forall|
            k: int,
        |
            j < k < nodes_of_shard(shards@[i]).len() ==> !tells_zone_of(
                #[trigger] nodes_of_shard(shards@[i])[k],
                answering@,
                key,
            )) && (forall|m: int, k: int|
            i < m < shards@.len() && 0 <= k < nodes_of_shard(shards@[m]).len()
                ==> !#[trigger] tells_zone_of(
                nodes_of_shard(shards@[m])[k],
                answering@,
                key,
            )) implies Some(zones@[key]) == node_zone(nodes_of_shard(shards@[i])[j]) by {
        law_zones_of_all_shards(shards, answering@, i, j, key);
    }
}

} // verus!
