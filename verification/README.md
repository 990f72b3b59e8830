# redis_cluster

Parts of a Redis cluster client, written in Verus: the code in `src/` carries contracts, and
Verus proves them.

* `slot_range_map` maps ranges of slots to values; `slot_range_laws` states what holds of it.
* `topology` reads the ranges of slots out of a reply to `CLUSTER SLOTS`;
  `topology_laws` states what holds of what is read.
* `zone_metadata` and `zone_names` read availability zones out of replies to
  `CLUSTER SHARDS` and `INFO SERVER` and out of hosts' names; `zone_discovery` keeps what was
  found and how. `zone_laws` states what holds of them.
* `read_routing` and `zonal_read_routing` route reads to replicas in the caller's zone;
  `zonal_laws` states where they go.
* `resp_commands` decodes commands for the log; `command_logger` makes the entries for a file
  and for a UDP endpoint. `logger_laws` and `id_laws` state what holds of lines, identifiers
  and timestamps.
* `node_address`, `node_collections`, `value`, `text` and `arc_str` hold what the others share.

What is believed without proof stands in three places: the strings of the `arcstr` crate
(`arc_str`), the hash of the `xxhash-rust` crate (`command_logger`), and two functions of the
standard library on strings (`text`).

`app/` is ordinary Rust around the library: the environment, files, sockets, clocks and locks.
