//! Cluster topology, zone-aware read routing and command logging for a Redis
//! cluster client.

pub mod arc_str;
pub mod command_logger;
pub mod id_laws;
pub mod log_line_laws;
pub mod logger_laws;
pub mod node_address;
pub mod node_collections;
pub mod node_laws;
pub mod read_routing;
pub mod resp_commands;
pub mod slot_map_laws;
pub mod slot_range_laws;
pub mod slot_range_map;
pub mod slot_reply_laws;
pub mod text;
pub mod text_laws;
pub mod topology;
pub mod topology_laws;
pub mod value;
pub mod zonal_laws;
pub mod zonal_read_routing;
pub mod zonal_routing_laws;
pub mod zone_discovery;
pub mod zone_laws;
pub mod zone_metadata;
pub mod zone_names;
pub mod zone_reply_laws;
pub mod zone_text_laws;
