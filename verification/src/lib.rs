//! A gRPC client library: persistent attribute maps, the decisions of the
//! load-balancing policies (pick-first, round-robin, graceful switch, the
//! child manager, lazy building), the parsing of channel targets for the
//! DNS and Unix resolvers, the lifecycle of subchannels, the RPC stream
//! protocol, metadata, and message compression.

pub mod attributes;
pub mod byte_str;
pub mod client;
pub mod codec;
pub mod core_types;
pub mod key_order;
pub mod metadata;
pub mod registry;
pub mod status;
