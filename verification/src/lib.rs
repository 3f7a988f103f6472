//! Server-to-client state replication for entity-component worlds.
//!
//! The server walks its replicated entities once per tick, diffs them against
//! each connected client's acknowledged state and builds one change message
//! (structural updates, delivered in order) and one mutate message (pure value
//! updates, delivered unordered) per client. Clients buffer out-of-order
//! messages, translate entity identifiers through a bidirectional map and
//! apply updates once their dependencies are satisfied.

pub mod assoc;
pub mod buffer;
pub mod change_tick;
pub mod change_message;
pub mod client;
pub mod client_world;
pub mod codec;
pub mod collect;
pub mod command_markers;
pub mod entity;
pub mod entity_map;
pub mod event_queue;
pub mod events;
pub mod message_parse;
pub mod messages;
pub mod mutate_message;
pub mod replicated_clients;
pub mod rules;
pub mod server;
pub mod snapshot;
pub mod tick;
pub mod varint;
pub mod visibility;

pub use tick::RepliconTick;
