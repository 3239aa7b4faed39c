//! Matrix server-to-server federation: the decisions, parsers and protocol
//! rules of a homeserver's federation layer, with machine-checked contracts.

pub mod api;
pub mod auth_chain;
pub mod backfill;
pub mod client;
pub mod directory;
pub mod edu;
pub mod fetch;
pub mod filler;
pub mod gaps;
pub mod intake;
pub mod invite;
pub mod ip;
pub mod join;
pub mod json;
pub mod key_cache;
pub mod keys;
pub mod media;
pub mod observers;
pub mod pdu;
pub mod persist;
pub mod receipts;
pub mod receive;
pub mod resolver;
pub mod room_state;
pub mod sender;
pub mod server_acl;
pub mod server_keys;
pub mod server_map;
pub mod table;
pub mod text;
pub mod transaction;
pub mod typing;
pub mod visibility;
pub mod xmatrix;
