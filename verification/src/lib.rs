//! The logic of a BitTorrent client: torrent files, trackers, the peer protocol, and which blocks
//! to download from whom.

pub mod bencode_laws;
pub mod bencode_parser;
pub mod bits;
pub mod chance;
pub mod client_laws;
pub mod debug_text;
pub mod dict;
pub mod download;
pub mod fields;
pub mod fixed_length_chain;
pub mod message_laws;
pub mod peer_connection;
pub mod peer_laws;
pub mod query_laws;
pub mod queue_laws;
pub mod request_laws;
pub mod source_laws;
pub mod swarm;
pub mod swarm_laws;
pub mod tcp_peer_communicator;
pub mod text;
pub mod torrent_laws;
pub mod torrent_parser;
pub mod tracker;
pub mod tracker_laws;
pub mod types;
pub mod url_query;
pub mod wire_laws;
pub mod worker_laws;
pub mod worker_queue;
