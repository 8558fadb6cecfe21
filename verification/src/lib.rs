//! Banter: a small peer-to-peer chat protocol.
//!
//! The library holds the protocol's logic: the binary message codec, peer and
//! socket-address text formats, the peer table with its heartbeat bookkeeping,
//! and the decisions of the chat node. Networking, timers and the terminal are
//! driven by the program around it.
pub mod buffer;
pub mod error;
pub mod id;
pub mod message;
pub mod node;
pub mod peer;
pub mod peerlist;
pub mod socket;
pub mod text;
pub mod util;

pub use error::Error;
pub use id::PeerId;
pub use message::{P2pMsg, PEER_BYTES_LEN};
pub use node::{translate_cmd, Cmd, NodeOptions};
pub use peer::Peer;
pub use peerlist::{PeerTable, PeerlistOptions, PeerlistState, Peers};
pub use socket::SocketAddrV4;
pub use util::base64::format_base64;
pub use util::{base64_decode, base64_encode, parse_ipv4socket};
