//! Protocol core of a peer-to-peer chat carried over a short-range, small-MTU
//! wireless transport: wire codec, fragmentation and reassembly, peer presence,
//! pairwise encryption and packet dispatch.

pub mod connection_manager;
pub mod external;
pub mod fragment_manager;
pub mod packet;
pub mod packet_processor;
pub mod peer_manager;
pub mod protocol;
pub mod security_manager;
pub mod service;
pub mod wire;
