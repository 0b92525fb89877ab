//! Codec and collection logic for the eMule/Kademlia overlay.
//!
//! The crate decodes the Kad UDP packet family and the on-disk formats
//! (`nodes.dat`, `known2_64.dat`, `clients.met`), and models the peer
//! store and the bootstrap collection engine that harvests contacts.

pub mod bytes;
pub mod clientcredit;
pub mod engine;
pub mod known2;
pub mod nodes;
pub mod store;
pub mod udp_proto;
