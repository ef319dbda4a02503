//! Reliable, ordered delivery of short text messages over datagrams: the
//! packet, its wire encoding and checksum, segmentation, reassembly and the
//! connection's decisions.
pub mod checksum;
pub mod packet;
pub mod wire;
pub mod segment;
pub mod reassembly;
pub mod connection;
pub mod fields;
