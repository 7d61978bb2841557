//! Packet-processing core of an intercepting proxy: a verified IPv4 codec,
//! a passive-open TCP / UDP engine with its flow registry, and the decisions
//! of the loop that bridges the tunnel and the application.
pub mod bridge;
pub mod checksum;
pub mod codec;
pub mod engine;
pub mod packet;
pub mod reassembly;
pub mod laws;
