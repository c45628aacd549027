//! Streaming RaptorQ packetizer and reassembler.
//!
//! The library frames one transfer as a 12-byte transmission-parameters
//! header followed by fixed-size packets, drives the FEC engine on the
//! sending side, and reassembles blocks one packet at a time on the
//! receiving side.
pub mod params;
pub mod packet;
pub mod engine;
pub mod encode;
pub mod decode;
