//! Transport and media logic of a screen-and-audio link between two machines.
//!
//! Nothing here touches a socket, a file, a device or a clock: callers hand in
//! datagrams, samples and readings, and get back datagrams, frames and decisions.
//! Samples are floats that cross this library as their bits.

pub mod chunks;
pub mod congestion;
pub mod endian;
pub mod fec;
pub mod gf;
pub mod jitter;
pub mod loopback;
pub mod media;
pub mod packet;
pub mod packetize;
pub mod pattern;
pub mod preflight;
pub mod reassembly;
pub mod receive;
pub mod samples;
pub mod selftest;
pub mod send;
pub mod settings;
pub mod tailnet;
pub mod trips;
pub mod video;
pub mod wav;
