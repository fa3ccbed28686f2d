//! A minimalist point-to-point VPN core: authenticated in-place framing of IP
//! packets, a DNS-shaped datagram codec, the bookkeeping of the UDP
//! transports and the decisions of the packet pipeline, with machine-checked
//! contracts. The devices, sockets and threads belong to the program that
//! uses it.

pub mod buffer;
pub mod cipher;
pub mod constants;
pub mod engine;
pub mod faketcp;
mod rng;
pub mod transport;
