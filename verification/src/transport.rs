//! The datagram transports under the packet pipeline: the bookkeeping of the
//! UDP endpoints, and the codec that dresses frames as DNS traffic.

pub mod fakedns;
pub mod udp;
