//! Building blocks of a transport that passes for TCP on raw sockets: the
//! checksum, segments and handshake of its sockets, the client's table of
//! sockets, and the queue of its timers.

pub mod client;
pub mod socket;
pub mod timer_runner;
