//! Size budget of one frame on its way from the tun device to the wire.

use vstd::prelude::*;

verus! {

/// Largest IP packet delivered on the tun device.
pub const VPN_MTU: usize = 1362;

/// Largest frame after sealing and padding, before it is wrapped for the wire.
pub const TRANSPORT_MTU: usize = 1392;

/// Largest datagram handed to the UDP socket.
pub const UDP_MTU: usize = 1464;

/// Size of a working buffer.
pub const BUF_CAPACITY: usize = 1500;

/// Bytes that sealing adds in front of the padding: the nonce.
pub const NONCE_SIZE: usize = 12;

/// Bytes that sealing adds behind the ciphertext: the authentication tag.
pub const TAG_SIZE: usize = 16;

/// A packet of `VPN_MTU` bytes, sealed and followed by its nonce, still
/// leaves room in a transport frame for the byte that counts the padding,
/// and a transport frame fits the working buffer.
pub proof fn lemma_mtu_budget()
    ensures
        VPN_MTU + NONCE_SIZE + TAG_SIZE + 1 <= TRANSPORT_MTU,
        TRANSPORT_MTU <= UDP_MTU,
        UDP_MTU <= BUF_CAPACITY,
{
}

} // verus!
