//! The decisions of the packet pipeline.
//!
//! Four workers move packets: one reads the tun device, one seals what was
//! read and sends it, one receives and opens what arrives, one writes the tun
//! device; a fifth sends keepalives where the transport wants them. The
//! workers, their queues and their devices belong to the caller. What each
//! worker decides for one packet is decided here.

use crate::buffer::bytes_of;
use crate::cipher::{decrypted, is_frame_of, padding_len, sealed_part, Cipher, CipherError};
use crate::constants::{NONCE_SIZE, TAG_SIZE, TRANSPORT_MTU};
use crate::transport::udp::NANOS_PER_SEC;
use bytes::BytesMut;
use vstd::prelude::*;

verus! {

/// Packets that each queue between two workers holds before the worker that
/// fills it has to wait.
pub const CHANNEL_SIZE: usize = 64;

/// How long the path may stay silent before a keepalive is due, in
/// nanoseconds.
pub const KEEPALIVE_INTERVAL: u64 = 60 * NANOS_PER_SEC;

/// What becomes of a sealed frame.
#[derive(Clone, Copy, Debug, PartialEq, Eq, Structural)]
pub enum Egress {
    /// The transport sends it.
    Send,
    /// The transport has nowhere to send it yet: it is dropped.
    Drop,
}

/// What becomes of a datagram's content.
#[derive(Clone, Copy, Debug, PartialEq, Eq, Structural)]
pub enum Ingress {
    /// It is authentic and holds a packet: the transport is told so, and the
    /// packet goes to the tun device.
    Deliver,
    /// It is authentic and empty, a keepalive: the transport is told so, and
    /// nothing goes to the tun device.
    Keepalive,
    /// It is not authentic: it is dropped, and the transport is told nothing.
    Invalid,
}

impl Ingress {
    /// Whether the transport is told that what it last received is valid.
    pub open spec fn marks_valid(self) -> bool {
        self != Ingress::Invalid
    }
}

/// What the keepalive worker does when it wakes.
#[derive(Clone, Copy, Debug, PartialEq, Eq, Structural)]
pub struct KeepaliveStep {
    /// Whether an empty packet is queued for sealing and sending.
    pub send: bool,
    /// The time from which the silence of the path counts from now on.
    pub last_tun_read: u64,
    /// How long the worker sleeps before it wakes again, in nanoseconds.
    pub sleep: u64,
}

/// The sealing worker's step: seals the packet in `buf`, and sends the frame
/// if the transport is ready to send.
pub fn encrypt_and_send(cipher: &Cipher, buf: &mut BytesMut, ready_to_send: bool) -> (action:
    Egress)
    requires
        bytes_of(*old(buf)).len() + TAG_SIZE + NONCE_SIZE + 1 <= TRANSPORT_MTU,
    ensures
        action == if ready_to_send {
            Egress::Send
        } else {
            Egress::Drop
        },
        is_frame_of(cipher@, bytes_of(*old(buf)), bytes_of(*final(buf))),
        bytes_of(*final(buf)).len() == bytes_of(*old(buf)).len() + TAG_SIZE + NONCE_SIZE
            + padding_len(bytes_of(*old(buf)).len() + TAG_SIZE + NONCE_SIZE) + 1,
        bytes_of(*final(buf)).len() <= TRANSPORT_MTU,
        decrypted(cipher@, bytes_of(*final(buf))) == Ok::<Seq<u8>, CipherError>(
            bytes_of(*old(buf)),
        ),
{
    let _ = cipher.encrypt(buf);
    if ready_to_send {
        Egress::Send
    } else {
        Egress::Drop
    }
}

/// The opening worker's step: opens the frame in `buf`, which then holds the
/// packet if the frame was authentic, and what `Cipher::decrypt` leaves of
/// the frame if not.
pub fn receive_and_decrypt(cipher: &Cipher, buf: &mut BytesMut) -> (action: Ingress)
    ensures
        match decrypted(cipher@, bytes_of(*old(buf))) {
            Ok(packet) => bytes_of(*final(buf)) == packet && action == if packet.len() == 0 {
                Ingress::Keepalive
            } else {
                Ingress::Deliver
            },
            Err(CipherError::InvalidLength) => action == Ingress::Invalid && bytes_of(*final(buf))
                == bytes_of(*old(buf)),
            Err(CipherError::AeadInvalid) => action == Ingress::Invalid && bytes_of(*final(buf))
                == sealed_part(bytes_of(*old(buf))),
        },
{
    match cipher.decrypt(buf) {
        Ok(()) => {
            if buf.len() == 0 {
                Ingress::Keepalive
            } else {
                Ingress::Deliver
            }
        },
        Err(_) => Ingress::Invalid,
    }
}

/// The time that the silence of the path counts from when the pipeline
/// starts: so long ago that the first keepalive is due at once.
pub fn keepalive_start(now: u64) -> (last_tun_read: u64)
    requires
        now >= 2 * KEEPALIVE_INTERVAL,
    ensures
        last_tun_read == now - 2 * KEEPALIVE_INTERVAL,
{
    now - 2 * KEEPALIVE_INTERVAL
}

/// The keepalive worker's step at `now`, the tun device having last been
/// read at `last_tun_read`: a keepalive is sent once the path has been
/// silent for longer than `KEEPALIVE_INTERVAL`, and the worker sleeps until
/// that can next be the case.
pub fn keepalive(last_tun_read: u64, now: u64) -> (step: KeepaliveStep)
    ensures
        step.send == (now > last_tun_read + KEEPALIVE_INTERVAL),
        step.last_tun_read == if step.send {
            now
        } else {
            last_tun_read
        },
        step.sleep == if step.last_tun_read + KEEPALIVE_INTERVAL - now <= u64::MAX {
            step.last_tun_read + KEEPALIVE_INTERVAL - now
        } else {
            u64::MAX as int
        },
{
    let send = now > last_tun_read && now - last_tun_read > KEEPALIVE_INTERVAL;
    let last_tun_read = if send {
        now
    } else {
        last_tun_read
    };
    let sleep = if last_tun_read >= now {
        (last_tun_read - now).saturating_add(KEEPALIVE_INTERVAL)
    } else {
        KEEPALIVE_INTERVAL - (now - last_tun_read)
    };
    KeepaliveStep { send, last_tun_read, sleep }
}

} // verus!
