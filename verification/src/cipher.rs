//! Sealing of one packet into one transport frame, and back.
//!
//! A frame is the packet sealed with ChaCha8-Poly1305 (ciphertext, then the
//! 16-byte tag), the 12-byte nonce it was sealed under, up to 255 bytes of
//! padding, and one byte that counts the padding.

use crate::buffer::{as_slice, bytes_of};
use crate::constants::{NONCE_SIZE, TAG_SIZE, TRANSPORT_MTU, VPN_MTU};
use crate::rng::{random_fill, random_nonce};
use bytes::BytesMut;
use chacha20poly1305::{AeadInPlace, ChaCha8Poly1305, KeyInit};
use hkdf::Hkdf;
use sha2::Sha256;
use vstd::prelude::*;
use vstd::slice::slice_subrange;
use vstd::string::StringSliceAdditionalSpecFns;

verus! {

/// `aead::Error`, which says nothing but that sealing or opening failed.
#[verifier::external_type_specification]
#[verifier::external_body]
pub struct ExAeadError(aead::Error);

/// Why a frame was not opened.
#[derive(Clone, Copy, Debug, PartialEq, Eq, Structural)]
pub enum CipherError {
    /// The frame is empty, or shorter than its last byte says its padding and
    /// nonce are.
    InvalidLength,
    /// The tag does not authenticate the ciphertext under this key and nonce.
    AeadInvalid,
}

/// The 32 bytes that HKDF-SHA256 expands, with no info, from the key material
/// `ikm` extracted with no salt.
pub uninterp spec fn hkdf_sha256_okm(ikm: Seq<u8>) -> Seq<u8>;

/// What ChaCha8-Poly1305 makes of `plaintext` under `key` and `nonce` with no
/// associated data: the ciphertext followed by the tag.
pub uninterp spec fn aead_sealed(key: Seq<u8>, nonce: Seq<u8>, plaintext: Seq<u8>) -> Seq<u8>;

/// What ChaCha8-Poly1305 recovers from `sealed` under `key` and `nonce` with no
/// associated data: the plaintext, or nothing where the tag does not verify.
pub uninterp spec fn aead_opened(key: Seq<u8>, nonce: Seq<u8>, sealed: Seq<u8>) -> Option<Seq<u8>>;

/// `Hkdf::<Sha256>::new` without a salt, then `Hkdf::expand` with empty info
/// into 32 bytes. The output is named, not described; `expand` refuses only
/// outputs longer than 255 hashes, so it cannot fail here.
#[verifier::external_body]
fn hkdf_sha256_expand(ikm: &[u8]) -> (okm: [u8; 32])
    ensures
        okm@ == hkdf_sha256_okm(ikm@),
{
    let mut okm = [0u8; 32];
    Hkdf::<Sha256>::new(None, ikm).expand(&[], &mut okm).unwrap();
    okm
}

/// `AeadInPlace::encrypt_in_place` of a `ChaCha8Poly1305` made with
/// `KeyInit::new`, with empty associated data. It fails only on a buffer of
/// 64 * (2^32 - 1) bytes or more. On success the buffer holds the ciphertext
/// and the 16-byte tag, and `decrypt_in_place` under the same key and nonce
/// gives the plaintext back.
#[verifier::external_body]
fn seal_in_place(key: &[u8; 32], nonce: &[u8; 12], buf: &mut BytesMut) -> (res: Result<
    (),
    aead::Error,
>)
    ensures
        bytes_of(*old(buf)).len() < 64 * 0xffff_ffff ==> res is Ok,
        res is Ok ==> bytes_of(*final(buf)) == aead_sealed(key@, nonce@, bytes_of(*old(buf))),
        res is Ok ==> bytes_of(*final(buf)).len() == bytes_of(*old(buf)).len() + TAG_SIZE,
        res is Ok ==> aead_opened(key@, nonce@, bytes_of(*final(buf))) == Some(
            bytes_of(*old(buf)),
        ),
{
    ChaCha8Poly1305::new(&(*key).into()).encrypt_in_place(&(*nonce).into(), &[], buf)
}

/// `AeadInPlace::decrypt_in_place` of a `ChaCha8Poly1305` made with
/// `KeyInit::new`, with empty associated data. On success the buffer holds
/// the plaintext; on failure it is left as it was.
#[verifier::external_body]
fn open_in_place(key: &[u8; 32], nonce: &[u8; 12], buf: &mut BytesMut) -> (res: Result<
    (),
    aead::Error,
>)
    ensures
        res is Ok <==> aead_opened(key@, nonce@, bytes_of(*old(buf))) is Some,
        res is Ok ==> aead_opened(key@, nonce@, bytes_of(*old(buf))) == Some(
            bytes_of(*final(buf)),
        ),
        res is Err ==> bytes_of(*final(buf)) == bytes_of(*old(buf)),
{
    ChaCha8Poly1305::new(&(*key).into()).decrypt_in_place(&(*nonce).into(), &[], buf)
}

/// Number of padding bytes behind a sealed packet and its nonce that take up
/// `unpadded` bytes together: as many as fit below the transport limit beside
/// the byte that counts them, and no more than 255.
pub open spec fn padding_len(unpadded: int) -> int {
    if TRANSPORT_MTU - unpadded - 1 < 255 {
        TRANSPORT_MTU - unpadded - 1
    } else {
        255
    }
}

/// The frame made of a sealed packet, its nonce and its padding.
pub open spec fn frame(sealed: Seq<u8>, nonce: Seq<u8>, padding: Seq<u8>) -> Seq<u8> {
    (sealed + nonce + padding).push(padding.len() as u8)
}

/// Whether the last byte of `frame` leaves room for the padding it counts
/// and for a nonce.
pub open spec fn well_framed(frame: Seq<u8>) -> bool {
    frame.len() >= 1 && frame.len() >= NONCE_SIZE + 1 + frame.last()
}

/// Length of what stands in `frame` before the nonce.
pub open spec fn sealed_len(frame: Seq<u8>) -> int {
    frame.len() - 1 - frame.last() - NONCE_SIZE
}

/// The sealed packet of a well-framed frame.
pub open spec fn sealed_part(frame: Seq<u8>) -> Seq<u8> {
    frame.take(sealed_len(frame))
}

/// The nonce of a well-framed frame.
pub open spec fn nonce_part(frame: Seq<u8>) -> Seq<u8> {
    frame.subrange(sealed_len(frame), sealed_len(frame) + NONCE_SIZE)
}

/// What opening `frame` under `key` gives.
pub open spec fn decrypted(key: Seq<u8>, frame: Seq<u8>) -> Result<Seq<u8>, CipherError> {
    if !well_framed(frame) {
        Err(CipherError::InvalidLength)
    } else {
        match aead_opened(key, nonce_part(frame), sealed_part(frame)) {
            Some(plaintext) => Ok(plaintext),
            None => Err(CipherError::AeadInvalid),
        }
    }
}

/// Whether `frame` is `plaintext` sealed under `key` with some nonce and
/// padded as `padding_len` asks.
pub open spec fn is_frame_of(key: Seq<u8>, plaintext: Seq<u8>, frame: Seq<u8>) -> bool {
    exists|nonce: Seq<u8>, padding: Seq<u8>|
        {
            &&& nonce.len() == NONCE_SIZE
            &&& padding.len() == padding_len(plaintext.len() + TAG_SIZE + NONCE_SIZE)
            &&& frame == #[trigger] self::frame(aead_sealed(key, nonce, plaintext), nonce, padding)
        }
}

/// Taking a frame apart gives back the sealed packet and the nonce it was
/// made of, whatever the padding.
pub proof fn lemma_unframe_frame(sealed: Seq<u8>, nonce: Seq<u8>, padding: Seq<u8>)
    requires
        nonce.len() == NONCE_SIZE,
        padding.len() <= 255,
    ensures
        well_framed(frame(sealed, nonce, padding)),
        sealed_part(frame(sealed, nonce, padding)) == sealed,
        nonce_part(frame(sealed, nonce, padding)) == nonce,
        frame(sealed, nonce, padding).len() == sealed.len() + NONCE_SIZE + padding.len() + 1,
{
    let f = frame(sealed, nonce, padding);
    assert(f.last() == padding.len() as u8);
    assert(sealed_len(f) == sealed.len());
    assert(sealed_part(f) =~= sealed);
    assert(nonce_part(f) =~= nonce);
}

/// Opening a frame comes to opening its sealed packet under its nonce,
/// whatever the padding.
pub proof fn lemma_decrypted_frame(key: Seq<u8>, sealed: Seq<u8>, nonce: Seq<u8>, padding: Seq<u8>)
    requires
        nonce.len() == NONCE_SIZE,
        padding.len() <= 255,
    ensures
        decrypted(key, frame(sealed, nonce, padding)) == match aead_opened(key, nonce, sealed) {
            Some(plaintext) => Ok::<Seq<u8>, CipherError>(plaintext),
            None => Err::<Seq<u8>, CipherError>(CipherError::AeadInvalid),
        },
{
    lemma_unframe_frame(sealed, nonce, padding);
}

/// A packet of at most `VPN_MTU` bytes is padded by at least one byte and at
/// most 255, and its frame stays within `TRANSPORT_MTU`.
pub proof fn lemma_frame_fits(plaintext_len: int)
    requires
        0 <= plaintext_len <= VPN_MTU,
    ensures
        1 <= padding_len(plaintext_len + TAG_SIZE + NONCE_SIZE) <= 255,
        plaintext_len + TAG_SIZE + NONCE_SIZE + padding_len(plaintext_len + TAG_SIZE + NONCE_SIZE)
            + 1 <= TRANSPORT_MTU,
{
}

/// A symmetric key, derived once from a passphrase.
pub struct Cipher {
    key: [u8; 32],
}

impl View for Cipher {
    type V = Seq<u8>;

    /// The 32 bytes of the key.
    closed spec fn view(&self) -> Seq<u8> {
        self.key@
    }
}

impl Clone for Cipher {
    fn clone(&self) -> (copy: Self)
        ensures
            copy@ == self@,
    {
        Cipher { key: self.key }
    }
}

impl Cipher {
    /// Derives the key from `passphrase` with HKDF-SHA256, without salt or
    /// info.
    pub fn new(passphrase: &str) -> (cipher: Cipher)
        ensures
            cipher@ == hkdf_sha256_okm(passphrase.spec_bytes()),
    {
        Cipher { key: hkdf_sha256_expand(passphrase.as_bytes()) }
    }

    /// Seals the packet in `buf` under `nonce` and frames it with the first
    /// bytes of `padding`, as many as `padding_len` asks.
    pub fn encrypt_with(&self, buf: &mut BytesMut, nonce: &[u8; 12], padding: &[u8; 255]) -> (res:
        Result<(), CipherError>)
        requires
            bytes_of(*old(buf)).len() + TAG_SIZE + NONCE_SIZE + 1 <= TRANSPORT_MTU,
        ensures
            res is Ok,
            bytes_of(*final(buf)) == frame(
                aead_sealed(self@, nonce@, bytes_of(*old(buf))),
                nonce@,
                padding@.take(padding_len(bytes_of(*old(buf)).len() + TAG_SIZE + NONCE_SIZE)),
            ),
            bytes_of(*final(buf)).len() == bytes_of(*old(buf)).len() + TAG_SIZE + NONCE_SIZE
                + padding_len(bytes_of(*old(buf)).len() + TAG_SIZE + NONCE_SIZE) + 1,
            bytes_of(*final(buf)).len() <= TRANSPORT_MTU,
            decrypted(self@, bytes_of(*final(buf))) == Ok::<Seq<u8>, CipherError>(
                bytes_of(*old(buf)),
            ),
    {
        match seal_in_place(&self.key, nonce, buf) {
            Ok(()) => {},
            Err(_) => {
                return Err(CipherError::AeadInvalid);
            },
        }
        let ghost sealed = bytes_of(*buf);
        buf.extend_from_slice(nonce);
        let n: usize = if TRANSPORT_MTU - buf.len() - 1 < 255 {
            TRANSPORT_MTU - buf.len() - 1
        } else {
            255
        };
        buf.extend_from_slice(slice_subrange(padding, 0, n));
        let count: [u8; 1] = [n as u8];
        buf.extend_from_slice(&count);
        proof {
            let pad = padding@.take(n as int);
            assert(padding@.subrange(0, n as int) =~= pad);
            assert(count@ =~= seq![n as u8]);
            assert(bytes_of(*buf) =~= frame(sealed, nonce@, pad));
            lemma_unframe_frame(sealed, nonce@, pad);
        }
        Ok(())
    }

    /// Seals the packet in `buf` in place under a fresh random nonce, appends
    /// the nonce, random padding and the padding's length.
    ///
    /// The packet must leave room for the tag, the nonce and the length byte
    /// within `TRANSPORT_MTU`; every packet of at most `VPN_MTU` bytes does.
    pub fn encrypt(&self, buf: &mut BytesMut) -> (res: Result<(), CipherError>)
        requires
            bytes_of(*old(buf)).len() + TAG_SIZE + NONCE_SIZE + 1 <= TRANSPORT_MTU,
        ensures
            res is Ok,
            is_frame_of(self@, bytes_of(*old(buf)), bytes_of(*final(buf))),
            bytes_of(*final(buf)).len() == bytes_of(*old(buf)).len() + TAG_SIZE + NONCE_SIZE
                + padding_len(bytes_of(*old(buf)).len() + TAG_SIZE + NONCE_SIZE) + 1,
            bytes_of(*final(buf)).len() <= TRANSPORT_MTU,
            decrypted(self@, bytes_of(*final(buf))) == Ok::<Seq<u8>, CipherError>(
                bytes_of(*old(buf)),
            ),
    {
        let nonce = random_nonce();
        let n: usize = if TRANSPORT_MTU - (buf.len() + TAG_SIZE + NONCE_SIZE) - 1 < 255 {
            TRANSPORT_MTU - (buf.len() + TAG_SIZE + NONCE_SIZE) - 1
        } else {
            255
        };
        let padding = random_fill(n);
        self.encrypt_with(buf, &nonce, &padding)
    }

    /// Opens the frame in `buf` in place: drops the padding and its length
    /// byte, takes the nonce off the end, and opens what is left.
    ///
    /// A frame that is empty or too short for what its last byte announces is
    /// left untouched. A frame whose tag does not verify is left without its
    /// padding and nonce.
    pub fn decrypt(&self, buf: &mut BytesMut) -> (res: Result<(), CipherError>)
        ensures
            match decrypted(self@, bytes_of(*old(buf))) {
                Ok(plaintext) => res is Ok && bytes_of(*final(buf)) == plaintext,
                Err(CipherError::InvalidLength) => res == Err::<(), CipherError>(
                    CipherError::InvalidLength,
                ) && bytes_of(*final(buf)) == bytes_of(*old(buf)),
                Err(CipherError::AeadInvalid) => res == Err::<(), CipherError>(
                    CipherError::AeadInvalid,
                ) && bytes_of(*final(buf)) == sealed_part(bytes_of(*old(buf))),
            },
    {
        let len = buf.len();
        if len < 1 {
            return Err(CipherError::InvalidLength);
        }
        let n = as_slice(buf)[len - 1] as usize;
        if len < NONCE_SIZE + 1 + n {
            return Err(CipherError::InvalidLength);
        }
        let body_len = len - 1 - n - NONCE_SIZE;
        let ghost whole = bytes_of(*buf);
        let mut nonce = [0u8; 12];
        let bytes = as_slice(buf);
        for i in 0..12usize
            invariant
                bytes@ == whole,
                whole.len() == len,
                body_len + NONCE_SIZE <= len,
                forall|j: int| 0 <= j < i ==> nonce@[j] == whole[body_len + j],
        {
            nonce[i] = bytes[body_len + i];
        }
        buf.truncate(body_len);
        assert(nonce@ =~= nonce_part(whole));
        match open_in_place(&self.key, &nonce, buf) {
            Ok(()) => Ok(()),
            Err(_) => Err(CipherError::AeadInvalid),
        }
    }
}

} // verus!
