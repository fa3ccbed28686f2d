use bytes::BytesMut;
use chacha20poly1305::aead::Aead;
use chacha20poly1305::{ChaCha8Poly1305, KeyInit};
use hkdf::Hkdf;
use kissvpn::cipher::{Cipher, CipherError};
use kissvpn::constants::{NONCE_SIZE, TAG_SIZE, TRANSPORT_MTU, VPN_MTU};
use rand::RngCore;
use sha2::Sha256;

#[test]
fn test_basic_encrypt_decrypt() {
    let ciphertext = {
        let cipher = Cipher::new("key0");

        let mut buf = BytesMut::from("hello world!");
        buf.reserve(100);
        cipher.encrypt(&mut buf).unwrap();

        assert!(buf.len() > 12 + NONCE_SIZE + 16);
        assert!(buf.len() <= 12 + NONCE_SIZE + 16 + 256);
        buf
    };

    {
        let mut buf = ciphertext.clone();
        let cipher = Cipher::new("key0");

        cipher.decrypt(&mut buf).unwrap();
        assert_eq!(buf, "hello world!");

        // fail to decrypt
        let mut buf = BytesMut::from("sksksksksksksksks");
        assert!(cipher.decrypt(&mut buf).is_err());
    }

    {
        let mut buf = ciphertext.clone();
        let cipher = Cipher::new("key1");
        assert!(cipher.decrypt(&mut buf).is_err());
    }
}

#[test]
fn test_all_sizes() {
    let cipher = Cipher::new("key0");
    for plaintext_len in 0..=VPN_MTU {
        let mut plaintext = BytesMut::zeroed(plaintext_len);
        rand::thread_rng().fill_bytes(&mut plaintext);

        let mut buf = plaintext.clone();
        cipher.encrypt(&mut buf).unwrap();
        assert!(buf.len() <= TRANSPORT_MTU);

        cipher.decrypt(&mut buf).unwrap();
        assert_eq!(plaintext, buf);
    }
}

/// The frame length is the packet, the tag, the nonce, the padding and one
/// byte: 255 bytes of padding while they fit, fewer near the limit.
#[test]
fn test_encrypted_length_is_exact() {
    let cipher = Cipher::new("key0");
    let cases: [(usize, usize); 6] = [
        (0, 0 + 28 + 255 + 1),
        (12, 12 + 28 + 255 + 1),
        (1108, 1108 + 28 + 255 + 1),
        (1109, 1392),
        (1362, 1392),
        (1363, 1392),
    ];
    for (plaintext_len, frame_len) in cases {
        let mut buf = BytesMut::zeroed(plaintext_len);
        cipher.encrypt(&mut buf).unwrap();
        assert_eq!(buf.len(), frame_len);
        assert_eq!(
            buf[buf.len() - 1] as usize,
            frame_len - plaintext_len - 28 - 1
        );
    }
}

/// With the nonce and the padding given, the frame is the output of HKDF and
/// ChaCha8-Poly1305 laid out as sealed packet, nonce, padding, count.
#[test]
fn test_encrypt_with_matches_the_primitives() {
    let nonce = [7u8; 12];
    let mut padding = [0u8; 255];
    for (i, b) in padding.iter_mut().enumerate() {
        *b = i as u8;
    }
    let plaintext = b"hello world!";

    let mut key = [0u8; 32];
    Hkdf::<Sha256>::new(None, b"key0").expand(&[], &mut key).unwrap();
    assert_ne!(&key[..4], b"key0");
    let sealed = ChaCha8Poly1305::new(&key.into())
        .encrypt(&nonce.into(), &plaintext[..])
        .unwrap();
    assert_eq!(sealed.len(), plaintext.len() + TAG_SIZE);
    assert_ne!(&sealed[..plaintext.len()], &plaintext[..]);

    let mut expected = sealed.clone();
    expected.extend_from_slice(&nonce);
    expected.extend_from_slice(&padding[..255]);
    expected.push(255);

    let mut buf = BytesMut::from(&plaintext[..]);
    Cipher::new("key0")
        .encrypt_with(&mut buf, &nonce, &padding)
        .unwrap();
    assert_eq!(&buf[..], &expected[..]);

    let mut opened = BytesMut::from(&expected[..]);
    Cipher::new("key0").decrypt(&mut opened).unwrap();
    assert_eq!(&opened[..], &plaintext[..]);
}

/// Near the limit only as much of the padding is used as fits.
#[test]
fn test_encrypt_with_short_padding() {
    let nonce = [1u8; 12];
    let padding = [0xabu8; 255];
    let mut buf = BytesMut::zeroed(1360);
    Cipher::new("key0")
        .encrypt_with(&mut buf, &nonce, &padding)
        .unwrap();
    assert_eq!(buf.len(), 1392);
    assert_eq!(&buf[1376..1388], &nonce[..]);
    assert_eq!(&buf[1388..1391], &[0xab, 0xab, 0xab]);
    assert_eq!(buf[1391], 3);
}

#[test]
fn test_fresh_nonce_and_padding_each_time() {
    let cipher = Cipher::new("key0");
    let mut a = BytesMut::from("hello world!");
    let mut b = BytesMut::from("hello world!");
    cipher.encrypt(&mut a).unwrap();
    cipher.encrypt(&mut b).unwrap();
    assert_ne!(a, b);
    // the nonces differ
    assert_ne!(&a[28..40], &b[28..40]);
    // the paddings differ
    assert_ne!(&a[40..295], &b[40..295]);
}

#[test]
fn test_clone_shares_the_key() {
    let cipher = Cipher::new("key0");
    let copy = cipher.clone();
    let mut buf = BytesMut::from("hello world!");
    cipher.encrypt(&mut buf).unwrap();
    copy.decrypt(&mut buf).unwrap();
    assert_eq!(buf, "hello world!");
}

#[test]
fn test_decrypt_rejects_empty() {
    let cipher = Cipher::new("key0");
    let mut buf = BytesMut::new();
    assert_eq!(cipher.decrypt(&mut buf), Err(CipherError::InvalidLength));
    assert!(buf.is_empty());
}

#[test]
fn test_decrypt_rejects_short_frame_untouched() {
    let cipher = Cipher::new("key0");
    // the last byte announces 5 bytes of padding: 12 + 1 + 5 = 18 are needed
    let mut buf = BytesMut::from(&[0u8, 0, 0, 0, 0, 0, 0, 0, 0, 0, 0, 0, 0, 0, 0, 0, 5][..]);
    assert_eq!(cipher.decrypt(&mut buf), Err(CipherError::InvalidLength));
    assert_eq!(buf.len(), 17);

    let mut buf = BytesMut::from("sksksksksksksksks");
    assert_eq!(cipher.decrypt(&mut buf), Err(CipherError::InvalidLength));
    assert_eq!(buf, "sksksksksksksksks");
}

#[test]
fn test_decrypt_rejects_bad_tag_and_leaves_the_sealed_part() {
    let cipher = Cipher::new("key0");
    // 20 bytes sealed, 12 bytes nonce, 2 bytes padding, count
    let mut frame = vec![0x55u8; 20];
    frame.extend_from_slice(&[9u8; 12]);
    frame.extend_from_slice(&[1, 2, 2]);
    let mut buf = BytesMut::from(&frame[..]);
    assert_eq!(cipher.decrypt(&mut buf), Err(CipherError::AeadInvalid));
    assert_eq!(&buf[..], &[0x55u8; 20][..]);

    // too short to hold a tag at all
    let mut frame = vec![0x55u8; 3];
    frame.extend_from_slice(&[9u8; 12]);
    frame.push(0);
    let mut buf = BytesMut::from(&frame[..]);
    assert_eq!(cipher.decrypt(&mut buf), Err(CipherError::AeadInvalid));
    assert_eq!(&buf[..], &[0x55u8; 3][..]);
}

#[test]
fn test_wrong_key_is_rejected() {
    let mut buf = BytesMut::from("hello world!");
    Cipher::new("key0").encrypt(&mut buf).unwrap();
    assert_eq!(
        Cipher::new("key1").decrypt(&mut buf),
        Err(CipherError::AeadInvalid)
    );
}

/// Flipping any bit of the sealed packet or of the nonce makes the frame
/// fail; the padding is not authenticated.
#[test]
fn test_bit_flips() {
    let cipher = Cipher::new("key0");
    let mut frame = BytesMut::from("hello world!");
    cipher.encrypt(&mut frame).unwrap();
    for byte in 0..(12 + 16 + 12) {
        for bit in 0..8 {
            let mut buf = frame.clone();
            buf[byte] ^= 1 << bit;
            assert_eq!(cipher.decrypt(&mut buf), Err(CipherError::AeadInvalid));
        }
    }
    let mut buf = frame.clone();
    buf[12 + 16 + 12 + 100] ^= 1;
    cipher.decrypt(&mut buf).unwrap();
    assert_eq!(buf, "hello world!");
}

#[test]
fn test_keepalive_frame_round_trip() {
    let cipher = Cipher::new("key0");
    let mut buf = BytesMut::new();
    cipher.encrypt(&mut buf).unwrap();
    assert_eq!(buf.len(), 284);
    cipher.decrypt(&mut buf).unwrap();
    assert!(buf.is_empty());
}
