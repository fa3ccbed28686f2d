use bytes::BytesMut;
use kissvpn::cipher::Cipher;
use kissvpn::constants::{TRANSPORT_MTU, VPN_MTU};
use kissvpn::engine::{
    encrypt_and_send, keepalive, keepalive_start, receive_and_decrypt, Egress, Ingress,
    KeepaliveStep, CHANNEL_SIZE, KEEPALIVE_INTERVAL,
};
use kissvpn::transport::fakedns::{FakednsClientTransport, FakednsServerTransport};
use kissvpn::transport::udp::{PeerAddr, UdpClientTransportOptions};

#[test]
fn test_constants() {
    assert_eq!(CHANNEL_SIZE, 64);
    assert_eq!(KEEPALIVE_INTERVAL, 60_000_000_000);
}

#[test]
fn test_egress_sends_only_when_ready() {
    let cipher = Cipher::new("key0");
    let mut buf = BytesMut::from("hello world!");
    assert_eq!(encrypt_and_send(&cipher, &mut buf, false), Egress::Drop);
    assert_eq!(buf.len(), 296);
    let mut buf = BytesMut::zeroed(VPN_MTU);
    assert_eq!(encrypt_and_send(&cipher, &mut buf, true), Egress::Send);
    assert_eq!(buf.len(), TRANSPORT_MTU);
}

#[test]
fn test_ingress() {
    let cipher = Cipher::new("key0");

    let mut buf = BytesMut::from("hello world!");
    cipher.encrypt(&mut buf).unwrap();
    assert_eq!(receive_and_decrypt(&cipher, &mut buf), Ingress::Deliver);
    assert_eq!(buf, "hello world!");

    let mut buf = BytesMut::new();
    cipher.encrypt(&mut buf).unwrap();
    assert_eq!(receive_and_decrypt(&cipher, &mut buf), Ingress::Keepalive);
    assert!(buf.is_empty());

    let mut buf = BytesMut::from("hello world!");
    Cipher::new("key1").encrypt(&mut buf).unwrap();
    assert_eq!(receive_and_decrypt(&cipher, &mut buf), Ingress::Invalid);

    let mut buf = BytesMut::from("sksksksksksksksks");
    assert_eq!(receive_and_decrypt(&cipher, &mut buf), Ingress::Invalid);

    let mut buf = BytesMut::new();
    assert_eq!(receive_and_decrypt(&cipher, &mut buf), Ingress::Invalid);
}

#[test]
fn test_keepalive_schedule() {
    let interval = KEEPALIVE_INTERVAL;
    // at the start the first keepalive is due at once
    let start = keepalive_start(5 * interval);
    assert_eq!(start, 3 * interval);
    assert_eq!(
        keepalive(start, 5 * interval),
        KeepaliveStep {
            send: true,
            last_tun_read: 5 * interval,
            sleep: interval
        }
    );
    // silent for exactly the interval: not yet
    assert_eq!(
        keepalive(1000, 1000 + interval),
        KeepaliveStep {
            send: false,
            last_tun_read: 1000,
            sleep: 0
        }
    );
    // silent for longer
    assert_eq!(
        keepalive(1000, 1001 + interval),
        KeepaliveStep {
            send: true,
            last_tun_read: 1001 + interval,
            sleep: interval
        }
    );
    // a packet was read a moment ago: sleep until the interval after it
    assert_eq!(
        keepalive(1000, 1000 + interval / 4),
        KeepaliveStep {
            send: false,
            last_tun_read: 1000,
            sleep: interval - interval / 4
        }
    );
    // a packet was read after the clock was looked at
    assert_eq!(
        keepalive(2000, 1500),
        KeepaliveStep {
            send: false,
            last_tun_read: 2000,
            sleep: interval + 500
        }
    );
    assert_eq!(
        keepalive(u64::MAX, 0),
        KeepaliveStep {
            send: false,
            last_tun_read: u64::MAX,
            sleep: u64::MAX
        }
    );
    assert_eq!(
        keepalive(0, u64::MAX),
        KeepaliveStep {
            send: true,
            last_tun_read: u64::MAX,
            sleep: interval
        }
    );
}

/// Numeric strings travel from the client through sealing and the query
/// codec to the server, which echoes them through sealing and the response
/// codec; every reply equals its request.
#[test]
fn test_multiple_request_response() {
    let client_cipher = Cipher::new("key0");
    let server_cipher = Cipher::new("key0");
    let client = FakednsClientTransport::create(UdpClientTransportOptions::default());
    let mut server = FakednsServerTransport::create();
    let client_addr = PeerAddr::V4 {
        ip: 0x7f00_0001,
        port: 9998,
    };

    for i in 0..10000 {
        let payload_str = format!("{}", i);
        let payload = payload_str.as_bytes();

        let mut buf = BytesMut::from(payload);
        assert_eq!(
            encrypt_and_send(&client_cipher, &mut buf, client.ready_to_send()),
            Egress::Send
        );
        let datagram = client.send(&buf);

        let mut received = server.receive(client_addr, &datagram).unwrap();
        assert_eq!(
            receive_and_decrypt(&server_cipher, &mut received),
            Ingress::Deliver
        );
        server.mark_last_received_valid();
        assert_eq!(&received[..], payload);

        assert_eq!(
            encrypt_and_send(&server_cipher, &mut received, server.ready_to_send()),
            Egress::Send
        );
        let (to, datagram) = server.send(&received).unwrap();
        assert_eq!(to, client_addr);

        let mut reply = client.receive(&datagram).unwrap();
        assert_eq!(
            receive_and_decrypt(&client_cipher, &mut reply),
            Ingress::Deliver
        );
        assert_eq!(&reply[..], payload);
    }
}
