use bytes::Bytes;
use kissvpn::faketcp::client::{
    SocketTable, ACTIVE_MAX_DURATION, CONNECT_TIMEOUT_DURATION, LINGERING_MAX_DURATION,
};
use kissvpn::faketcp::socket::{AddrV4, RawSocketSender, Socket, SocketError};
use std::sync::mpsc;

const SEC: u64 = 1_000_000_000;

#[derive(Clone)]
struct Wire(mpsc::Sender<Bytes>);

impl RawSocketSender for Wire {
    fn send(&self, pkt: &[u8]) -> std::io::Result<()> {
        self.0.send(Bytes::copy_from_slice(pkt)).unwrap();
        Ok(())
    }
}

#[derive(Clone)]
struct Cut;

impl RawSocketSender for Cut {
    fn send(&self, _pkt: &[u8]) -> std::io::Result<()> {
        Err(std::io::Error::from(std::io::ErrorKind::Other))
    }
}

fn server() -> AddrV4 {
    AddrV4 {
        ip: [10, 0, 0, 2],
        port: 443,
    }
}

fn client(port: u16) -> AddrV4 {
    AddrV4 {
        ip: [10, 0, 0, 1],
        port,
    }
}

fn port_of(segment: &[u8]) -> u16 {
    u16::from_be_bytes([segment[0], segment[1]])
}

/// Lets a listening socket answer the SYN, and gives its answer.
fn accept(
    syn: &[u8],
    from_server: &mpsc::Sender<Bytes>,
    at_server: &mpsc::Receiver<Bytes>,
) -> (Socket<Wire>, Bytes) {
    let mut listener =
        Socket::new_listened(server(), client(port_of(syn)), Wire(from_server.clone())).unwrap();
    assert_eq!(listener.feed_packet(syn).unwrap(), &[]);
    (listener, at_server.try_recv().unwrap())
}

#[test]
fn test_durations() {
    assert_eq!(LINGERING_MAX_DURATION, 30 * SEC);
    assert_eq!(ACTIVE_MAX_DURATION, 60 * SEC);
    assert_eq!(CONNECT_TIMEOUT_DURATION, 3 * SEC);
}

#[test]
fn test_table_connects_promotes_and_rotates() {
    let (to_server, from_client) = mpsc::channel::<Bytes>();
    let (to_client, from_server) = mpsc::channel::<Bytes>();
    let mut table = SocketTable::new(Wire(to_server), [10, 0, 0, 1], server());

    // nothing is active: data is dropped
    assert!(!table.send_data(b"lost").unwrap());

    // the first turn connects from the port after the first of the range
    table.maintain(0).unwrap();
    let syn = from_client.try_recv().unwrap();
    assert_eq!(port_of(&syn), 10001);
    assert_eq!(&syn[12..14], &[0x60, 0x02]);
    // while it connects, nothing else is started
    table.maintain(3 * SEC).unwrap();
    assert!(from_client.try_recv().is_err());
    assert!(!table.send_data(b"lost").unwrap());

    // the answer connects the socket, which takes over at once
    let (mut listener, syn_ack) = accept(&syn, &to_client, &from_server);
    assert!(table.feed_packet(&syn_ack, 3 * SEC).unwrap().is_empty());
    let ack = from_client.try_recv().unwrap();
    assert_eq!(&ack[12..14], &[0x50, 0x10]);
    assert_eq!(listener.feed_packet(&ack).unwrap(), &[]);
    assert!(listener.ready());

    // data flows both ways
    assert!(table.send_data(b"hello").unwrap());
    let segment = from_client.try_recv().unwrap();
    assert_eq!(listener.feed_packet(&segment).unwrap(), b"hello");
    listener.send(b"world").unwrap();
    let segment = from_server.try_recv().unwrap();
    assert_eq!(
        table.feed_packet(&segment, 4 * SEC).unwrap(),
        vec![&b"world"[..]]
    );
    // a segment for another port brings nothing
    let mut stray = segment.to_vec();
    stray[3] ^= 1;
    assert!(table.feed_packet(&stray, 4 * SEC).unwrap().is_empty());

    // the active socket is young: nothing is started
    table.maintain(63 * SEC).unwrap();
    assert!(from_client.try_recv().is_err());
    // after more than a minute of activity a new socket connects
    table.maintain(63 * SEC + 1).unwrap();
    let syn = from_client.try_recv().unwrap();
    assert_eq!(port_of(&syn), 10002);
    // it is given three seconds, then reset and replaced
    table.maintain(66 * SEC + 1).unwrap();
    assert!(from_client.try_recv().is_err());
    table.maintain(66 * SEC + 2).unwrap();
    let rst = from_client.try_recv().unwrap();
    assert_eq!(port_of(&rst), 10002);
    assert_eq!(&rst[12..14], &[0x50, 0x04]);
    let syn = from_client.try_recv().unwrap();
    assert_eq!(port_of(&syn), 10003);

    // once connected it takes over; the socket it replaces is reset
    let (mut second, syn_ack) = accept(&syn, &to_client, &from_server);
    assert!(table.feed_packet(&syn_ack, 67 * SEC).unwrap().is_empty());
    let ack = from_client.try_recv().unwrap();
    assert_eq!(port_of(&ack), 10003);
    let rst = from_client.try_recv().unwrap();
    assert_eq!(port_of(&rst), 10001);
    assert_eq!(&rst[12..14], &[0x50, 0x04]);
    assert_eq!(second.feed_packet(&ack).unwrap(), &[]);
    assert!(table.send_data(b"again").unwrap());
    let segment = from_client.try_recv().unwrap();
    assert_eq!(port_of(&segment), 10003);
    assert_eq!(second.feed_packet(&segment).unwrap(), b"again");
}

#[test]
fn test_table_ports_wrap_around() {
    let (to_server, from_client) = mpsc::channel::<Bytes>();
    let mut table = SocketTable::new(Wire(to_server), [10, 0, 0, 1], server());
    let mut now = 0;
    let mut last = 0;
    for turn in 0..50_001u32 {
        table.maintain(now).unwrap();
        if turn > 0 {
            let rst = from_client.try_recv().unwrap();
            assert_eq!(port_of(&rst), last);
        }
        let syn = from_client.try_recv().unwrap();
        last = port_of(&syn);
        let expected = 10000 + ((turn + 1) % 50000) as u16;
        assert_eq!(last, expected);
        now += CONNECT_TIMEOUT_DURATION + 1;
    }
    assert_eq!(last, 10001);
}

#[test]
fn test_table_passes_failures_on() {
    let mut table = SocketTable::new(Cut, [10, 0, 0, 1], server());
    assert!(matches!(table.maintain(0), Err(SocketError::Io(_))));
    assert!(matches!(
        table.feed_packet(&[0u8; 20], 1),
        Err(SocketError::Io(_))
    ));
    assert!(!table.send_data(b"lost").unwrap());
}
