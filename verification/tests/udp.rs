use kissvpn::transport::udp::{
    IoErrorAction, PeerAddr, SendSocket, SockContext, SocketPhase, TransportError,
    UdpClientTransport, UdpClientTransportOptions, UdpServerTransport, NANOS_PER_SEC,
};

const SEC: u64 = NANOS_PER_SEC;

/// The handshake of the two ends. The sockets are the caller's, so the
/// datagram is handed over directly.
#[test]
fn test_basic_send_receive() {
    let mut server = UdpServerTransport::create();
    let mut client = UdpClientTransport::create(UdpClientTransportOptions::default());
    assert!(!server.ready_to_send());
    assert!(client.ready_to_send());

    let payload = "hello world!";
    let client_addr = PeerAddr::V4 {
        ip: 0x7f00_0001,
        port: 9999,
    };
    let plan = client.get_or_create_socket_for_sending(0);
    assert_eq!(plan.socket, SendSocket::Create(0));
    assert!(plan.evicted.is_empty());

    {
        server.receive(client_addr);
        let received_payload = payload;
        assert_eq!(payload, received_payload);
    }

    assert!(!server.ready_to_send());
    server.mark_last_received_valid();
    assert!(server.ready_to_send());

    assert_eq!(server.send(), Ok(client_addr));

    {
        assert!(client.get_socket_by_id(0));
        let received_payload = payload;
        assert_eq!(payload, received_payload);
    }
}

#[test]
fn test_default_options() {
    let options = UdpClientTransportOptions::default();
    assert_eq!(options.max_send_sockets, 10);
    assert_eq!(options.socket_send_duration, 60_000_000_000);
    assert_eq!(options.socket_lingering_duration, 60_000_000_000);
}

#[test]
fn test_server_sends_only_to_a_validated_peer() {
    let a = PeerAddr::V4 {
        ip: 0x0a00_0001,
        port: 1,
    };
    let b = PeerAddr::V6 {
        ip6: 1,
        port: 2,
        flowinfo: 3,
        scope_id: 4,
    };
    let mut server = UdpServerTransport::create();
    assert!(!server.needs_keepalive());
    assert_eq!(server.send(), Err(TransportError::AddrNotAvailable));
    server.mark_last_received_valid();
    assert!(!server.ready_to_send());
    server.receive(a);
    assert_eq!(server.send(), Err(TransportError::AddrNotAvailable));
    server.mark_last_received_valid();
    assert_eq!(server.send(), Ok(a));
    server.receive(b);
    assert_eq!(server.send(), Ok(a));
    assert!(server.ready_to_send());
    server.mark_last_received_valid();
    assert_eq!(server.send(), Ok(b));
}

#[test]
fn test_pool_creates_up_to_the_limit_then_reuses() {
    let options = UdpClientTransportOptions {
        max_send_sockets: 3,
        socket_send_duration: 60 * SEC,
        socket_lingering_duration: 60 * SEC,
    };
    let mut pool = UdpClientTransport::create(options);
    assert!(pool.needs_keepalive());
    assert_eq!(pool.options().max_send_sockets, 3);
    for id in 0..3u64 {
        let plan = pool.select_socket_for_sending(id * SEC, 0);
        assert_eq!(plan.socket, SendSocket::Create(id));
        assert!(plan.evicted.is_empty());
        assert_eq!(pool.clock(), id * SEC);
    }
    // the pick is taken modulo the number of sockets that may send
    for (pick, id) in [(0u32, 0u64), (1, 1), (2, 2), (3, 0), (4, 1), (u32::MAX, 0)] {
        let plan = pool.select_socket_for_sending(3 * SEC, pick);
        assert_eq!(plan.socket, SendSocket::Reuse(id));
        assert!(plan.evicted.is_empty());
    }
    for _ in 0..100 {
        let plan = pool.get_or_create_socket_for_sending(3 * SEC);
        assert!(matches!(plan.socket, SendSocket::Reuse(0..=2)));
    }
}

#[test]
fn test_pool_phases() {
    let options = UdpClientTransportOptions {
        max_send_sockets: 1,
        socket_send_duration: 10,
        socket_lingering_duration: 5,
    };
    let mut pool = UdpClientTransport::create(options);
    assert_eq!(
        pool.select_socket_for_sending(100, 7).socket,
        SendSocket::Create(0)
    );
    // age 9: still sending
    assert_eq!(
        pool.select_socket_for_sending(109, 7).socket,
        SendSocket::Reuse(0)
    );
    // age 10: lingering, so a second socket is made; the first stays
    let plan = pool.select_socket_for_sending(110, 7);
    assert_eq!(plan.socket, SendSocket::Create(1));
    assert!(plan.evicted.is_empty());
    assert!(pool.get_socket_by_id(0));
    // age 15: the first socket still lingers
    let plan = pool.select_socket_for_sending(115, 7);
    assert_eq!(plan.socket, SendSocket::Reuse(1));
    assert!(plan.evicted.is_empty());
    assert!(pool.get_socket_by_id(0));
    // age 16: it has expired
    let plan = pool.select_socket_for_sending(116, 7);
    assert_eq!(plan.socket, SendSocket::Reuse(1));
    assert_eq!(plan.evicted, vec![0]);
    assert!(!pool.get_socket_by_id(0));
    assert!(pool.get_socket_by_id(1));
}

#[test]
fn test_pool_restarts_ids_when_empty() {
    let options = UdpClientTransportOptions {
        max_send_sockets: 2,
        socket_send_duration: 10,
        socket_lingering_duration: 10,
    };
    let mut pool = UdpClientTransport::create(options);
    assert_eq!(
        pool.select_socket_for_sending(0, 0).socket,
        SendSocket::Create(0)
    );
    assert_eq!(
        pool.select_socket_for_sending(1, 0).socket,
        SendSocket::Create(1)
    );
    let plan = pool.select_socket_for_sending(1000, 0);
    assert_eq!(plan.evicted, vec![0, 1]);
    assert_eq!(plan.socket, SendSocket::Create(0));
}

#[test]
fn test_pool_error_policy() {
    let mut pool = UdpClientTransport::create(UdpClientTransportOptions::default());
    assert_eq!(
        pool.select_socket_for_sending(5, 0).socket,
        SendSocket::Create(0)
    );
    assert_eq!(
        pool.select_socket_for_sending(6, 0).socket,
        SendSocket::Create(1)
    );
    // a refused connection costs nothing
    assert_eq!(pool.handle_io_error(0, true), IoErrorAction::Ignore);
    assert!(pool.get_socket_by_id(0));
    // any other failure costs the socket
    assert_eq!(pool.handle_io_error(0, false), IoErrorAction::Evict);
    assert!(!pool.get_socket_by_id(0));
    assert!(pool.get_socket_by_id(1));
    // which is then gone
    assert_eq!(pool.handle_io_error(0, false), IoErrorAction::Evict);
    assert!(pool.get_socket_by_id(1));
    assert!(!pool.remove_socket_by_id(0));
    assert!(pool.remove_socket_by_id(1));
    // a socket that could not be made gives its id back
    assert_eq!(
        pool.select_socket_for_sending(7, 0).socket,
        SendSocket::Create(0)
    );
}

/// The pool never offers more sockets for sending than allowed, and after
/// each access holds no expired socket.
#[test]
fn test_pool_bounds_hold_over_time() {
    let options = UdpClientTransportOptions {
        max_send_sockets: 4,
        socket_send_duration: 50,
        socket_lingering_duration: 30,
    };
    let mut pool = UdpClientTransport::create(options);
    let mut held: Vec<SockContext> = Vec::new();
    let mut now = 0u64;
    for step in 0..2000u32 {
        now += (step as u64 * 7) % 13;
        let plan = pool.select_socket_for_sending(now, step.wrapping_mul(2654435761));
        for id in &plan.evicted {
            let at = held.iter().position(|e| e.id == *id).unwrap();
            assert!(now - held[at].created > 80);
            held.remove(at);
        }
        match plan.socket {
            SendSocket::Create(id) => {
                assert!(held.iter().all(|e| e.id < id));
                held.push(SockContext { id, created: now });
            }
            SendSocket::Reuse(id) => {
                let e = held.iter().find(|e| e.id == id).unwrap();
                assert!(now - e.created < 50);
            }
        }
        assert!(held.iter().all(|e| now - e.created <= 80));
        let sendable = held.iter().filter(|e| now - e.created < 50).count();
        assert!(1 <= sendable && sendable <= 4);
        for e in &held {
            assert!(pool.get_socket_by_id(e.id));
        }
    }
}

#[test]
fn test_phase_boundaries() {
    let options = UdpClientTransportOptions {
        max_send_sockets: 1,
        socket_send_duration: 10,
        socket_lingering_duration: 5,
    };
    assert_eq!(options.phase(100, 100), SocketPhase::Sendable);
    assert_eq!(options.phase(100, 109), SocketPhase::Sendable);
    assert_eq!(options.phase(100, 110), SocketPhase::Linger);
    assert_eq!(options.phase(100, 115), SocketPhase::Linger);
    assert_eq!(options.phase(100, 116), SocketPhase::Evicted);
    assert_eq!(options.phase(100, u64::MAX), SocketPhase::Evicted);
    // a time before the making counts as the time of the making
    assert_eq!(options.phase(100, 0), SocketPhase::Sendable);
    // durations that together overflow the clock are never outlived
    let forever = UdpClientTransportOptions {
        max_send_sockets: 1,
        socket_send_duration: u64::MAX,
        socket_lingering_duration: u64::MAX,
    };
    assert_eq!(forever.phase(0, u64::MAX - 1), SocketPhase::Sendable);
    assert_eq!(forever.phase(0, u64::MAX), SocketPhase::Linger);
    // a socket that never sends still lingers
    let mute = UdpClientTransportOptions {
        max_send_sockets: 1,
        socket_send_duration: 0,
        socket_lingering_duration: 5,
    };
    assert_eq!(mute.phase(7, 7), SocketPhase::Linger);
    assert_eq!(mute.phase(7, 12), SocketPhase::Linger);
    assert_eq!(mute.phase(7, 13), SocketPhase::Evicted);
}

#[test]
fn test_last_socket_id() {
    let mut pool = UdpClientTransport::create(UdpClientTransportOptions::default());
    assert_eq!(pool.last_socket_id(), None);
    pool.select_socket_for_sending(1, 0);
    pool.select_socket_for_sending(2, 0);
    assert_eq!(pool.last_socket_id(), Some(1));
    assert!(pool.remove_socket_by_id(1));
    assert_eq!(pool.last_socket_id(), Some(0));
}
