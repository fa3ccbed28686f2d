//! The client's table of sockets: one that carries the data, one that is
//! being connected to take its place, and those that were replaced and
//! linger for what is still on its way to them.
//!
//! Times are nanoseconds on a clock that never runs backwards.

use crate::faketcp::socket::{
    recv_seq_after, segment_fields, state_after, AddrV4, RawSocketSender, Socket, SocketError,
    SocketState, SocketView, SUM_MAX_LEN, TCP_FLAG_ACK,
};
use crate::transport::udp::{age, NANOS_PER_SEC};
use std::collections::VecDeque;
use vstd::prelude::*;

verus! {

/// How long a replaced socket lingers, in nanoseconds.
pub const LINGERING_MAX_DURATION: u64 = 30 * NANOS_PER_SEC;

/// How long a socket carries the data before another is connected in its
/// place, in nanoseconds.
pub const ACTIVE_MAX_DURATION: u64 = 60 * NANOS_PER_SEC;

/// How long a socket may take to connect before it is given up, in
/// nanoseconds.
pub const CONNECT_TIMEOUT_DURATION: u64 = 3 * NANOS_PER_SEC;

/// The first local port that the client connects from.
pub const CLIENT_PORT_START: u16 = 10000;

/// The end of the local ports that the client connects from; it is not one
/// of them.
pub const CLIENT_PORT_END: u16 = 60000;

/// A socket, and the time since when it is what it is in the table:
/// connecting, active or lingering.
pub struct TimedSocket<RAW> {
    sock: Socket<RAW>,
    since: u64,
}

/// What a timed socket is, apart from the raw socket it sends by.
pub struct TimedView {
    /// The socket.
    pub sock: SocketView,
    /// The time since when it is what it is in the table.
    pub since: u64,
}

impl<RAW> View for TimedSocket<RAW> {
    type V = TimedView;

    closed spec fn view(&self) -> TimedView {
        TimedView { sock: self.sock@, since: self.since }
    }
}

/// What a table is, apart from the raw socket its sockets send by.
pub struct TableView {
    /// The address that the sockets connect from.
    pub local_ip: [u8; 4],
    /// The port that the last socket connected from.
    pub local_port_next: u16,
    /// The address that the sockets connect to.
    pub remote_addr: AddrV4,
    /// The sockets that were replaced, the first replaced first.
    pub lingering: Seq<TimedView>,
    /// The socket that carries the data.
    pub active: Option<TimedView>,
    /// The socket that is being connected.
    pub connecting: Option<TimedView>,
}

/// The port after `port` among those that the client connects from.
pub open spec fn next_port(port: u16) -> u16 {
    if port + 1 >= CLIENT_PORT_END {
        CLIENT_PORT_START
    } else {
        (port + 1) as u16
    }
}

/// How many sockets at the front of `lingering` have lingered for longer
/// than `LINGERING_MAX_DURATION` at `now`.
pub open spec fn stale_count(lingering: Seq<TimedView>, now: u64) -> nat
    decreases lingering.len(),
{
    if lingering.len() == 0 || age(lingering[0].since, now) <= LINGERING_MAX_DURATION {
        0
    } else {
        1 + stale_count(lingering.skip(1), now)
    }
}

/// Whether the connecting socket of `t` is connected, and so takes over.
pub open spec fn promotes(t: TableView) -> bool {
    t.connecting is Some && t.connecting->0.sock.state == SocketState::Established
}

/// The table `t` at `now`, its stale sockets gone and its connecting socket,
/// if connected, made active in place of the one that was, which lingers
/// from now on.
pub open spec fn after_promotion(t: TableView, now: u64) -> TableView {
    let lingering = t.lingering.skip(stale_count(t.lingering, now) as int);
    if promotes(t) {
        TableView {
            lingering: if t.active is Some {
                lingering.push(TimedView { sock: t.active->0.sock, since: now })
            } else {
                lingering
            },
            active: Some(TimedView { sock: t.connecting->0.sock, since: now }),
            connecting: None,
            ..t
        }
    } else {
        TableView { lingering, ..t }
    }
}

/// Whether a new socket is to be connected at `now`: nothing carries the
/// data, or the socket that does has done so for longer than
/// `ACTIVE_MAX_DURATION`; and nothing is being connected, or has been for
/// longer than `CONNECT_TIMEOUT_DURATION`.
pub open spec fn needs_new_connect(t: TableView, now: u64) -> bool {
    &&& t.active is None || age(t.active->0.since, now) > ACTIVE_MAX_DURATION
    &&& t.connecting is None || age(t.connecting->0.since, now) > CONNECT_TIMEOUT_DURATION
}

/// Whether `after` is what maintaining `before` at `now` makes of it: the
/// table after promotion, and where a new socket is to be connected, a
/// socket that has sent its SYN from the next port in place of the one that
/// was connecting.
pub open spec fn maintained(before: TableView, after: TableView, now: u64) -> bool {
    let mid = after_promotion(before, now);
    if needs_new_connect(mid, now) {
        &&& after.local_ip == mid.local_ip
        &&& after.remote_addr == mid.remote_addr
        &&& after.lingering == mid.lingering
        &&& after.active == mid.active
        &&& after.local_port_next == next_port(mid.local_port_next)
        &&& after.connecting is Some
        &&& after.connecting->0.since == now
        &&& after.connecting->0.sock.state == SocketState::SynSent
        &&& after.connecting->0.sock.local == AddrV4 {
            ip: mid.local_ip,
            port: next_port(mid.local_port_next),
        }
        &&& after.connecting->0.sock.remote == mid.remote_addr
        &&& after.connecting->0.sock.next_recv_seq == 0
        &&& 1 <= after.connecting->0.sock.next_send_seq <= u32::MAX / 2
    } else {
        after == mid
    }
}

/// What a connecting or connected socket is after the segment `pkt` was fed
/// to it.
pub open spec fn fed(v: SocketView, pkt: Seq<u8>) -> SocketView {
    match segment_fields(pkt, v.local.port, v.remote.port) {
        None => v,
        Some(f) => SocketView {
            state: state_after(v.state, v.next_send_seq, f),
            next_recv_seq: recv_seq_after(
                v.state,
                v.next_send_seq,
                v.next_recv_seq,
                f,
                pkt.len() - f.data_offset,
            ),
            ..v
        },
    }
}

/// The data that the segment `pkt` brings to a socket: what follows its
/// header and options, if the socket is connected and the segment is for it
/// and carries the flag ACK and no other.
pub open spec fn data_for(v: SocketView, pkt: Seq<u8>) -> Seq<u8> {
    match segment_fields(pkt, v.local.port, v.remote.port) {
        None => Seq::empty(),
        Some(f) => if v.state == SocketState::Established && f.flags == TCP_FLAG_ACK {
            pkt.skip(f.data_offset)
        } else {
            Seq::empty()
        },
    }
}

/// A timed socket after the segment `pkt` was fed to it.
pub open spec fn fed_timed(t: Option<TimedView>, pkt: Seq<u8>) -> Option<TimedView> {
    match t {
        None => None,
        Some(t) => Some(TimedView { sock: fed(t.sock, pkt), since: t.since }),
    }
}

/// The data that the segment `pkt` brings to a timed socket, if any.
pub open spec fn data_for_timed(t: Option<TimedView>, pkt: Seq<u8>) -> Seq<Seq<u8>> {
    match t {
        None => Seq::empty(),
        Some(t) => if data_for(t.sock, pkt).len() > 0 {
            seq![data_for(t.sock, pkt)]
        } else {
            Seq::empty()
        },
    }
}

/// The views of timed sockets, in their order.
pub open spec fn timed_views<RAW>(socks: Seq<TimedSocket<RAW>>) -> Seq<TimedView> {
    socks.map_values(|t: TimedSocket<RAW>| t@)
}

/// The bytes of slices, in their order.
pub open spec fn slices_bytes(slices: Seq<&[u8]>) -> Seq<Seq<u8>> {
    slices.map_values(|s: &[u8]| s@)
}

/// The client's table of sockets.
pub struct SocketTable<RAW> {
    raw_sock_send_half: RAW,
    local_ip: [u8; 4],
    local_port_next: u16,
    remote_addr: AddrV4,
    /// lingering sockets, with the time when each became lingering
    lingering_socks: VecDeque<TimedSocket<RAW>>,
    /// active socket, with the time when it became active
    active_sock: Option<TimedSocket<RAW>>,
    /// connecting socket, with the time when it started to connect
    connecting_sock: Option<TimedSocket<RAW>>,
}

impl<RAW> View for SocketTable<RAW> {
    type V = TableView;

    closed spec fn view(&self) -> TableView {
        TableView {
            local_ip: self.local_ip,
            local_port_next: self.local_port_next,
            remote_addr: self.remote_addr,
            lingering: timed_views(self.lingering_socks@),
            active: match self.active_sock {
                Some(t) => Some(t@),
                None => None,
            },
            connecting: match self.connecting_sock {
                Some(t) => Some(t@),
                None => None,
            },
        }
    }
}

/// A table in good order: its port is one that the client connects from,
/// its active socket is connected, and its connecting socket is one that
/// connects.
pub open spec fn table_wf(t: TableView) -> bool {
    &&& CLIENT_PORT_START <= t.local_port_next < CLIENT_PORT_END
    &&& t.active is Some ==> t.active->0.sock.state == SocketState::Established
    &&& t.connecting is Some ==> t.connecting->0.sock.state == SocketState::SynSent
        || t.connecting->0.sock.state == SocketState::Established
}

/// Dropping the stale sockets one at a time drops `stale_count` of them.
proof fn lemma_stale_count_step(lingering: Seq<TimedView>, now: u64)
    requires
        lingering.len() > 0,
        age(lingering[0].since, now) > LINGERING_MAX_DURATION,
    ensures
        stale_count(lingering, now) == 1 + stale_count(lingering.skip(1), now),
        lingering.skip(stale_count(lingering, now) as int) == lingering.skip(1).skip(
            stale_count(lingering.skip(1), now) as int,
        ),
        stale_count(lingering.skip(1), now) <= lingering.len() - 1,
{
    lemma_stale_count_bound(lingering.skip(1), now);
    assert(lingering.skip(1).skip(stale_count(lingering.skip(1), now) as int) =~= lingering.skip(
        1 + stale_count(lingering.skip(1), now) as int,
    ));
}

/// No more sockets are stale than there are.
proof fn lemma_stale_count_bound(lingering: Seq<TimedView>, now: u64)
    ensures
        stale_count(lingering, now) <= lingering.len(),
    decreases lingering.len(),
{
    if lingering.len() > 0 && age(lingering[0].since, now) > LINGERING_MAX_DURATION {
        lemma_stale_count_bound(lingering.skip(1), now);
    }
}

impl<RAW: RawSocketSender + Clone> SocketTable<RAW> {
    /// Whether the table is in good order.
    pub open spec fn wf(&self) -> bool {
        table_wf(self@)
    }

    /// An empty table, whose sockets will send by copies of
    /// `raw_sock_send_half`, from `local_ip` to `remote_addr`.
    pub fn new(raw_sock_send_half: RAW, local_ip: [u8; 4], remote_addr: AddrV4) -> (table: Self)
        ensures
            table.wf(),
            table@ == (TableView {
                local_ip,
                local_port_next: CLIENT_PORT_START,
                remote_addr,
                lingering: Seq::empty(),
                active: None,
                connecting: None,
            }),
    {
        let table = SocketTable {
            raw_sock_send_half,
            local_ip,
            local_port_next: CLIENT_PORT_START,
            remote_addr,
            lingering_socks: VecDeque::new(),
            active_sock: None,
            connecting_sock: None,
        };
        assert(table@.lingering =~= Seq::<TimedView>::empty());
        table
    }

    /// Moves on to the next local port, around the end of the range, and
    /// gives it.
    fn next_local_port(&mut self) -> (port: u16)
        requires
            CLIENT_PORT_START <= old(self)@.local_port_next < CLIENT_PORT_END,
        ensures
            port == next_port(old(self)@.local_port_next),
            final(self)@ == (TableView { local_port_next: port, ..old(self)@ }),
    {
        self.local_port_next = self.local_port_next + 1;
        if self.local_port_next >= CLIENT_PORT_END {
            self.local_port_next = CLIENT_PORT_START;
        }
        self.local_port_next
    }

    /// Whether what has been since `since` has been for longer than `max` at
    /// `now`.
    fn longer_than(since: u64, now: u64, max: u64) -> (longer: bool)
        ensures
            longer == (age(since, now) > max),
    {
        now >= since && now - since > max
    }

    /// Feeds a segment to one socket of the table, if there is one, and
    /// gives the data that it brings, if any. A failure of the raw socket
    /// while the socket answers is not passed on.
    fn feed_one<'a>(slot: &mut Option<TimedSocket<RAW>>, buf: &'a [u8]) -> (data: Option<&'a [u8]>)
        requires
            *old(slot) matches Some(t) ==> t@.sock.state != SocketState::Initial,
        ensures
            ({
                let before = *old(slot);
                let after = *final(slot);
                match before {
                    Some(t) => {
                        &&& after is Some
                        &&& Some(after->0@) == fed_timed(Some(t@), buf@)
                        &&& match data {
                            Some(bytes) => bytes@.len() > 0 && bytes@ == data_for(t@.sock, buf@),
                            None => data_for(t@.sock, buf@).len() == 0,
                        }
                    },
                    None => after is None && data is None,
                }
            }),
    {
        match slot.take() {
            Some(t) => {
                let mut sock = t.sock;
                let fed = sock.feed_packet(buf);
                *slot = Some(TimedSocket { sock, since: t.since });
                match fed {
                    Ok(bytes) => if bytes.len() > 0 {
                        Some(bytes)
                    } else {
                        None
                    },
                    Err(_) => None,
                }
            },
            None => None,
        }
    }

    /// Takes a segment that arrived on the raw socket at `now`: feeds it to
    /// the active and to the connecting socket, then keeps the table. Gives
    /// the data that the segment brought, the active socket's first.
    pub fn feed_packet<'a>(&mut self, buf: &'a [u8], now: u64) -> (res: Result<
        Vec<&'a [u8]>,
        SocketError,
    >)
        requires
            old(self).wf(),
        ensures
            final(self).wf(),
            final(self)@.local_ip == old(self)@.local_ip,
            final(self)@.remote_addr == old(self)@.remote_addr,
            res matches Ok(data) ==> {
                &&& maintained(
                    TableView {
                        active: fed_timed(old(self)@.active, buf@),
                        connecting: fed_timed(old(self)@.connecting, buf@),
                        ..old(self)@
                    },
                    final(self)@,
                    now,
                )
                &&& slices_bytes(data@) == data_for_timed(old(self)@.active, buf@)
                    + data_for_timed(old(self)@.connecting, buf@)
            },
            res matches Err(e) ==> e is Io,
    {
        let mut received: Vec<&'a [u8]> = Vec::new();
        assert(slices_bytes(received@) =~= Seq::<Seq<u8>>::empty());
        match Self::feed_one(&mut self.active_sock, buf) {
            Some(bytes) => {
                assert(slices_bytes(received@.push(bytes)) =~= seq![bytes@]);
                received.push(bytes);
            },
            None => {},
        }
        let ghost first = slices_bytes(received@);
        match Self::feed_one(&mut self.connecting_sock, buf) {
            Some(bytes) => {
                assert(slices_bytes(received@.push(bytes)) =~= first + seq![bytes@]);
                received.push(bytes);
            },
            None => {
                assert(first + Seq::<Seq<u8>>::empty() =~= first);
            },
        }
        match self.maintain(now) {
            Ok(()) => Ok(received),
            Err(e) => Err(e),
        }
    }

    /// Sends `buf` by the active socket, and says whether there was one; if
    /// not, the data is dropped.
    pub fn send_data(&mut self, buf: &[u8]) -> (res: Result<bool, SocketError>)
        requires
            old(self).wf(),
            buf.len() <= SUM_MAX_LEN,
        ensures
            final(self).wf(),
            match old(self)@.active {
                None => res matches Ok(sent) && !sent && final(self)@ == old(self)@,
                Some(active) => {
                    &&& res matches Ok(sent) ==> sent
                    &&& res matches Err(e) ==> e is Io
                    &&& final(self)@ == (TableView {
                        active: Some(
                            TimedView {
                                sock: SocketView {
                                    next_send_seq: if res is Ok {
                                        crate::faketcp::socket::seq_add(
                                            active.sock.next_send_seq,
                                            buf@.len() as int,
                                        )
                                    } else {
                                        active.sock.next_send_seq
                                    },
                                    ..active.sock
                                },
                                since: active.since,
                            },
                        ),
                        ..old(self)@
                    })
                },
            },
    {
        match self.active_sock.take() {
            Some(t) => {
                let mut sock = t.sock;
                let sent = sock.send(buf);
                self.active_sock = Some(TimedSocket { sock, since: t.since });
                match sent {
                    Ok(()) => Ok(true),
                    Err(e) => Err(e),
                }
            },
            None => Ok(false),
        }
    }

    /// Keeps the table at `now`: drops the sockets that have lingered long
    /// enough, lets a connected socket take over from the active one, which
    /// is reset and lingers, and connects a new socket where the active one
    /// is missing or old and none is on its way.
    ///
    /// Where the raw socket fails, the error is passed on and the table is
    /// left in good order.
    pub fn maintain(&mut self, now: u64) -> (res: Result<(), SocketError>)
        requires
            old(self).wf(),
        ensures
            final(self).wf(),
            final(self)@.local_ip == old(self)@.local_ip,
            final(self)@.remote_addr == old(self)@.remote_addr,
            res is Ok ==> maintained(old(self)@, final(self)@, now),
            res matches Err(e) ==> e is Io,
    {
        let ghost before = self@;
        while self.lingering_socks.len() > 0 && Self::longer_than(
            self.lingering_socks[0].since,
            now,
            LINGERING_MAX_DURATION,
        )
            invariant
                self@ == (TableView { lingering: self@.lingering, ..before }),
                self@.lingering.skip(stale_count(self@.lingering, now) as int)
                    == before.lingering.skip(stale_count(before.lingering, now) as int),
            decreases self.lingering_socks@.len(),
        {
            proof {
                lemma_stale_count_step(self@.lingering, now);
                let rest = self.lingering_socks@.subrange(1, self.lingering_socks@.len() as int);
                assert(timed_views(rest) =~= self@.lingering.skip(1));
            }
            let _ = self.lingering_socks.pop_front();
        }
        assert(self@.lingering =~= self@.lingering.skip(0));

        let connected = match &self.connecting_sock {
            Some(t) => t.sock.ready(),
            None => false,
        };
        if connected {
            let connected_s = self.connecting_sock.take().unwrap();
            match self.active_sock.take() {
                Some(active) => {
                    let mut active_s = active.sock;
                    match active_s.send_rst() {
                        Ok(()) => {},
                        Err(e) => {
                            return Err(e);
                        },
                    }
                    proof {
                        let moved = TimedSocket { sock: active_s, since: now };
                        assert(timed_views(self.lingering_socks@.push(moved))
                            =~= self@.lingering.push(moved@));
                    }
                    self.lingering_socks.push_back(TimedSocket { sock: active_s, since: now });
                },
                None => {},
            }
            self.active_sock = Some(TimedSocket { sock: connected_s.sock, since: now });
        }
        assert(self@ == after_promotion(before, now));

        let active_is_old = match &self.active_sock {
            Some(t) => Self::longer_than(t.since, now, ACTIVE_MAX_DURATION),
            None => true,
        };
        let connecting_is_late = match &self.connecting_sock {
            Some(t) => Self::longer_than(t.since, now, CONNECT_TIMEOUT_DURATION),
            None => true,
        };
        if active_is_old && connecting_is_late {
            match self.connecting_sock.take() {
                Some(late) => {
                    let mut late_s = late.sock;
                    match late_s.send_rst() {
                        Ok(()) => {},
                        Err(e) => {
                            return Err(e);
                        },
                    }
                },
                None => {},
            }
            let port = self.next_local_port();
            let local_addr = AddrV4 { ip: self.local_ip, port };
            let s = match Socket::new_connect(
                local_addr,
                self.remote_addr,
                self.raw_sock_send_half.clone(),
            ) {
                Ok(s) => s,
                Err(e) => {
                    return Err(e);
                },
            };
            self.connecting_sock = Some(TimedSocket { sock: s, since: now });
        }
        Ok(())
    }
}

} // verus!
