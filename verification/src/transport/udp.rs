//! Bookkeeping of the UDP endpoints.
//!
//! The client spreads its datagrams over a pool of short-lived sockets: a
//! socket is chosen for sending while it is young, kept for late replies a
//! while longer, and then closed. The server answers the peer whose last
//! datagram was found authentic, and nobody before that.
//!
//! The sockets themselves belong to the caller; the pool knows them by id.
//! Times are nanoseconds on a clock that never runs backwards.

use crate::rng::random_u32;
use vstd::prelude::*;

verus! {

/// Nanoseconds in a second.
pub const NANOS_PER_SEC: u64 = 1_000_000_000;

/// How the client rotates its sockets.
#[derive(Clone, Copy, Debug)]
pub struct UdpClientTransportOptions {
    /// Most sockets that may be chosen for sending at one time.
    pub max_send_sockets: usize,
    /// How long a socket is chosen for sending, in nanoseconds.
    pub socket_send_duration: u64,
    /// How long a socket is kept for receiving after that, in nanoseconds.
    pub socket_lingering_duration: u64,
}

impl Default for UdpClientTransportOptions {
    /// Ten sockets, each sending for a minute and lingering for another.
    fn default() -> (options: Self)
        ensures
            options.max_send_sockets == 10,
            options.socket_send_duration == 60 * NANOS_PER_SEC,
            options.socket_lingering_duration == 60 * NANOS_PER_SEC,
    {
        UdpClientTransportOptions {
            max_send_sockets: 10,
            socket_send_duration: 60 * NANOS_PER_SEC,
            socket_lingering_duration: 60 * NANOS_PER_SEC,
        }
    }
}

impl UdpClientTransportOptions {
    /// The phase at `now` of a socket made at `created`.
    pub fn phase(&self, created: u64, now: u64) -> (phase: SocketPhase)
        ensures
            phase == phase_at(*self, created, now),
    {
        let age = if now >= created {
            now - created
        } else {
            0
        };
        if age < self.socket_send_duration {
            SocketPhase::Sendable
        } else if age - self.socket_send_duration <= self.socket_lingering_duration {
            SocketPhase::Linger
        } else {
            SocketPhase::Evicted
        }
    }
}

/// One socket of the pool.
#[derive(Clone, Copy, Debug, PartialEq, Eq, Structural)]
pub struct SockContext {
    /// The id under which the caller holds the socket.
    pub id: u64,
    /// When the socket was made.
    pub created: u64,
}

/// Which socket a datagram leaves by.
#[derive(Clone, Copy, Debug, PartialEq, Eq, Structural)]
pub enum SendSocket {
    /// A socket that the caller has yet to make, entered in the pool under
    /// this id.
    Create(u64),
    /// The socket of the pool with this id.
    Reuse(u64),
}

/// What the caller does about a failed send or receive on a socket.
#[derive(Clone, Copy, Debug, PartialEq, Eq, Structural)]
pub enum IoErrorAction {
    /// The socket stays, and the failure is passed over.
    Ignore,
    /// The socket has left the pool: the caller stops watching and closes
    /// it, and passes the failure on.
    Evict,
}

/// What `get_or_create_socket_for_sending` decided.
pub struct SendPlan {
    /// Ids of the sockets that left the pool, oldest first: the caller stops
    /// watching and closes them.
    pub evicted: Vec<u64>,
    /// The socket to send by.
    pub socket: SendSocket,
}

/// Age at `now` of what was made at `created`.
pub open spec fn age(created: u64, now: u64) -> int {
    if now >= created {
        now - created
    } else {
        0
    }
}

/// The phases of a socket's life, in their order.
#[derive(Clone, Copy, Debug, PartialEq, Eq, Structural)]
pub enum SocketPhase {
    /// The socket may be chosen for sending.
    Sendable,
    /// The socket is kept only for replies still on their way.
    Linger,
    /// The socket has expired: it leaves the pool at the next access.
    Evicted,
}

impl SocketPhase {
    /// The place of a phase in a socket's life.
    pub open spec fn rank(self) -> int {
        match self {
            SocketPhase::Sendable => 0,
            SocketPhase::Linger => 1,
            SocketPhase::Evicted => 2,
        }
    }
}

/// The phase at `now` of a socket made at `created`: it sends while it is
/// younger than the sending time, lingers until it is older than the
/// sending and the lingering time together, and has expired from then on.
pub open spec fn phase_at(o: UdpClientTransportOptions, created: u64, now: u64) -> SocketPhase {
    if age(created, now) < o.socket_send_duration {
        SocketPhase::Sendable
    } else if age(created, now) <= o.socket_send_duration + o.socket_lingering_duration {
        SocketPhase::Linger
    } else {
        SocketPhase::Evicted
    }
}

/// Whether a socket may still be chosen for sending.
pub open spec fn is_send_eligible(o: UdpClientTransportOptions, e: SockContext, now: u64) -> bool {
    phase_at(o, e.created, now) == SocketPhase::Sendable
}

/// Whether a socket is kept only for replies still on their way.
pub open spec fn is_lingering(o: UdpClientTransportOptions, e: SockContext, now: u64) -> bool {
    phase_at(o, e.created, now) == SocketPhase::Linger
}

/// Whether a socket has outlived both its sending and its lingering time.
pub open spec fn is_expired(o: UdpClientTransportOptions, e: SockContext, now: u64) -> bool {
    phase_at(o, e.created, now) == SocketPhase::Evicted
}

/// A socket goes through its phases in one direction only.
pub proof fn lemma_phases_only_advance(
    o: UdpClientTransportOptions,
    created: u64,
    earlier: u64,
    later: u64,
)
    requires
        earlier <= later,
    ensures
        phase_at(o, created, earlier).rank() <= phase_at(o, created, later).rank(),
{
}

/// The sockets that may be chosen for sending at `now`.
pub open spec fn sendable(o: UdpClientTransportOptions, now: u64) -> spec_fn(SockContext) -> bool {
    |e: SockContext| is_send_eligible(o, e, now)
}

/// The sockets that stay in the pool at `now`.
pub open spec fn live(o: UdpClientTransportOptions, now: u64) -> spec_fn(SockContext) -> bool {
    |e: SockContext| !is_expired(o, e, now)
}

/// The sockets that leave the pool at `now`.
pub open spec fn expired(o: UdpClientTransportOptions, now: u64) -> spec_fn(SockContext) -> bool {
    |e: SockContext| is_expired(o, e, now)
}

/// The sockets other than the one with this id.
pub open spec fn other_than(id: u64) -> spec_fn(SockContext) -> bool {
    |e: SockContext| e.id != id
}

/// The ids of `s`, in its order.
pub open spec fn ids(s: Seq<SockContext>) -> Seq<u64> {
    s.map_values(|e: SockContext| e.id)
}

/// Whether the ids of `s` grow strictly.
pub open spec fn ids_increase(s: Seq<SockContext>) -> bool {
    forall|i: int, j: int| 0 <= i < j < s.len() ==> s[i].id < s[j].id
}

/// The id that the next socket gets: one more than the greatest in the pool,
/// or zero in an empty pool.
pub open spec fn next_id(s: Seq<SockContext>) -> int {
    if s.len() == 0 {
        0
    } else {
        s.last().id + 1
    }
}

/// How many sockets of `s` may be chosen for sending at `now`.
pub open spec fn send_eligible_count(
    s: Seq<SockContext>,
    o: UdpClientTransportOptions,
    now: u64,
) -> nat {
    s.filter(sendable(o, now)).len()
}

/// The pool that choosing a socket at `now` makes of the pool `s`, and the
/// socket chosen: the expired sockets leave; while fewer than
/// `max_send_sockets` of the others may be chosen for sending, a new socket
/// joins them under the next id; else the one of those is chosen that `pick`
/// falls on.
pub open spec fn selection(
    o: UdpClientTransportOptions,
    s: Seq<SockContext>,
    now: u64,
    pick: u32,
) -> (Seq<SockContext>, SendSocket) {
    let kept = s.filter(live(o, now));
    let eligible = kept.filter(sendable(o, now));
    if eligible.len() < o.max_send_sockets {
        let fresh = SockContext { id: next_id(kept) as u64, created: now };
        (kept.push(fresh), SendSocket::Create(fresh.id))
    } else {
        (kept, SendSocket::Reuse(eligible[(pick as int) % (eligible.len() as int)].id))
    }
}

/// A pool in good order at the time `clock`: ids grow, nothing was made
/// after `clock`, and no more sockets than allowed may be chosen for
/// sending.
pub open spec fn pool_wf(o: UdpClientTransportOptions, s: Seq<SockContext>, clock: u64) -> bool {
    &&& ids_increase(s)
    &&& forall|i: int| 0 <= i < s.len() ==> (#[trigger] s[i]).created <= clock
    &&& send_eligible_count(s, o, clock) <= o.max_send_sockets
}

/// Filtering a sequence with one more item at its end.
proof fn lemma_filter_push<A>(s: Seq<A>, x: A, p: spec_fn(A) -> bool)
    ensures
        s.push(x).filter(p) == if p(x) {
            s.filter(p).push(x)
        } else {
            s.filter(p)
        },
{
    reveal(Seq::filter);
    assert(s.push(x).drop_last() =~= s);
}

/// A stricter filter keeps no more items.
proof fn lemma_filter_len_le<A>(s: Seq<A>, p: spec_fn(A) -> bool, q: spec_fn(A) -> bool)
    requires
        forall|i: int| 0 <= i < s.len() && p(#[trigger] s[i]) ==> q(s[i]),
    ensures
        s.filter(p).len() <= s.filter(q).len(),
    decreases s.len(),
{
    reveal(Seq::filter);
    if s.len() > 0 {
        lemma_filter_len_le(s.drop_last(), p, q);
    }
}

/// Filtering what was filtered keeps no more items than filtering the whole.
proof fn lemma_filter_filter_len<A>(s: Seq<A>, q: spec_fn(A) -> bool, p: spec_fn(A) -> bool)
    ensures
        s.filter(q).filter(p).len() <= s.filter(p).len(),
    decreases s.len(),
{
    reveal(Seq::filter);
    if s.len() > 0 {
        let front = s.drop_last();
        lemma_filter_filter_len(front, q, p);
        assert(front.push(s.last()) =~= s);
        lemma_filter_push(front, s.last(), q);
        lemma_filter_push(front, s.last(), p);
        if q(s.last()) {
            lemma_filter_push(front.filter(q), s.last(), p);
        }
    }
}

/// A filter keeps the order of the ids.
proof fn lemma_filter_ids_increase(s: Seq<SockContext>, p: spec_fn(SockContext) -> bool)
    requires
        ids_increase(s),
    ensures
        ids_increase(s.filter(p)),
        s.filter(p).len() > 0 ==> s.len() > 0 && s.filter(p).last().id <= s.last().id,
    decreases s.len(),
{
    reveal(Seq::filter);
    if s.len() > 0 {
        let front = s.drop_last();
        lemma_filter_ids_increase(front, p);
        assert(front.push(s.last()) =~= s);
        lemma_filter_push(front, s.last(), p);
    }
}

/// The client's pool of sockets, by id and time of making.
pub struct UdpClientTransport {
    options: UdpClientTransportOptions,
    sock_ctxs: Vec<SockContext>,
    clock: u64,
}

impl View for UdpClientTransport {
    type V = Seq<SockContext>;

    /// The sockets of the pool, by growing id.
    closed spec fn view(&self) -> Seq<SockContext> {
        self.sock_ctxs@
    }
}

impl UdpClientTransport {
    /// The options the pool was made with.
    pub closed spec fn spec_options(&self) -> UdpClientTransportOptions {
        self.options
    }

    /// The latest time the pool has seen.
    pub closed spec fn spec_clock(&self) -> u64 {
        self.clock
    }

    /// Whether the pool is in good order.
    pub open spec fn wf(&self) -> bool {
        pool_wf(self.spec_options(), self@, self.spec_clock())
    }

    /// An empty pool.
    pub fn create(options: UdpClientTransportOptions) -> (pool: UdpClientTransport)
        ensures
            pool.wf(),
            pool@ == Seq::<SockContext>::empty(),
            pool.spec_options() == options,
            pool.spec_clock() == 0,
    {
        let pool = UdpClientTransport { options, sock_ctxs: Vec::new(), clock: 0 };
        proof {
            reveal(Seq::filter);
        }
        pool
    }

    /// The options the pool was made with.
    #[verifier::when_used_as_spec(spec_options)]
    pub fn options(&self) -> (options: UdpClientTransportOptions)
        ensures
            options == self.spec_options(),
    {
        self.options
    }

    /// The latest time the pool has seen.
    #[verifier::when_used_as_spec(spec_clock)]
    pub fn clock(&self) -> (clock: u64)
        ensures
            clock == self.spec_clock(),
    {
        self.clock
    }

    /// Closes the expired sockets, then chooses the socket for the next
    /// datagram: a new one while fewer than `max_send_sockets` may be chosen
    /// for sending, else the one of those that `pick` falls on.
    ///
    /// A new socket is entered in the pool at once; where the caller cannot
    /// make it, `remove_socket_by_id` takes it out again.
    pub fn select_socket_for_sending(&mut self, now: u64, pick: u32) -> (plan: SendPlan)
        requires
            old(self).wf(),
            old(self).spec_options().max_send_sockets > 0,
            old(self).spec_clock() <= now,
            old(self)@.len() > 0 ==> old(self)@.last().id < u64::MAX,
        ensures
            final(self).wf(),
            final(self).spec_options() == old(self).spec_options(),
            final(self).spec_clock() == now,
            plan.evicted@ == ids(old(self)@.filter(expired(old(self).spec_options(), now))),
            (final(self)@, plan.socket) == selection(
                old(self).spec_options(),
                old(self)@,
                now,
                pick,
            ),
            forall|i: int|
                0 <= i < final(self)@.len() ==> !is_expired(
                    old(self).spec_options(),
                    #[trigger] final(self)@[i],
                    now,
                ),
            send_eligible_count(final(self)@, final(self).spec_options(), now)
                <= final(self).spec_options().max_send_sockets,
    {
        let ghost o = self.spec_options();
        let ghost before = self@;
        let ghost then = self.spec_clock();

        let mut kept: Vec<SockContext> = Vec::new();
        let mut evicted: Vec<u64> = Vec::new();
        let mut eligible: Vec<u64> = Vec::new();
        let mut i: usize = 0;
        proof {
            reveal(Seq::filter);
            assert(before.take(0) =~= Seq::<SockContext>::empty());
            assert(ids(Seq::<SockContext>::empty()) =~= Seq::<u64>::empty());
        }
        while i < self.sock_ctxs.len()
            invariant
                self@ == before,
                self.spec_options() == o,
                i <= before.len(),
                kept@ == before.take(i as int).filter(live(o, now)),
                evicted@ == ids(before.take(i as int).filter(expired(o, now))),
                eligible@ == ids(kept@.filter(sendable(o, now))),
            decreases before.len() - i,
        {
            let e = self.sock_ctxs[i];
            proof {
                assert(before.take(i as int).push(e) =~= before.take(i + 1));
                lemma_filter_push(before.take(i as int), e, live(o, now));
                lemma_filter_push(before.take(i as int), e, expired(o, now));
                lemma_filter_push(kept@, e, sendable(o, now));
            }
            match self.options.phase(e.created, now) {
                SocketPhase::Evicted => {
                    proof {
                        let gone = before.take(i as int).filter(expired(o, now));
                        assert(ids(gone.push(e)) =~= ids(gone).push(e.id));
                    }
                    evicted.push(e.id);
                },
                SocketPhase::Sendable => {
                    proof {
                        let ready = kept@.filter(sendable(o, now));
                        assert(ids(ready.push(e)) =~= ids(ready).push(e.id));
                    }
                    eligible.push(e.id);
                    kept.push(e);
                },
                SocketPhase::Linger => {
                    kept.push(e);
                },
            }
            i = i + 1;
        }
        proof {
            assert(before.take(i as int) =~= before);
            lemma_filter_ids_increase(before, live(o, now));
            lemma_filter_filter_len(before, live(o, now), sendable(o, then));
            lemma_filter_len_le(kept@, sendable(o, now), sendable(o, then));
            assert forall|k: int| 0 <= k < kept@.len() implies !is_expired(
                o,
                #[trigger] kept@[k],
                now,
            ) && kept@[k].created <= then by {
                before.lemma_filter_pred(live(o, now), k);
                before.lemma_filter_contains_rev(live(o, now), kept@[k]);
            }
        }
        let socket = if eligible.len() < self.options.max_send_sockets {
            let id: u64 = if kept.len() == 0 {
                0
            } else {
                kept[kept.len() - 1].id + 1
            };
            let fresh = SockContext { id, created: now };
            proof {
                lemma_filter_push(kept@, fresh, sendable(o, now));
            }
            kept.push(fresh);
            SendSocket::Create(id)
        } else {
            let at = pick as usize % eligible.len();
            SendSocket::Reuse(eligible[at])
        };
        self.sock_ctxs = kept;
        self.clock = now;
        SendPlan { evicted, socket }
    }

    /// Closes the expired sockets, then chooses the socket for the next
    /// datagram as `select_socket_for_sending` does, on a random pick.
    pub fn get_or_create_socket_for_sending(&mut self, now: u64) -> (plan: SendPlan)
        requires
            old(self).wf(),
            old(self).spec_options().max_send_sockets > 0,
            old(self).spec_clock() <= now,
            old(self)@.len() > 0 ==> old(self)@.last().id < u64::MAX,
        ensures
            final(self).wf(),
            final(self).spec_options() == old(self).spec_options(),
            final(self).spec_clock() == now,
            plan.evicted@ == ids(old(self)@.filter(expired(old(self).spec_options(), now))),
            exists|pick: u32|
                (final(self)@, plan.socket) == #[trigger] selection(
                    old(self).spec_options(),
                    old(self)@,
                    now,
                    pick,
                ),
            forall|i: int|
                0 <= i < final(self)@.len() ==> !is_expired(
                    old(self).spec_options(),
                    #[trigger] final(self)@[i],
                    now,
                ),
            send_eligible_count(final(self)@, final(self).spec_options(), now)
                <= final(self).spec_options().max_send_sockets,
    {
        let pick = random_u32();
        self.select_socket_for_sending(now, pick)
    }

    /// Whether the pool holds a socket with this id.
    pub fn get_socket_by_id(&self, id: u64) -> (found: bool)
        ensures
            found == exists|i: int| 0 <= i < self@.len() && (#[trigger] self@[i]).id == id,
    {
        let mut i: usize = 0;
        while i < self.sock_ctxs.len()
            invariant
                i <= self@.len(),
                forall|k: int| 0 <= k < i ==> (#[trigger] self@[k]).id != id,
            decreases self@.len() - i,
        {
            if self.sock_ctxs[i].id == id {
                return true;
            }
            i = i + 1;
        }
        false
    }

    /// Takes the socket with this id out of the pool, and says whether there
    /// was one: the caller then stops watching and closes it.
    pub fn remove_socket_by_id(&mut self, id: u64) -> (removed: bool)
        requires
            old(self).wf(),
        ensures
            final(self).wf(),
            final(self).spec_options() == old(self).spec_options(),
            final(self).spec_clock() == old(self).spec_clock(),
            final(self)@ == old(self)@.filter(other_than(id)),
            removed == exists|i: int|
                0 <= i < old(self)@.len() && (#[trigger] old(self)@[i]).id == id,
    {
        let ghost o = self.spec_options();
        let ghost before = self@;
        let ghost then = self.spec_clock();
        let mut kept: Vec<SockContext> = Vec::new();
        let mut removed = false;
        let mut i: usize = 0;
        proof {
            reveal(Seq::filter);
            assert(before.take(0) =~= Seq::<SockContext>::empty());
        }
        while i < self.sock_ctxs.len()
            invariant
                self@ == before,
                i <= before.len(),
                kept@ == before.take(i as int).filter(other_than(id)),
                removed == exists|k: int| 0 <= k < i && (#[trigger] before[k]).id == id,
            decreases before.len() - i,
        {
            let e = self.sock_ctxs[i];
            proof {
                assert(before.take(i as int).push(e) =~= before.take(i + 1));
                lemma_filter_push(before.take(i as int), e, other_than(id));
            }
            if e.id == id {
                removed = true;
            } else {
                kept.push(e);
            }
            i = i + 1;
        }
        proof {
            assert(before.take(i as int) =~= before);
            lemma_filter_ids_increase(before, other_than(id));
            lemma_filter_filter_len(before, other_than(id), sendable(o, then));
            assert forall|k: int| 0 <= k < kept@.len() implies (#[trigger] kept@[k]).created
                <= then by {
                before.lemma_filter_contains_rev(other_than(id), kept@[k]);
            }
        }
        self.sock_ctxs = kept;
        removed
    }

    /// What a failed send or receive on the socket `id` comes to. A refused
    /// connection only means that the server is not up yet: the socket stays
    /// and the failure is passed over. Any other failure costs the socket its
    /// place in the pool and is passed on.
    pub fn handle_io_error(&mut self, id: u64, connection_refused: bool) -> (action: IoErrorAction)
        requires
            old(self).wf(),
        ensures
            final(self).wf(),
            final(self).spec_options() == old(self).spec_options(),
            final(self).spec_clock() == old(self).spec_clock(),
            action == if connection_refused {
                IoErrorAction::Ignore
            } else {
                IoErrorAction::Evict
            },
            final(self)@ == if connection_refused {
                old(self)@
            } else {
                old(self)@.filter(other_than(id))
            },
    {
        if connection_refused {
            IoErrorAction::Ignore
        } else {
            let _ = self.remove_socket_by_id(id);
            IoErrorAction::Evict
        }
    }

    /// The greatest id in the pool, if the pool holds a socket.
    pub fn last_socket_id(&self) -> (id: Option<u64>)
        ensures
            id == if self@.len() == 0 {
                None
            } else {
                Some(self@.last().id)
            },
    {
        if self.sock_ctxs.len() == 0 {
            None
        } else {
            Some(self.sock_ctxs[self.sock_ctxs.len() - 1].id)
        }
    }

    /// The client keeps its path open with keepalives.
    pub fn needs_keepalive(&self) -> (needed: bool)
        ensures
            needed,
    {
        true
    }

    /// The client may always send.
    pub fn ready_to_send(&self) -> (ready: bool)
        ensures
            ready,
    {
        true
    }
}

/// The sockets kept only for replies still on their way at `now`.
pub open spec fn lingering(o: UdpClientTransportOptions, now: u64) -> spec_fn(
    SockContext,
) -> bool {
    |e: SockContext| is_lingering(o, e, now)
}

/// From the pool's clock on, no more than `max_send_sockets` of its sockets
/// may be chosen for sending, whatever was done to the pool before.
pub proof fn lemma_send_eligible_bounded(pool: UdpClientTransport, now: u64)
    requires
        pool.wf(),
        pool.spec_clock() <= now,
    ensures
        send_eligible_count(pool@, pool.spec_options(), now)
            <= pool.spec_options().max_send_sockets,
{
    let o = pool.spec_options();
    lemma_filter_len_le(pool@, sendable(o, now), sendable(o, pool.spec_clock()));
}

/// A pool without expired sockets holds sockets that may be chosen for
/// sending and sockets that linger, and no others.
pub proof fn lemma_pool_partition(s: Seq<SockContext>, o: UdpClientTransportOptions, now: u64)
    requires
        forall|i: int| 0 <= i < s.len() ==> !is_expired(o, #[trigger] s[i], now),
    ensures
        s.len() == s.filter(sendable(o, now)).len() + s.filter(lingering(o, now)).len(),
    decreases s.len(),
{
    reveal(Seq::filter);
    if s.len() > 0 {
        lemma_pool_partition(s.drop_last(), o, now);
    }
}

/// Where a datagram came from, or goes to.
#[derive(Clone, Copy, Debug, PartialEq, Eq, Structural)]
pub enum PeerAddr {
    /// An IPv4 address, as the integer its four bytes make most significant
    /// first, and a port.
    V4 { ip: u32, port: u16 },
    /// An IPv6 address, as the integer its sixteen bytes make most
    /// significant first, and a port, with flow information and scope.
    V6 { ip6: u128, port: u16, flowinfo: u32, scope_id: u32 },
}

/// Why a datagram cannot be sent.
#[derive(Clone, Copy, Debug, PartialEq, Eq, Structural)]
pub enum TransportError {
    /// No peer has sent an authentic datagram yet.
    AddrNotAvailable,
}

/// The server's memory of its peer: where the last datagram came from, and
/// where the last datagram that was found authentic came from.
#[derive(Clone, Copy, Debug)]
pub struct UdpServerTransport {
    peer_addr: Option<PeerAddr>,
    last_peer_addr: Option<PeerAddr>,
}

impl UdpServerTransport {
    /// The peer that datagrams are sent to.
    pub closed spec fn peer(&self) -> Option<PeerAddr> {
        self.peer_addr
    }

    /// The sender of the last datagram received.
    pub closed spec fn last_peer(&self) -> Option<PeerAddr> {
        self.last_peer_addr
    }

    /// A server that has heard from nobody.
    pub fn create() -> (server: UdpServerTransport)
        ensures
            server.peer() is None,
            server.last_peer() is None,
            server.latch() == server_after(Seq::empty()),
    {
        UdpServerTransport { peer_addr: None, last_peer_addr: None }
    }

    /// The server answers; it does not need to keep a path open.
    pub fn needs_keepalive(&self) -> (needed: bool)
        ensures
            !needed,
    {
        false
    }

    /// The peer and the last sender, as `server_after` pairs them.
    pub open spec fn latch(&self) -> (Option<PeerAddr>, Option<PeerAddr>) {
        (self.peer(), self.last_peer())
    }

    /// Notes the sender of a datagram that was just received.
    pub fn receive(&mut self, from: PeerAddr)
        ensures
            final(self).last_peer() == Some(from),
            final(self).peer() == old(self).peer(),
            final(self).latch() == server_step(old(self).latch(), ServerEvent::Received(from)),
    {
        self.last_peer_addr = Some(from);
    }

    /// The last datagram received was found authentic: its sender becomes the
    /// peer. Without a datagram received, nothing changes.
    pub fn mark_last_received_valid(&mut self)
        ensures
            final(self).last_peer() == old(self).last_peer(),
            final(self).peer() == if old(self).last_peer() is Some {
                old(self).last_peer()
            } else {
                old(self).peer()
            },
            final(self).latch() == server_step(old(self).latch(), ServerEvent::MarkedValid),
    {
        match self.last_peer_addr {
            Some(peer_addr) => {
                self.peer_addr = Some(peer_addr);
            },
            None => {},
        }
    }

    /// Whether there is a peer to send to.
    pub fn ready_to_send(&self) -> (ready: bool)
        ensures
            ready == self.peer() is Some,
    {
        self.peer_addr.is_some()
    }

    /// The address that a datagram is sent to.
    pub fn send(&self) -> (target: Result<PeerAddr, TransportError>)
        ensures
            match self.peer() {
                Some(peer) => target == Ok::<PeerAddr, TransportError>(peer),
                None => target == Err::<PeerAddr, TransportError>(
                    TransportError::AddrNotAvailable,
                ),
            },
    {
        match self.peer_addr {
            Some(peer) => Ok(peer),
            None => Err(TransportError::AddrNotAvailable),
        }
    }
}

/// What happens to a server, as far as its peer is concerned.
pub enum ServerEvent {
    /// A datagram arrived from this address.
    Received(PeerAddr),
    /// The last datagram received was found authentic.
    MarkedValid,
}

/// What an event makes of a server's peer and last sender.
pub open spec fn server_step(
    latch: (Option<PeerAddr>, Option<PeerAddr>),
    event: ServerEvent,
) -> (Option<PeerAddr>, Option<PeerAddr>) {
    let (peer, last) = latch;
    match event {
        ServerEvent::Received(from) => (peer, Some(from)),
        ServerEvent::MarkedValid => (
            if last is Some {
                last
            } else {
                peer
            },
            last,
        ),
    }
}

/// The peer and the last sender of a server that these events happened to,
/// in this order, since it was made.
pub open spec fn server_after(events: Seq<ServerEvent>) -> (Option<PeerAddr>, Option<PeerAddr>)
    decreases events.len(),
{
    if events.len() == 0 {
        (None, None)
    } else {
        server_step(server_after(events.drop_last()), events.last())
    }
}

/// A server is ready to send exactly when some datagram it had received was
/// found authentic: never before, and ever after.
pub proof fn lemma_ready_after_validation(events: Seq<ServerEvent>)
    ensures
        server_after(events).0 is Some <==> exists|i: int, j: int|
            0 <= i < j < events.len() && #[trigger] events[i] is Received
                && #[trigger] events[j] is MarkedValid,
        server_after(events).1 is Some <==> exists|i: int|
            0 <= i < events.len() && #[trigger] events[i] is Received,
    decreases events.len(),
{
    if events.len() > 0 {
        let front = events.drop_last();
        lemma_ready_after_validation(front);
        let n = events.len() - 1;
        if server_after(front).0 is Some {
            let (i, j) = choose|i: int, j: int|
                0 <= i < j < front.len() && #[trigger] front[i] is Received
                    && #[trigger] front[j] is MarkedValid;
            assert(events[i] is Received && events[j] is MarkedValid);
        }
        if server_after(front).1 is Some {
            let i = choose|i: int| 0 <= i < front.len() && #[trigger] front[i] is Received;
            assert(events[i] is Received);
            if events.last() is MarkedValid {
                assert(events[i] is Received && events[n] is MarkedValid);
            }
        }
        if events.last() is Received {
            assert(events[n] is Received);
        }
        if server_after(events).0 is None {
            assert forall|i: int, j: int| 0 <= i < j < events.len() implies !(
            #[trigger] events[i] is Received && #[trigger] events[j] is MarkedValid) by {
                if j < n {
                    assert(front[i] == events[i] && front[j] == events[j]);
                } else if events[i] is Received && events[j] is MarkedValid {
                    assert(front[i] is Received);
                }
            }
        }
        if server_after(events).1 is None {
            assert forall|i: int| 0 <= i < events.len() implies !(
            #[trigger] events[i] is Received) by {
                if i < n {
                    assert(front[i] == events[i]);
                }
            }
        }
    }
}

} // verus!
