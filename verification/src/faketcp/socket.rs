//! Segments of a connection that only looks like TCP: no acknowledgements
//! are waited for and nothing is sent again.

use crate::buffer::{
    as_slice, be16, be32, bytes_of, from_be16, from_be32, get_u16, get_u32, put_u16, put_u32,
    put_u8,
};
use crate::constants::BUF_CAPACITY;
use crate::rng::random_below;
use bytes::BytesMut;
use vstd::prelude::*;
use vstd::slice::slice_subrange;

verus! {

/// `std::io::Error`, carried from the raw socket to the caller unread.
#[verifier::external_type_specification]
#[verifier::external_body]
pub struct ExIoError(std::io::Error);

/// Where the segments of a socket go: the raw socket, or what stands for it.
pub trait RawSocketSender {
    /// Whether this sender, handed the segment `pkt`, may come back with
    /// `res`. An implementation that says nothing of itself may come back
    /// with anything.
    open spec fn sends(&self, pkt: Seq<u8>, res: Result<(), std::io::Error>) -> bool {
        true
    }

    /// Sends one segment.
    fn send(&self, pkt: &[u8]) -> (res: Result<(), std::io::Error>)
        ensures
            self.sends(pkt@, res),
    ;
}

/// Whether `res` is what handing the segment `pkt` to `raw` came to: success
/// where the raw socket took the segment, else the failure of the raw
/// socket.
pub open spec fn handed<RAW: RawSocketSender>(
    raw: RAW,
    pkt: Seq<u8>,
    res: Result<(), SocketError>,
) -> bool {
    match res {
        Ok(()) => raw.sends(pkt, Ok(())),
        Err(SocketError::Io(e)) => raw.sends(pkt, Err(e)),
        Err(SocketError::InvalidInput) => false,
    }
}

/// Flag of a segment that opens a connection.
pub const TCP_FLAG_SYN: u8 = 0x02;

/// Flag of a segment that acknowledges.
pub const TCP_FLAG_ACK: u8 = 0x10;

/// Flag of a segment that resets the connection.
pub const TCP_FLAG_RST: u8 = 0x04;

/// Length of a TCP header without options.
pub const TCP_HEADER_LEN: usize = 20;

/// The sum of `data` read as 16-bit words, the first byte of each word being
/// the less significant one; a last byte without a partner counts as it is.
pub open spec fn word_sum(data: Seq<u8>) -> int
    decreases data.len(),
{
    if data.len() == 0 {
        0
    } else if (data.len() - 1) % 2 == 0 {
        word_sum(data.drop_last()) + data.last()
    } else {
        word_sum(data.drop_last()) + data.last() * 256
    }
}

/// `sum` folded into 16 bits with end-around carry: zero stays zero, and any
/// other sum becomes the one number from 1 to 0xffff that differs from it by
/// a multiple of 0xffff.
pub open spec fn fold16(sum: int) -> int {
    if sum <= 0 {
        0
    } else {
        (sum - 1) % 0xffff + 1
    }
}

/// Most bytes that can be summed without the 32-bit sum running over,
/// whatever they are.
pub const SUM_MAX_LEN: usize = 0x2_0000;

/// Adds the 16-bit words of `data` to `init` in ones' complement arithmetic.
pub fn ones_complement_add_by_16bit(data: &[u8], init: u16) -> (sum: u16)
    requires
        data.len() <= SUM_MAX_LEN,
    ensures
        sum == fold16(init + word_sum(data@)),
{
    let mut sum: u32 = init as u32;
    let mut idx: usize = 0;
    assert(data@.take(0) =~= Seq::<u8>::empty());
    while idx < data.len()
        invariant
            idx <= data.len() <= SUM_MAX_LEN,
            sum == init + word_sum(data@.take(idx as int)),
            sum <= 0xffff + (idx / 2) * 0xffff + (idx % 2) * 0xff,
        decreases data.len() - idx,
    {
        let v = data[idx];
        assert(data@.take(idx + 1).drop_last() =~= data@.take(idx as int));
        if idx % 2 == 0 {
            sum = sum + v as u32;
        } else {
            assert((v as u32) << 8 == v * 256) by (bit_vector);
            sum = sum + ((v as u32) << 8);
        }
        idx = idx + 1;
    }
    assert(data@.take(idx as int) =~= data@);
    let ghost total = sum;
    while (sum >> 16) > 0
        invariant
            fold16(sum as int) == fold16(total as int),
        decreases sum,
    {
        assert(sum & 0xffff == sum % 0x10000 && sum >> 16 == sum / 0x10000) by (bit_vector);
        sum = (sum & 0xffff) + (sum >> 16);
    }
    assert(sum >> 16 == sum / 0x10000) by (bit_vector);
    sum as u16
}

/// An IPv4 address and a port.
#[derive(Clone, Copy, Debug, PartialEq, Eq)]
pub struct AddrV4 {
    /// The four bytes of the address, as written.
    pub ip: [u8; 4],
    /// The port.
    pub port: u16,
}

/// How far a connection has come.
#[derive(Clone, Copy, Debug, PartialEq, Eq, Structural)]
pub enum SocketState {
    /// Listening: nothing received yet.
    Initial,
    /// Connecting: the SYN is out.
    SynSent,
    /// Listening: the SYN came in and was answered.
    SynReceived,
    /// Data may flow.
    Established,
}

/// Why a socket did not take or send a segment.
#[derive(Debug)]
pub enum SocketError {
    /// The segment is too short, or not addressed from the peer to this
    /// socket, or its data offset points into the fixed header or past the
    /// end.
    InvalidInput,
    /// The raw socket failed.
    Io(std::io::Error),
}

/// The window scaling option that a SYN carries: kind 3, length 3, shift 14,
/// and one byte to fill the word.
pub open spec fn window_scaling_option() -> Seq<u8> {
    seq![3u8, 3u8, 14u8, 0u8]
}

/// What the checksum of a segment covers besides the segment: both
/// addresses, the protocol number of TCP, and the segment's length.
pub open spec fn pseudo_header(local_ip: Seq<u8>, remote_ip: Seq<u8>, tcp_len: int) -> Seq<u8> {
    local_ip + remote_ip + seq![0u8, 6u8] + be16((tcp_len % 0x10000) as u16)
}

/// The byte that holds the length of header and options in words, in its
/// upper half.
pub open spec fn data_offset_byte(options_len: int) -> u8 {
    ((5 + options_len / 4) % 16 * 16) as u8
}

/// The first sixteen bytes of a segment: ports, sequence and acknowledgement
/// numbers, data offset, flags, and the largest window.
pub open spec fn segment_head(
    local_port: u16,
    remote_port: u16,
    seq: u32,
    ack: u32,
    flags: u8,
    options_len: int,
) -> Seq<u8> {
    be16(local_port) + be16(remote_port) + be32(seq) + be32(ack) + seq![
        data_offset_byte(options_len),
        flags,
    ] + be16(0xffff)
}

/// The ones' complement sum over pseudo header, head, options and data, each
/// added in turn.
pub open spec fn segment_sum(
    pseudo: Seq<u8>,
    head: Seq<u8>,
    options: Seq<u8>,
    data: Seq<u8>,
) -> int {
    fold16(
        fold16(fold16(fold16(word_sum(pseudo)) + word_sum(head)) + word_sum(options)) + word_sum(
            data,
        ),
    )
}

/// The segment from `local` to `remote`: the head, the complement of the
/// sum with its less significant byte first, no urgent pointer, the options
/// and the data.
pub open spec fn tcp_segment(
    local: AddrV4,
    remote: AddrV4,
    seq: u32,
    ack: u32,
    flags: u8,
    options: Seq<u8>,
    data: Seq<u8>,
) -> Seq<u8> {
    let head = segment_head(local.port, remote.port, seq, ack, flags, options.len() as int);
    let sum = segment_sum(
        pseudo_header(local.ip@, remote.ip@, TCP_HEADER_LEN + options.len() + data.len()),
        head,
        options,
        data,
    );
    head + seq![((0xffff - sum) % 256) as u8, ((0xffff - sum) / 256) as u8] + be16(0) + options
        + data
}

/// What a socket reads in the header of a segment.
pub struct SegmentFields {
    /// The sequence number.
    pub seq: u32,
    /// The acknowledgement number.
    pub ack: u32,
    /// The flags.
    pub flags: u8,
    /// Where the data starts.
    pub data_offset: int,
}

/// The header fields of a segment that came from the port `remote_port` to
/// the port `local_port`, where it is long enough for its header and
/// options.
pub open spec fn segment_fields(pkt: Seq<u8>, local_port: u16, remote_port: u16) -> Option<
    SegmentFields,
> {
    if pkt.len() < TCP_HEADER_LEN {
        None
    } else if from_be16(pkt[0], pkt[1]) != remote_port || from_be16(pkt[2], pkt[3])
        != local_port {
        None
    } else if pkt[12] / 16 * 4 < TCP_HEADER_LEN || pkt.len() < pkt[12] / 16 * 4 {
        None
    } else {
        Some(
            SegmentFields {
                seq: from_be32(pkt[4], pkt[5], pkt[6], pkt[7]),
                ack: from_be32(pkt[8], pkt[9], pkt[10], pkt[11]),
                flags: pkt[13],
                data_offset: pkt[12] as int / 16 * 4,
            },
        )
    }
}

/// `n` more than `seq`, around the end of the 32 bits.
pub open spec fn seq_add(seq: u32, n: int) -> u32 {
    ((seq + n) % 0x1_0000_0000) as u32
}

/// The state that a socket in `state`, whose next segment has the number
/// `next_send_seq`, is in after a segment with these fields.
pub open spec fn state_after(
    state: SocketState,
    next_send_seq: u32,
    f: SegmentFields,
) -> SocketState {
    match state {
        SocketState::SynSent => if f.flags == TCP_FLAG_ACK | TCP_FLAG_SYN && f.ack
            == next_send_seq {
            SocketState::Established
        } else {
            SocketState::SynSent
        },
        SocketState::Initial => if f.flags == TCP_FLAG_SYN {
            SocketState::SynReceived
        } else {
            SocketState::Initial
        },
        SocketState::SynReceived => if f.flags == TCP_FLAG_ACK && f.ack == next_send_seq {
            SocketState::Established
        } else {
            SocketState::SynReceived
        },
        SocketState::Established => SocketState::Established,
    }
}

/// The number that a socket expects next after a segment with these fields
/// and `data_len` bytes of data: one past a SYN, and in an established
/// connection the furthest that any segment of data has reached.
pub open spec fn recv_seq_after(
    state: SocketState,
    next_send_seq: u32,
    next_recv_seq: u32,
    f: SegmentFields,
    data_len: int,
) -> u32 {
    match state {
        SocketState::SynSent => if f.flags == TCP_FLAG_ACK | TCP_FLAG_SYN && f.ack
            == next_send_seq {
            seq_add(f.seq, 1)
        } else {
            next_recv_seq
        },
        SocketState::Initial => if f.flags == TCP_FLAG_SYN {
            seq_add(f.seq, 1)
        } else {
            next_recv_seq
        },
        SocketState::SynReceived => next_recv_seq,
        SocketState::Established => if f.flags == TCP_FLAG_ACK && seq_add(f.seq, data_len)
            > next_recv_seq {
            seq_add(f.seq, data_len)
        } else {
            next_recv_seq
        },
    }
}

/// Whether a socket answers a segment with these fields by a segment of its
/// own.
pub open spec fn answers(state: SocketState, next_send_seq: u32, f: SegmentFields) -> bool {
    match state {
        SocketState::SynSent => f.flags == TCP_FLAG_ACK | TCP_FLAG_SYN && f.ack == next_send_seq,
        SocketState::Initial => f.flags == TCP_FLAG_SYN,
        _ => false,
    }
}

/// One end of a connection.
#[derive(Debug)]
pub struct Socket<RAW> {
    local_addr: AddrV4,
    remote_addr: AddrV4,
    state: SocketState,
    next_send_seq: u32,
    next_recv_seq: u32,
    raw_sock: RAW,
}

/// What a socket is, apart from the raw socket it sends by.
pub struct SocketView {
    /// This end's address.
    pub local: AddrV4,
    /// The other end's address.
    pub remote: AddrV4,
    /// How far the connection has come.
    pub state: SocketState,
    /// The sequence number of the next segment sent.
    pub next_send_seq: u32,
    /// The sequence number expected in the next segment received.
    pub next_recv_seq: u32,
}

impl<RAW> View for Socket<RAW> {
    type V = SocketView;

    closed spec fn view(&self) -> SocketView {
        SocketView {
            local: self.local_addr,
            remote: self.remote_addr,
            state: self.state,
            next_send_seq: self.next_send_seq,
            next_recv_seq: self.next_recv_seq,
        }
    }
}

impl<RAW: RawSocketSender> Socket<RAW> {
    /// This end's address.
    pub open spec fn local(&self) -> AddrV4 {
        self@.local
    }

    /// The other end's address.
    pub open spec fn remote(&self) -> AddrV4 {
        self@.remote
    }

    /// How far the connection has come.
    pub open spec fn state(&self) -> SocketState {
        self@.state
    }

    /// The sequence number of the next segment sent.
    pub open spec fn next_send_seq(&self) -> u32 {
        self@.next_send_seq
    }

    /// The sequence number expected in the next segment received.
    pub open spec fn next_recv_seq(&self) -> u32 {
        self@.next_recv_seq
    }

    /// The raw socket that the segments are handed to.
    pub closed spec fn raw(&self) -> RAW {
        self.raw_sock
    }

    /// The segment that the socket sends now with these flags, options and
    /// data.
    pub open spec fn segment(&self, flags: u8, options: Seq<u8>, data: Seq<u8>) -> Seq<u8> {
        tcp_segment(
            self.local(),
            self.remote(),
            self.next_send_seq(),
            self.next_recv_seq(),
            flags,
            options,
            data,
        )
    }

    /// A socket that connects: its SYN is sent at once, under a random
    /// sequence number from the lower half.
    pub fn new_connect(local_addr: AddrV4, remote_addr: AddrV4, raw_sock: RAW) -> (res: Result<
        Self,
        SocketError,
    >)
        ensures
            res matches Ok(sock) ==> {
                &&& sock.local() == local_addr
                &&& sock.remote() == remote_addr
                &&& sock.state() == SocketState::SynSent
                &&& sock.next_recv_seq() == 0
                &&& 1 <= sock.next_send_seq() <= u32::MAX / 2
            },
            res matches Err(e) ==> e is Io,
    {
        let mut sock = Socket {
            local_addr,
            remote_addr,
            state: SocketState::SynSent,
            next_send_seq: 0,
            next_recv_seq: 0,
            raw_sock,
        };
        match sock._send_syn(false) {
            Ok(()) => Ok(sock),
            Err(e) => Err(e),
        }
    }

    /// A socket that listens. It sends nothing until the peer's SYN is fed
    /// to it.
    pub fn new_listened(local_addr: AddrV4, remote_addr: AddrV4, raw_sock: RAW) -> (res: Result<
        Self,
        SocketError,
    >)
        ensures
            res matches Ok(sock) && sock.local() == local_addr && sock.remote() == remote_addr
                && sock.state() == SocketState::Initial && sock.next_send_seq() == 0
                && sock.next_recv_seq() == 0,
    {
        Ok(
            Socket {
                local_addr,
                remote_addr,
                state: SocketState::Initial,
                next_send_seq: 0,
                next_recv_seq: 0,
                raw_sock,
            },
        )
    }

    /// The other end's address.
    pub fn remote_addr(&self) -> (addr: &AddrV4)
        ensures
            *addr == self.remote(),
    {
        &self.remote_addr
    }

    /// This end's address.
    pub fn local_addr(&self) -> (addr: &AddrV4)
        ensures
            *addr == self.local(),
    {
        &self.local_addr
    }

    /// Whether data may flow.
    pub fn ready(&self) -> (ready: bool)
        ensures
            ready == (self.state() == SocketState::Established),
    {
        self.state == SocketState::Established
    }

    /// Sends `data` in one segment; the sequence number moves on by its
    /// length once the segment is out.
    pub fn send(&mut self, data: &[u8]) -> (res: Result<(), SocketError>)
        requires
            old(self).state() == SocketState::Established,
            data.len() <= SUM_MAX_LEN,
        ensures
            final(self).local() == old(self).local(),
            final(self).remote() == old(self).remote(),
            final(self).state() == old(self).state(),
            final(self).next_recv_seq() == old(self).next_recv_seq(),
            final(self).next_send_seq() == if res is Ok {
                seq_add(old(self).next_send_seq(), data.len() as int)
            } else {
                old(self).next_send_seq()
            },
            res matches Err(e) ==> e is Io,
    {
        let none: [u8; 0] = [];
        match self._send_tcp_packet(TCP_FLAG_ACK, &none, data) {
            Ok(()) => {},
            Err(e) => {
                return Err(e);
            },
        }
        self.next_send_seq = Self::advance(self.next_send_seq, data.len());
        Ok(())
    }

    /// Sends a segment that resets the connection: the segment with the
    /// flag RST and neither options nor data is handed to the raw socket, and
    /// what the raw socket makes of it is passed on. The socket stays as it
    /// is.
    pub fn send_rst(&mut self) -> (res: Result<(), SocketError>)
        ensures
            final(self).local() == old(self).local(),
            final(self).remote() == old(self).remote(),
            final(self).state() == old(self).state(),
            final(self).next_recv_seq() == old(self).next_recv_seq(),
            final(self).next_send_seq() == old(self).next_send_seq(),
            final(self).raw() == old(self).raw(),
            handed(
                old(self).raw(),
                old(self).segment(TCP_FLAG_RST, Seq::empty(), Seq::empty()),
                res,
            ),
            res matches Err(e) ==> e is Io,
    {
        let none: [u8; 0] = [];
        assert(none@ =~= Seq::<u8>::empty());
        self._send_tcp_packet(TCP_FLAG_RST, &none, &none)
    }

    /// `n` more than `seq`, around the end of the 32 bits.
    fn advance(seq: u32, n: usize) -> (next: u32)
        requires
            n <= SUM_MAX_LEN,
        ensures
            next == seq_add(seq, n as int),
    {
        let sum: u64 = seq as u64 + n as u64;
        (sum % 0x1_0000_0000) as u32
    }

    /// Takes a segment that arrived for this socket. The connection may move
    /// on, and be answered; in an established connection the data of the
    /// segment is handed out.
    pub fn feed_packet<'a>(&mut self, pkt: &'a [u8]) -> (res: Result<&'a [u8], SocketError>)
        ensures
            final(self).local() == old(self).local(),
            final(self).remote() == old(self).remote(),
            match segment_fields(pkt@, old(self).local().port, old(self).remote().port) {
                None => {
                    &&& res matches Err(e) && e is InvalidInput
                    &&& final(self).state() == old(self).state()
                    &&& final(self).next_send_seq() == old(self).next_send_seq()
                    &&& final(self).next_recv_seq() == old(self).next_recv_seq()
                },
                Some(f) => {
                    &&& final(self).state() == state_after(
                        old(self).state(),
                        old(self).next_send_seq(),
                        f,
                    )
                    &&& final(self).next_recv_seq() == recv_seq_after(
                        old(self).state(),
                        old(self).next_send_seq(),
                        old(self).next_recv_seq(),
                        f,
                        pkt@.len() - f.data_offset,
                    )
                    &&& old(self).state() != SocketState::Initial || f.flags != TCP_FLAG_SYN
                        ==> final(self).next_send_seq() == old(self).next_send_seq()
                    &&& old(self).state() == SocketState::Initial && f.flags == TCP_FLAG_SYN
                        ==> final(self).next_send_seq() <= u32::MAX / 2
                    &&& res matches Ok(data) ==> data@ == if old(self).state()
                        == SocketState::Established && f.flags == TCP_FLAG_ACK {
                        pkt@.skip(f.data_offset)
                    } else {
                        Seq::<u8>::empty()
                    }
                    &&& res matches Err(e) ==> e is Io
                    &&& !answers(old(self).state(), old(self).next_send_seq(), f) ==> res is Ok
                },
            },
    {
        if pkt.len() < TCP_HEADER_LEN {
            return Err(SocketError::InvalidInput);
        }
        if get_u16(pkt, 0) != self.remote_addr.port || get_u16(pkt, 2) != self.local_addr.port {
            return Err(SocketError::InvalidInput);
        }
        let seq_n = get_u32(pkt, 4);
        let ack_n = get_u32(pkt, 8);
        let data_offset = (pkt[12] / 16 * 4) as usize;
        if data_offset < TCP_HEADER_LEN {
            return Err(SocketError::InvalidInput);
        }
        let flags = pkt[13];
        if pkt.len() < data_offset {
            return Err(SocketError::InvalidInput);
        }
        let data = slice_subrange(pkt, data_offset, pkt.len());
        assert(data@ =~= pkt@.skip(data_offset as int));
        let none: [u8; 0] = [];
        let nothing = slice_subrange(pkt, pkt.len(), pkt.len());
        assert(nothing@ =~= Seq::<u8>::empty());

        match self.state {
            SocketState::SynSent => {
                if flags == TCP_FLAG_ACK | TCP_FLAG_SYN && ack_n == self.next_send_seq {
                    self.state = SocketState::Established;
                    self.next_recv_seq = Self::advance(seq_n, 1);
                    match self._send_tcp_packet(TCP_FLAG_ACK, &none, &none) {
                        Ok(()) => {},
                        Err(e) => {
                            return Err(e);
                        },
                    }
                }
            },
            SocketState::Initial => {
                if flags == TCP_FLAG_SYN {
                    self.state = SocketState::SynReceived;
                    self.next_recv_seq = Self::advance(seq_n, 1);
                    match self._send_syn(true) {
                        Ok(()) => {},
                        Err(e) => {
                            return Err(e);
                        },
                    }
                }
            },
            SocketState::SynReceived => {
                if flags == TCP_FLAG_ACK && ack_n == self.next_send_seq {
                    self.state = SocketState::Established;
                }
            },
            SocketState::Established => {
                if flags == TCP_FLAG_ACK {
                    let reached = Self::reach(seq_n, data.len());
                    if reached > self.next_recv_seq {
                        self.next_recv_seq = reached;
                    }
                    return Ok(data);
                }
            },
        }
        Ok(nothing)
    }

    /// `n` more than `seq`, around the end of the 32 bits.
    fn reach(seq: u32, n: usize) -> (next: u32)
        ensures
            next == seq_add(seq, n as int),
    {
        let sum: u128 = seq as u128 + n as u128;
        (sum % 0x1_0000_0000) as u32
    }

    /// The segment that this socket sends now with these flags, options and
    /// data.
    pub fn tcp_packet(&self, flags: u8, options: &[u8], data: &[u8]) -> (packet: BytesMut)
        requires
            options.len() <= SUM_MAX_LEN,
            data.len() <= SUM_MAX_LEN,
        ensures
            bytes_of(packet) == tcp_segment(
                self.local(),
                self.remote(),
                self.next_send_seq(),
                self.next_recv_seq(),
                flags,
                options@,
                data@,
            ),
    {
        let tcp_len = TCP_HEADER_LEN + options.len() + data.len();
        let mut pseudo = BytesMut::with_capacity(12);
        pseudo.extend_from_slice(&self.local_addr.ip);
        pseudo.extend_from_slice(&self.remote_addr.ip);
        put_u8(&mut pseudo, 0);
        put_u8(&mut pseudo, 6);
        put_u16(&mut pseudo, (tcp_len % 0x10000) as u16);
        assert(bytes_of(pseudo) =~= pseudo_header(
            self.local().ip@,
            self.remote().ip@,
            tcp_len as int,
        ));
        let checksum = ones_complement_add_by_16bit(as_slice(&pseudo), 0);

        let mut packet = BytesMut::with_capacity(BUF_CAPACITY);
        put_u16(&mut packet, self.local_addr.port);
        put_u16(&mut packet, self.remote_addr.port);
        put_u32(&mut packet, self.next_send_seq);
        put_u32(&mut packet, self.next_recv_seq);
        put_u8(&mut packet, ((5 + options.len() / 4) % 16 * 16) as u8);
        put_u8(&mut packet, flags);
        put_u16(&mut packet, 0xffff);
        let ghost head = segment_head(
            self.local().port,
            self.remote().port,
            self.next_send_seq(),
            self.next_recv_seq(),
            flags,
            options@.len() as int,
        );
        assert(bytes_of(packet) =~= head);

        let checksum = ones_complement_add_by_16bit(as_slice(&packet), checksum);
        let checksum = ones_complement_add_by_16bit(options, checksum);
        let checksum = ones_complement_add_by_16bit(data, checksum);
        let complement: u16 = 0xffff - checksum;
        put_u8(&mut packet, (complement % 256) as u8);
        put_u8(&mut packet, (complement / 256) as u8);
        put_u16(&mut packet, 0);
        packet.extend_from_slice(options);
        packet.extend_from_slice(data);
        assert(bytes_of(packet) =~= tcp_segment(
            self.local(),
            self.remote(),
            self.next_send_seq(),
            self.next_recv_seq(),
            flags,
            options@,
            data@,
        ));
        packet
    }

    /// Builds the segment with these flags, options and data, hands it to
    /// the raw socket, and passes on what the raw socket makes of it. The
    /// socket stays as it is.
    fn _send_tcp_packet(&mut self, flags: u8, options: &[u8], data: &[u8]) -> (res: Result<
        (),
        SocketError,
    >)
        requires
            options.len() <= SUM_MAX_LEN,
            data.len() <= SUM_MAX_LEN,
        ensures
            final(self).local() == old(self).local(),
            final(self).remote() == old(self).remote(),
            final(self).state() == old(self).state(),
            final(self).next_send_seq() == old(self).next_send_seq(),
            final(self).next_recv_seq() == old(self).next_recv_seq(),
            final(self).raw() == old(self).raw(),
            handed(old(self).raw(), old(self).segment(flags, options@, data@), res),
            res matches Err(e) ==> e is Io,
    {
        let packet = self.tcp_packet(flags, options, data);
        match self.raw_sock.send(as_slice(&packet)) {
            Ok(taken) => {
                assert(taken == ());
                Ok(())
            },
            Err(e) => Err(SocketError::Io(e)),
        }
    }

    /// Picks a sequence number from the lower half, sends a SYN under it,
    /// and moves on by one once the SYN is out.
    fn _send_syn(&mut self, with_ack: bool) -> (res: Result<(), SocketError>)
        ensures
            final(self).local() == old(self).local(),
            final(self).remote() == old(self).remote(),
            final(self).state() == old(self).state(),
            final(self).next_recv_seq() == old(self).next_recv_seq(),
            final(self).next_send_seq() <= u32::MAX / 2,
            res is Ok ==> final(self).next_send_seq() >= 1,
            res matches Err(e) ==> e is Io,
    {
        self.next_send_seq = random_below(u32::MAX / 2);
        let window_scaling_option: [u8; 4] = [3, 3, 14, 0];
        let none: [u8; 0] = [];
        let flags = if with_ack {
            TCP_FLAG_SYN | TCP_FLAG_ACK
        } else {
            TCP_FLAG_SYN
        };
        match self._send_tcp_packet(flags, &window_scaling_option, &none) {
            Ok(()) => {},
            Err(e) => {
                return Err(e);
            },
        }
        self.next_send_seq = self.next_send_seq + 1;
        Ok(())
    }
}

} // verus!
