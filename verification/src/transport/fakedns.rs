//! Frames dressed as DNS traffic (RFC 1035).
//!
//! Towards the server a frame travels in the QNAMEs of a query: each question
//! carries up to 250 bytes of it as labels of up to 63 bytes, and asks for
//! the NULL record of class IN. Towards the client it travels as the RDATA of
//! the single NULL record of a response.

use crate::buffer::{
    be16, be32, bytes_of, from_be16, get_u16, lemma_be16_round_trip, put_u16, put_u32, put_u8,
};
use crate::constants::{TRANSPORT_MTU, UDP_MTU};
use crate::rng::random_u32;
use crate::transport::udp::{
    PeerAddr, SockContext, TransportError, UdpClientTransport, UdpClientTransportOptions,
    UdpServerTransport,
};
use bytes::BytesMut;
use vstd::prelude::*;
use vstd::slice::slice_subrange;

verus! {

/// Record type NULL.
pub const DNS_QTYPE_NULL: u16 = 10;

/// Record class IN.
pub const DNS_QCLASS_IN: u16 = 1;

/// Longest payload that `encode_to_query` takes.
pub const QUERY_MAX_PAYLOAD: usize = 1414;

/// Longest payload that `encode_to_response` takes.
pub const RESPONSE_MAX_PAYLOAD: usize = 1454;

/// Longest label of a name.
pub const LABEL_MAX: usize = 63;

/// Payload bytes that one QNAME carries: three labels of 63 bytes and one of
/// 61, which with their length bytes fill the 254 bytes before the
/// terminator.
pub const QNAME_PAYLOAD: usize = 250;

/// Length of a DNS header.
pub const HEADER_LEN: usize = 12;

/// Length of what precedes the payload in a response.
pub const RESPONSE_PREFIX_LEN: usize = 26;

/// Why a datagram was not decoded.
#[derive(Clone, Copy, Debug, PartialEq, Eq, Structural)]
pub enum CodecError {
    /// The datagram is shorter than the fixed part in front of its content.
    HeaderTooShort,
    /// A label's length byte is missing, exceeds 63, or exceeds what is left.
    InvalidLabel,
    /// Fewer than four bytes follow the terminator of a QNAME.
    QuestionTooShort,
    /// The RDLENGTH of a response is not the number of bytes that follow it.
    LengthMismatch,
}

/// `chunk` cut into labels of at most 63 bytes, each behind its length byte.
pub open spec fn labels(chunk: Seq<u8>) -> Seq<u8>
    decreases chunk.len(),
{
    if chunk.len() == 0 {
        Seq::empty()
    } else {
        let n = if chunk.len() < LABEL_MAX {
            chunk.len() as int
        } else {
            LABEL_MAX as int
        };
        seq![n as u8] + chunk.take(n) + labels(chunk.skip(n))
    }
}

/// What follows the labels of a question: the terminator of the name, the
/// type NULL and the class IN.
pub open spec fn question_tail() -> Seq<u8> {
    seq![0u8] + be16(DNS_QTYPE_NULL) + be16(DNS_QCLASS_IN)
}

/// The question section that carries `payload`, 250 bytes to a question.
pub open spec fn questions(payload: Seq<u8>) -> Seq<u8>
    decreases payload.len(),
{
    if payload.len() == 0 {
        Seq::empty()
    } else {
        let n = if payload.len() < QNAME_PAYLOAD {
            payload.len() as int
        } else {
            QNAME_PAYLOAD as int
        };
        labels(payload.take(n)) + question_tail() + questions(payload.skip(n))
    }
}

/// Number of questions that carry a payload of `len` bytes.
pub open spec fn question_count(len: int) -> int {
    (len + QNAME_PAYLOAD - 1) / (QNAME_PAYLOAD as int)
}

/// Header of a query: the id, recursion desired, `qdcount` questions and no
/// other records.
pub open spec fn query_header(id: u16, qdcount: u16) -> Seq<u8> {
    be16(id) + seq![1u8, 0u8] + be16(qdcount) + be16(0) + be16(0) + be16(0)
}

/// The query that carries `payload` under `id`.
pub open spec fn query_datagram(payload: Seq<u8>, id: u16) -> Seq<u8> {
    query_header(id, question_count(payload.len() as int) as u16) + questions(payload)
}

/// Length of the query that carries a payload of `len` bytes: the header,
/// the payload, one length byte per label and five bytes per question.
pub open spec fn query_len(len: int) -> int {
    HEADER_LEN + len + 4 * (len / (QNAME_PAYLOAD as int)) + (len % (QNAME_PAYLOAD as int)
        + LABEL_MAX - 1) / (LABEL_MAX as int) + 5 * question_count(len)
}

/// Cutting into labels goes on where it stopped, as long as it stopped at a
/// multiple of 63 bytes.
proof fn lemma_labels_concat(a: Seq<u8>, b: Seq<u8>)
    requires
        a.len() % (LABEL_MAX as nat) == 0,
    ensures
        labels(a + b) == labels(a) + labels(b),
    decreases a.len(),
{
    if a.len() == 0 {
        assert(a + b =~= b);
        assert(labels(a) + labels(b) =~= labels(b));
    } else {
        let n = LABEL_MAX as int;
        assert((a + b).take(n) =~= a.take(n));
        assert((a + b).skip(n) =~= a.skip(n) + b);
        lemma_labels_concat(a.skip(n), b);
        assert(labels(a + b) =~= labels(a) + labels(b));
    }
}

/// A chunk that fits one label is that label.
proof fn lemma_labels_single(b: Seq<u8>)
    requires
        1 <= b.len() <= LABEL_MAX,
    ensures
        labels(b) == seq![b.len() as u8] + b,
{
    let n = b.len() as int;
    assert(b.take(n) =~= b);
    assert(b.skip(n).len() == 0);
    assert(labels(b.skip(n)) =~= Seq::<u8>::empty());
    assert(labels(b) =~= seq![b.len() as u8] + b);
}

/// The question section goes on where it stopped, as long as it stopped at a
/// multiple of 250 bytes.
proof fn lemma_questions_concat(a: Seq<u8>, b: Seq<u8>)
    requires
        a.len() % (QNAME_PAYLOAD as nat) == 0,
    ensures
        questions(a + b) == questions(a) + questions(b),
    decreases a.len(),
{
    if a.len() == 0 {
        assert(a + b =~= b);
        assert(questions(a) + questions(b) =~= questions(b));
    } else {
        let n = QNAME_PAYLOAD as int;
        assert((a + b).take(n) =~= a.take(n));
        assert((a + b).skip(n) =~= a.skip(n) + b);
        lemma_questions_concat(a.skip(n), b);
        assert(questions(a + b) =~= questions(a) + questions(b));
    }
}

/// A payload that fits one question is that question.
proof fn lemma_questions_single(b: Seq<u8>)
    requires
        1 <= b.len() <= QNAME_PAYLOAD,
    ensures
        questions(b) == labels(b) + question_tail(),
{
    let n = b.len() as int;
    assert(b.take(n) =~= b);
    assert(b.skip(n).len() == 0);
    assert(questions(b.skip(n)) =~= Seq::<u8>::empty());
    assert(questions(b) =~= labels(b) + question_tail());
}

/// Encodes `payload` as a DNS query with the given id.
pub fn encode_to_query(payload: &[u8], id: u16) -> (out: BytesMut)
    requires
        payload.len() <= QUERY_MAX_PAYLOAD,
    ensures
        bytes_of(out) == query_datagram(payload@, id),
        bytes_of(out).len() == query_len(payload.len() as int),
{
    proof {
        lemma_query_len(payload@, id);
    }
    let mut result = BytesMut::with_capacity(UDP_MTU);
    let question_count = (payload.len() + QNAME_PAYLOAD - 1) / QNAME_PAYLOAD;

    put_u16(&mut result, id);
    put_u8(&mut result, 1);
    put_u8(&mut result, 0);
    put_u16(&mut result, question_count as u16);
    put_u16(&mut result, 0);
    put_u16(&mut result, 0);
    put_u16(&mut result, 0);
    let ghost header = query_header(id, question_count as u16);
    assert(bytes_of(result) =~= header);
    assert(header.len() == HEADER_LEN);

    let mut pos: usize = 0;
    assert(payload@.take(0) =~= Seq::<u8>::empty());
    while pos < payload.len()
        invariant
            payload.len() <= QUERY_MAX_PAYLOAD,
            pos <= payload.len(),
            pos % QNAME_PAYLOAD == 0 || pos == payload.len(),
            bytes_of(result) == header + questions(payload@.take(pos as int)),
            bytes_of(result).len() <= HEADER_LEN + 7 * pos,
        decreases payload.len() - pos,
    {
        let ghost base = bytes_of(result);
        let ghost start = pos;
        let base_len = result.len();
        let limit = base_len + 254;
        let ghost mut full: int = 0;
        assert(payload@.subrange(start as int, pos as int) =~= Seq::<u8>::empty());
        while pos < payload.len() && result.len() + 1 < limit
            invariant
                payload.len() <= QUERY_MAX_PAYLOAD,
                start <= pos <= payload.len(),
                start < payload.len(),
                base_len == base.len(),
                base_len <= HEADER_LEN + 7 * start,
                bytes_of(result).len() <= base_len + 2 * (pos - start),
                limit == base_len + 254,
                bytes_of(result) == base + labels(payload@.subrange(start as int, pos as int)),
                0 <= full <= 3,
                ({
                    ||| (pos - start == LABEL_MAX * full && bytes_of(result).len() == base_len + 64
                        * full)
                    ||| (pos == payload.len() && pos - start < QNAME_PAYLOAD && pos > start)
                    ||| (pos - start == QNAME_PAYLOAD && bytes_of(result).len() == base_len + 254)
                }),
            decreases payload.len() - pos,
        {
            assert(pos - start == LABEL_MAX * full && bytes_of(result).len() == base_len + 64
                * full);
            let room = limit - result.len() - 1;
            let left = payload.len() - pos;
            let label_len = if left < room {
                if left < LABEL_MAX {
                    left
                } else {
                    LABEL_MAX
                }
            } else {
                if room < LABEL_MAX {
                    room
                } else {
                    LABEL_MAX
                }
            };
            let ghost before = payload@.subrange(start as int, pos as int);
            let ghost label = payload@.subrange(pos as int, pos + label_len);
            put_u8(&mut result, label_len as u8);
            result.extend_from_slice(slice_subrange(payload, pos, pos + label_len));
            proof {
                lemma_labels_concat(before, label);
                lemma_labels_single(label);
                assert(before + label =~= payload@.subrange(start as int, pos + label_len));
                assert(bytes_of(result) =~= base + labels(before + label));
                if label_len == LABEL_MAX && full < 3 {
                    full = full + 1;
                }
            }
            pos = pos + label_len;
        }
        let ghost chunk = payload@.subrange(start as int, pos as int);
        put_u8(&mut result, 0);
        put_u16(&mut result, DNS_QTYPE_NULL);
        put_u16(&mut result, DNS_QCLASS_IN);
        proof {
            let done = payload@.take(start as int);
            assert(bytes_of(result) =~= base + labels(chunk) + question_tail());
            lemma_questions_concat(done, chunk);
            lemma_questions_single(chunk);
            assert(done + chunk =~= payload@.take(pos as int));
            assert(bytes_of(result) =~= header + questions(payload@.take(pos as int)));
        }
    }
    assert(payload@.take(pos as int) =~= payload@);
    result
}


/// Length of `chunk` cut into labels: one length byte for every 63 bytes
/// begun.
proof fn lemma_labels_len(chunk: Seq<u8>)
    ensures
        labels(chunk).len() == chunk.len() + (chunk.len() + LABEL_MAX - 1) / (LABEL_MAX as int),
    decreases chunk.len(),
{
    if chunk.len() != 0 {
        let n = if chunk.len() < LABEL_MAX {
            chunk.len() as int
        } else {
            LABEL_MAX as int
        };
        lemma_labels_len(chunk.skip(n));
    }
}

/// A payload that fits one question takes the header, its labels and the
/// tail of one question.
proof fn lemma_query_len_single(len: int)
    requires
        0 < len < QNAME_PAYLOAD,
    ensures
        query_len(len) == HEADER_LEN + len + (len + LABEL_MAX - 1) / (LABEL_MAX as int) + 5,
{
    assert(len / 250 == 0 && len % 250 == len && (len + 249) / 250 == 1);
}

/// Each full question adds its 250 bytes, four length bytes and its tail.
proof fn lemma_query_len_step(len: int)
    requires
        QNAME_PAYLOAD <= len,
    ensures
        query_len(len) == query_len(len - QNAME_PAYLOAD) + 259,
{
    let rest = len - 250;
    assert(rest / 250 == len / 250 - 1);
    assert(rest % 250 == len % 250);
    assert((rest + 249) / 250 == (len + 249) / 250 - 1);
}

/// Length of the question section that carries `payload`.
proof fn lemma_questions_len(payload: Seq<u8>)
    ensures
        HEADER_LEN + questions(payload).len() == query_len(payload.len() as int),
    decreases payload.len(),
{
    let len = payload.len() as int;
    if len == 0 {
        assert(query_len(0) == HEADER_LEN);
    } else if len < QNAME_PAYLOAD {
        let chunk = payload.take(len);
        let more = payload.skip(len);
        lemma_labels_len(chunk);
        lemma_query_len_single(len);
        assert(questions(more).len() == 0);
        assert(question_tail().len() == 5);
        assert(questions(payload).len() == labels(chunk).len() + 5);
    } else {
        let chunk = payload.take(250);
        let more = payload.skip(250);
        lemma_labels_len(chunk);
        lemma_questions_len(more);
        lemma_query_len_step(len);
        assert(question_tail().len() == 5);
        assert(labels(chunk).len() == 254);
        assert(questions(payload).len() == 259 + questions(more).len());
    }
}

/// A query is as long as `query_len` says. It fits a datagram of `UDP_MTU`
/// bytes exactly when its payload has at most 1399 bytes, which every
/// transport frame has.
pub proof fn lemma_query_len(payload: Seq<u8>, id: u16)
    ensures
        query_datagram(payload, id).len() == query_len(payload.len() as int),
        payload.len() <= 1399 <==> query_datagram(payload, id).len() <= UDP_MTU,
        payload.len() <= TRANSPORT_MTU ==> query_datagram(payload, id).len() <= UDP_MTU,
{
    lemma_questions_len(payload);
}

/// One name read from the front of `s`: the bytes its labels carry, and
/// what follows its terminator.
pub open spec fn parse_name(s: Seq<u8>) -> Result<(Seq<u8>, Seq<u8>), CodecError>
    decreases s.len(),
{
    if s.len() == 0 {
        Err(CodecError::InvalidLabel)
    } else if s[0] > LABEL_MAX || s.len() - 1 < s[0] {
        Err(CodecError::InvalidLabel)
    } else if s[0] == 0 {
        Ok((Seq::empty(), s.skip(1)))
    } else {
        match parse_name(s.skip(1 + s[0])) {
            Ok((data, rest)) => Ok((s.subrange(1, 1 + s[0]) + data, rest)),
            Err(e) => Err(e),
        }
    }
}

/// `count` questions read from the front of `s`: the bytes their names
/// carry. The type and class behind each name are skipped unread, and so is
/// what follows the last question.
pub open spec fn parse_questions(s: Seq<u8>, count: nat) -> Result<Seq<u8>, CodecError>
    decreases count,
{
    if count == 0 {
        Ok(Seq::empty())
    } else {
        match parse_name(s) {
            Err(e) => Err(e),
            Ok((data, rest)) => if rest.len() < 4 {
                Err(CodecError::QuestionTooShort)
            } else {
                match parse_questions(rest.skip(4), (count - 1) as nat) {
                    Ok(more) => Ok(data + more),
                    Err(e) => Err(e),
                }
            },
        }
    }
}

/// The payload and the id that the query `s` carries. Of the header only the
/// id and the number of questions are read.
pub open spec fn parse_query(s: Seq<u8>) -> Result<(Seq<u8>, u16), CodecError> {
    if s.len() < HEADER_LEN {
        Err(CodecError::HeaderTooShort)
    } else {
        match parse_questions(s.skip(HEADER_LEN as int), from_be16(s[4], s[5]) as nat) {
            Ok(payload) => Ok((payload, from_be16(s[0], s[1]))),
            Err(e) => Err(e),
        }
    }
}

/// The outcome of reading a name of which `acc` was read already.
spec fn name_after(acc: Seq<u8>, then: Result<(Seq<u8>, Seq<u8>), CodecError>) -> Result<
    (Seq<u8>, Seq<u8>),
    CodecError,
> {
    match then {
        Ok((data, rest)) => Ok((acc + data, rest)),
        Err(e) => Err(e),
    }
}

/// The outcome of reading questions of which `acc` was read already.
spec fn questions_after(acc: Seq<u8>, then: Result<Seq<u8>, CodecError>) -> Result<
    Seq<u8>,
    CodecError,
> {
    match then {
        Ok(data) => Ok(acc + data),
        Err(e) => Err(e),
    }
}

/// Decodes a DNS query into the payload and the id it carries.
pub fn decode_from_query(buf: &[u8]) -> (res: Result<(BytesMut, u16), CodecError>)
    ensures
        match parse_query(buf@) {
            Ok((payload, id)) => res is Ok && bytes_of(res->Ok_0.0) == payload && res->Ok_0.1
                == id,
            Err(e) => res is Err && res->Err_0 == e,
        },
{
    if buf.len() < HEADER_LEN {
        return Err(CodecError::HeaderTooShort);
    }
    let query_id = get_u16(buf, 0);
    let question_count = get_u16(buf, 4);
    let mut pos: usize = HEADER_LEN;
    let mut result = BytesMut::with_capacity(buf.len() - HEADER_LEN);
    let mut done: u16 = 0;
    proof {
        let all = parse_questions(buf@.skip(HEADER_LEN as int), question_count as nat);
        if all is Ok {
            assert(Seq::<u8>::empty() + all->Ok_0 =~= all->Ok_0);
        }
    }
    while done < question_count
        invariant
            HEADER_LEN <= pos <= buf.len(),
            done <= question_count,
            question_count == from_be16(buf@[4], buf@[5]),
            parse_questions(buf@.skip(HEADER_LEN as int), question_count as nat)
                == questions_after(
                bytes_of(result),
                parse_questions(buf@.skip(pos as int), (question_count - done) as nat),
            ),
        decreases question_count - done,
    {
        let ghost acc = bytes_of(result);
        let ghost start = pos;
        let ghost mut name: Seq<u8> = Seq::empty();
        proof {
            let whole = parse_name(buf@.skip(pos as int));
            assert(acc + name =~= acc);
            if whole is Ok {
                assert(name + whole->Ok_0.0 =~= whole->Ok_0.0);
            }
        }
        loop
            invariant_except_break
                parse_name(buf@.skip(start as int)) == name_after(
                    name,
                    parse_name(buf@.skip(pos as int)),
                ),
            invariant
                HEADER_LEN <= pos <= buf.len(),
                question_count == from_be16(buf@[4], buf@[5]),
                bytes_of(result) == acc + name,
                parse_questions(buf@.skip(HEADER_LEN as int), question_count as nat)
                    == questions_after(
                    acc,
                    parse_questions(buf@.skip(start as int), (question_count - done) as nat),
                ),
                done < question_count,
            ensures
                parse_name(buf@.skip(start as int)) == Ok::<(Seq<u8>, Seq<u8>), CodecError>(
                    (name, buf@.skip(pos as int)),
                ),
            decreases buf.len() - pos,
        {
            let ghost here = buf@.skip(pos as int);
            if pos >= buf.len() {
                return Err(CodecError::InvalidLabel);
            }
            let label_len = buf[pos] as usize;
            assert(here[0] == buf@[pos as int]);
            pos = pos + 1;
            if label_len > LABEL_MAX || buf.len() - pos < label_len {
                return Err(CodecError::InvalidLabel);
            }
            if label_len == 0 {
                proof {
                    assert(here.skip(1) =~= buf@.skip(pos as int));
                    assert(name + Seq::<u8>::empty() =~= name);
                }
                break ;
            }
            result.extend_from_slice(slice_subrange(buf, pos, pos + label_len));
            proof {
                let label = buf@.subrange(pos as int, pos + label_len);
                assert(here.subrange(1, 1 + label_len) =~= label);
                assert(here.skip(1 + label_len) =~= buf@.skip(pos + label_len));
                let then = parse_name(buf@.skip(pos + label_len));
                if then is Ok {
                    assert(name + (label + then->Ok_0.0) =~= (name + label) + then->Ok_0.0);
                }
                assert(acc + name + label =~= acc + (name + label));
                name = name + label;
            }
            pos = pos + label_len;
        }
        if buf.len() - pos < 4 {
            return Err(CodecError::QuestionTooShort);
        }
        proof {
            assert(buf@.skip(pos as int).skip(4) =~= buf@.skip(pos + 4));
            let then = parse_questions(
                buf@.skip(pos + 4),
                (question_count - done - 1) as nat,
            );
            if then is Ok {
                assert(acc + (name + then->Ok_0) =~= (acc + name) + then->Ok_0);
            }
        }
        pos = pos + 4;
        done = done + 1;
    }
    proof {
        assert(bytes_of(result) + Seq::<u8>::empty() =~= bytes_of(result));
    }
    Ok((result, query_id))
}


/// Reading a name that was written as labels gives back the bytes that were
/// cut, and leaves what stood behind the terminator.
proof fn lemma_parse_name_labels(chunk: Seq<u8>, rest: Seq<u8>)
    ensures
        parse_name(labels(chunk) + seq![0u8] + rest) == Ok::<(Seq<u8>, Seq<u8>), CodecError>(
            (chunk, rest),
        ),
    decreases chunk.len(),
{
    let s = labels(chunk) + seq![0u8] + rest;
    if chunk.len() == 0 {
        assert(s[0] == 0);
        assert(s.skip(1) =~= rest);
        assert(chunk =~= Seq::<u8>::empty());
    } else {
        let n = if chunk.len() < LABEL_MAX {
            chunk.len() as int
        } else {
            LABEL_MAX as int
        };
        assert(s[0] == n);
        lemma_labels_len(chunk.skip(n));
        assert(s.skip(1 + n) =~= labels(chunk.skip(n)) + seq![0u8] + rest);
        assert(s.subrange(1, 1 + n) =~= chunk.take(n));
        lemma_parse_name_labels(chunk.skip(n), rest);
        assert(chunk.take(n) + chunk.skip(n) =~= chunk);
    }
}

/// Reading the questions that carry `payload` gives `payload` back,
/// whatever follows them.
proof fn lemma_parse_questions(payload: Seq<u8>, rest: Seq<u8>)
    ensures
        parse_questions(questions(payload) + rest, question_count(payload.len() as int) as nat)
            == Ok::<Seq<u8>, CodecError>(payload),
    decreases payload.len(),
{
    if payload.len() == 0 {
        assert(payload =~= Seq::<u8>::empty());
    } else {
        let n = if payload.len() < QNAME_PAYLOAD {
            payload.len() as int
        } else {
            QNAME_PAYLOAD as int
        };
        let chunk = payload.take(n);
        let more = payload.skip(n);
        let behind = be16(DNS_QTYPE_NULL) + be16(DNS_QCLASS_IN) + questions(more) + rest;
        assert(questions(payload) + rest =~= labels(chunk) + seq![0u8] + behind);
        lemma_parse_name_labels(chunk, behind);
        assert(behind.skip(4) =~= questions(more) + rest);
        assert(question_count(payload.len() as int) - 1 == question_count(more.len() as int));
        lemma_parse_questions(more, rest);
        assert(chunk + more =~= payload);
    }
}

/// Decoding an encoded query gives back the payload and the id, for every
/// payload that `encode_to_query` takes and every id.
pub proof fn lemma_query_round_trip(payload: Seq<u8>, id: u16)
    requires
        payload.len() <= QUERY_MAX_PAYLOAD,
    ensures
        parse_query(query_datagram(payload, id)) == Ok::<(Seq<u8>, u16), CodecError>(
            (payload, id),
        ),
{
    let count = question_count(payload.len() as int) as u16;
    let datagram = query_datagram(payload, id);
    lemma_be16_round_trip(id);
    lemma_be16_round_trip(count);
    assert(datagram[0] == be16(id)[0] && datagram[1] == be16(id)[1]);
    assert(datagram[4] == be16(count)[0] && datagram[5] == be16(count)[1]);
    assert(datagram.skip(HEADER_LEN as int) =~= questions(payload) + Seq::<u8>::empty());
    lemma_parse_questions(payload, Seq::<u8>::empty());
}

/// Seconds that the answer of a response may be cached.
pub const RESPONSE_TTL: u32 = 300;

/// What precedes the payload in a response: the header of a response with
/// recursion available and one answer, then the name "cn", the type NULL,
/// the class IN, the time to live and the length of the payload.
pub open spec fn response_prefix(id: u16, rdlength: u16) -> Seq<u8> {
    be16(id) + seq![0x80u8, 0x80u8] + be16(0) + be16(1) + be16(0) + be16(0) + seq![
        2u8,
        0x63u8,
        0x6eu8,
        0u8,
    ] + be16(DNS_QTYPE_NULL) + be16(DNS_QCLASS_IN) + be32(RESPONSE_TTL) + be16(rdlength)
}

/// The response that carries `payload` under `id`.
pub open spec fn response_datagram(payload: Seq<u8>, id: u16) -> Seq<u8> {
    response_prefix(id, payload.len() as u16) + payload
}

/// The payload that the response `s` carries. Of what precedes it only the
/// length is read.
pub open spec fn parse_response(s: Seq<u8>) -> Result<Seq<u8>, CodecError> {
    if s.len() < RESPONSE_PREFIX_LEN {
        Err(CodecError::HeaderTooShort)
    } else if s.len() - RESPONSE_PREFIX_LEN != from_be16(s[24], s[25]) {
        Err(CodecError::LengthMismatch)
    } else {
        Ok(s.skip(RESPONSE_PREFIX_LEN as int))
    }
}

/// Encodes `payload` as a DNS response to the query with the given id.
pub fn encode_to_response(payload: &[u8], id: u16) -> (out: BytesMut)
    requires
        payload.len() <= RESPONSE_MAX_PAYLOAD,
    ensures
        bytes_of(out) == response_datagram(payload@, id),
        bytes_of(out).len() == RESPONSE_PREFIX_LEN + payload.len(),
{
    let mut result = BytesMut::with_capacity(UDP_MTU);

    put_u16(&mut result, id);
    put_u8(&mut result, 0x80);
    put_u8(&mut result, 0x80);
    put_u16(&mut result, 0);
    put_u16(&mut result, 1);
    put_u16(&mut result, 0);
    put_u16(&mut result, 0);

    let name: [u8; 4] = [2, 0x63, 0x6e, 0];
    result.extend_from_slice(&name);
    put_u16(&mut result, DNS_QTYPE_NULL);
    put_u16(&mut result, DNS_QCLASS_IN);
    put_u32(&mut result, RESPONSE_TTL);
    put_u16(&mut result, payload.len() as u16);
    assert(name@ =~= seq![2u8, 0x63u8, 0x6eu8, 0u8]);
    assert(bytes_of(result) =~= response_prefix(id, payload.len() as u16));
    result.extend_from_slice(payload);
    result
}

/// Decodes a DNS response into the payload it carries.
pub fn decode_from_response(buf: &[u8]) -> (res: Result<BytesMut, CodecError>)
    ensures
        match parse_response(buf@) {
            Ok(payload) => res is Ok && bytes_of(res->Ok_0) == payload,
            Err(e) => res is Err && res->Err_0 == e,
        },
{
    if buf.len() < RESPONSE_PREFIX_LEN {
        return Err(CodecError::HeaderTooShort);
    }
    let payload_len = get_u16(buf, 24) as usize;
    if buf.len() - RESPONSE_PREFIX_LEN != payload_len {
        return Err(CodecError::LengthMismatch);
    }
    let mut result = BytesMut::with_capacity(payload_len);
    result.extend_from_slice(slice_subrange(buf, RESPONSE_PREFIX_LEN, buf.len()));
    assert(bytes_of(result) =~= buf@.skip(RESPONSE_PREFIX_LEN as int));
    Ok(result)
}

/// Decoding an encoded response gives back the payload, for every payload
/// that `encode_to_response` takes and every id.
pub proof fn lemma_response_round_trip(payload: Seq<u8>, id: u16)
    requires
        payload.len() <= RESPONSE_MAX_PAYLOAD,
    ensures
        parse_response(response_datagram(payload, id)) == Ok::<Seq<u8>, CodecError>(payload),
{
    let len = payload.len() as u16;
    let datagram = response_datagram(payload, id);
    lemma_be16_round_trip(len);
    assert(response_prefix(id, len).len() == RESPONSE_PREFIX_LEN);
    assert(datagram[24] == be16(len)[0] && datagram[25] == be16(len)[1]);
    assert(datagram.skip(RESPONSE_PREFIX_LEN as int) =~= payload);
}

/// A response is 26 bytes longer than its payload. It fits a datagram of
/// `UDP_MTU` bytes exactly when its payload has at most 1438 bytes, which
/// every transport frame has.
pub proof fn lemma_response_len(payload: Seq<u8>, id: u16)
    ensures
        response_datagram(payload, id).len() == RESPONSE_PREFIX_LEN + payload.len(),
        payload.len() <= 1438 <==> response_datagram(payload, id).len() <= UDP_MTU,
        payload.len() <= TRANSPORT_MTU ==> response_datagram(payload, id).len() <= UDP_MTU,
{
}


/// The client's end: frames leave as queries and come back in responses.
pub struct FakednsClientTransport {
    /// The pool of sockets that the queries leave by.
    pub udp_transport: UdpClientTransport,
}

impl FakednsClientTransport {
    /// A client with an empty pool of sockets.
    pub fn create(options: UdpClientTransportOptions) -> (client: FakednsClientTransport)
        ensures
            client.udp_transport.wf(),
            client.udp_transport@ == Seq::<SockContext>::empty(),
            client.udp_transport.spec_options() == options,
            client.udp_transport.spec_clock() == 0,
    {
        FakednsClientTransport { udp_transport: UdpClientTransport::create(options) }
    }

    /// The datagram that carries `buf` to the server: a query under a random
    /// id.
    pub fn send(&self, buf: &[u8]) -> (datagram: BytesMut)
        requires
            buf.len() <= QUERY_MAX_PAYLOAD,
        ensures
            exists|id: u16| bytes_of(datagram) == #[trigger] query_datagram(buf@, id),
    {
        let query_id = #[verifier::truncate] (random_u32() as u16);
        encode_to_query(buf, query_id)
    }

    /// The frame that a datagram from the server carries.
    pub fn receive(&self, datagram: &[u8]) -> (res: Result<BytesMut, CodecError>)
        ensures
            match parse_response(datagram@) {
                Ok(payload) => res is Ok && bytes_of(res->Ok_0) == payload,
                Err(e) => res is Err && res->Err_0 == e,
            },
    {
        decode_from_response(datagram)
    }

    /// The client may always send.
    pub fn ready_to_send(&self) -> (ready: bool)
        ensures
            ready,
    {
        self.udp_transport.ready_to_send()
    }

    /// The client keeps its path open with keepalives.
    pub fn needs_keepalive(&self) -> (needed: bool)
        ensures
            needed,
    {
        self.udp_transport.needs_keepalive()
    }
}

/// The server's end: frames come in queries and leave as responses to the
/// last query that carried an authentic frame.
pub struct FakednsServerTransport {
    udp_transport: UdpServerTransport,
    query_id: u16,
    last_query_id: u16,
}

impl FakednsServerTransport {
    /// The server's memory of its peer.
    pub closed spec fn udp(&self) -> UdpServerTransport {
        self.udp_transport
    }

    /// The id that responses go out under.
    pub closed spec fn query_id(&self) -> u16 {
        self.query_id
    }

    /// The id of the last query decoded.
    pub closed spec fn last_query_id(&self) -> u16 {
        self.last_query_id
    }

    /// A server that has heard from nobody; its ids start at zero.
    pub fn create() -> (server: FakednsServerTransport)
        ensures
            server.udp().peer() is None,
            server.udp().last_peer() is None,
            server.query_id() == 0,
            server.last_query_id() == 0,
    {
        FakednsServerTransport {
            udp_transport: UdpServerTransport::create(),
            query_id: 0,
            last_query_id: 0,
        }
    }

    /// The datagram that carries `buf` to the peer, and the peer's address:
    /// a response under the id of the last query that was found valid.
    pub fn send(&self, buf: &[u8]) -> (res: Result<(PeerAddr, BytesMut), TransportError>)
        requires
            buf.len() <= RESPONSE_MAX_PAYLOAD,
        ensures
            match self.udp().peer() {
                Some(peer) => res is Ok && res->Ok_0.0 == peer && bytes_of(res->Ok_0.1)
                    == response_datagram(buf@, self.query_id()),
                None => res is Err && res->Err_0 == TransportError::AddrNotAvailable,
            },
    {
        let encoded = encode_to_response(buf, self.query_id);
        match self.udp_transport.send() {
            Ok(peer) => Ok((peer, encoded)),
            Err(e) => Err(e),
        }
    }

    /// Takes a datagram that came from `from`: notes the sender, and where
    /// the datagram is a query, notes its id and gives the frame it carries.
    pub fn receive(&mut self, from: PeerAddr, datagram: &[u8]) -> (res: Result<
        BytesMut,
        CodecError,
    >)
        ensures
            final(self).udp().last_peer() == Some(from),
            final(self).udp().peer() == old(self).udp().peer(),
            final(self).query_id() == old(self).query_id(),
            match parse_query(datagram@) {
                Ok((payload, id)) => {
                    &&& res is Ok
                    &&& bytes_of(res->Ok_0) == payload
                    &&& final(self).last_query_id() == id
                },
                Err(e) => {
                    &&& res is Err
                    &&& res->Err_0 == e
                    &&& final(self).last_query_id() == old(self).last_query_id()
                },
            },
    {
        self.udp_transport.receive(from);
        match decode_from_query(datagram) {
            Ok((decoded, decoded_query_id)) => {
                self.last_query_id = decoded_query_id;
                Ok(decoded)
            },
            Err(e) => Err(e),
        }
    }

    /// The last datagram received carried an authentic frame: responses go
    /// out under its id from now on, and to its sender.
    pub fn mark_last_received_valid(&mut self)
        ensures
            final(self).query_id() == old(self).last_query_id(),
            final(self).last_query_id() == old(self).last_query_id(),
            final(self).udp().last_peer() == old(self).udp().last_peer(),
            final(self).udp().peer() == if old(self).udp().last_peer() is Some {
                old(self).udp().last_peer()
            } else {
                old(self).udp().peer()
            },
    {
        self.query_id = self.last_query_id;
        self.udp_transport.mark_last_received_valid();
    }

    /// Whether there is a peer to send to.
    pub fn ready_to_send(&self) -> (ready: bool)
        ensures
            ready == self.udp().peer() is Some,
    {
        self.udp_transport.ready_to_send()
    }

    /// The server answers; it does not need to keep a path open.
    pub fn needs_keepalive(&self) -> (needed: bool)
        ensures
            !needed,
    {
        self.udp_transport.needs_keepalive()
    }
}

} // verus!
