//! The pinger: its wire format (nine bytes, a tag, `0` for a request and `1`
//! for a response, followed by the sender's node index and the ping's id,
//! both as little-endian `u32`s), the round of peers it pings, and the pings
//! in flight.
use vstd::prelude::*;
use std::collections::BTreeMap;
use std::time::Instant;
use crate::measurements::Duration;

verus! {

/// A ping, or the answer to one.
#[derive(Clone, Copy, Debug, PartialEq, Eq, Structural)]
pub enum Message {
    Request { sender: u32, id: u32 },
    Response { sender: u32, id: u32 },
}

/// Why bytes are not a message.
#[derive(Clone, Copy, Debug, PartialEq, Eq, Structural)]
pub enum MessageError {
    /// A message is exactly nine bytes long.
    WrongLength,
    /// The first byte is neither `0` nor `1`.
    InvalidMagicByte,
}

/// The length of an encoded message.
pub const MESSAGE_LEN: usize = 9;

/// The four bytes of `x`, least significant first.
pub open spec fn le_bytes(x: u32) -> Seq<u8> {
    seq![
        (x % 256) as u8,
        ((x / 256) % 256) as u8,
        ((x / 65536) % 256) as u8,
        (x / 16777216) as u8,
    ]
}

/// The `u32` whose little-endian bytes are `b`.
pub open spec fn from_le(b0: u8, b1: u8, b2: u8, b3: u8) -> int {
    b0 + 256 * b1 + 65536 * b2 + 16777216 * b3
}

/// The bytes of a message.
pub open spec fn encoded(m: Message) -> Seq<u8> {
    match m {
        Message::Request { sender, id } => seq![0u8] + le_bytes(sender) + le_bytes(id),
        Message::Response { sender, id } => seq![1u8] + le_bytes(sender) + le_bytes(id),
    }
}

proof fn lemma_le_roundtrip(x: u32)
    ensures
        from_le(le_bytes(x)[0], le_bytes(x)[1], le_bytes(x)[2], le_bytes(x)[3]) == x,
{
    let b = le_bytes(x);
    assert(b[0] == x % 256);
    assert(b[1] == (x / 256) % 256);
    assert(b[2] == (x / 65536) % 256);
    assert(x / 16777216 < 256);
    assert(b[3] == x / 16777216);
    assert(x % 256 + 256 * ((x / 256) % 256) + 65536 * ((x / 65536) % 256) + 16777216 * (x / 16777216) == x)
        by (nonlinear_arith)
        requires
            0 <= x < 4294967296,
    ;
}

fn push_le(buf: &mut Vec<u8>, x: u32)
    ensures
        final(buf)@ == old(buf)@ + le_bytes(x),
{
    buf.push((x % 256) as u8);
    buf.push(((x / 256) % 256) as u8);
    buf.push(((x / 65536) % 256) as u8);
    buf.push((x / 16777216) as u8);
    proof {
        assert(final(buf)@ =~= old(buf)@ + le_bytes(x));
    }
}

fn read_le(b0: u8, b1: u8, b2: u8, b3: u8) -> (x: u32)
    ensures
        x == from_le(b0, b1, b2, b3),
{
    (b0 as u32) + 256 * (b1 as u32) + 65536 * (b2 as u32) + 16777216 * (b3 as u32)
}

impl Message {
    /// The nine bytes of the message.
    pub fn encode(&self) -> (v: Vec<u8>)
        ensures
            v@ == encoded(*self),
    {
        let mut buf: Vec<u8> = Vec::new();
        match *self {
            Message::Request { sender, id } => {
                buf.push(0u8);
                push_le(&mut buf, sender);
                push_le(&mut buf, id);
                proof {
                    assert(buf@ =~= encoded(*self));
                }
            },
            Message::Response { sender, id } => {
                buf.push(1u8);
                push_le(&mut buf, sender);
                push_le(&mut buf, id);
                proof {
                    assert(buf@ =~= encoded(*self));
                }
            },
        }
        buf
    }

    /// The message that `bytes` encode: an error when they are not nine
    /// bytes long, or the first is neither `0` (a request) nor `1` (a
    /// response).
    pub fn decode(bytes: &[u8]) -> (r: Result<Message, MessageError>)
        ensures
            r == Err::<Message, MessageError>(MessageError::WrongLength) <==> bytes@.len() != MESSAGE_LEN,
            r == Err::<Message, MessageError>(MessageError::InvalidMagicByte) <==> bytes@.len() == MESSAGE_LEN
                && bytes@[0] != 0 && bytes@[0] != 1,
            r is Ok <==> bytes@.len() == MESSAGE_LEN && (bytes@[0] == 0 || bytes@[0] == 1),
            r matches Ok(m) ==> encoded(m) == bytes@,
    {
        if bytes.len() != MESSAGE_LEN {
            return Err(MessageError::WrongLength);
        }
        let sender = read_le(bytes[1], bytes[2], bytes[3], bytes[4]);
        let id = read_le(bytes[5], bytes[6], bytes[7], bytes[8]);
        let m = if bytes[0] == 0 {
            Message::Request { sender, id }
        } else if bytes[0] == 1 {
            Message::Response { sender, id }
        } else {
            return Err(MessageError::InvalidMagicByte);
        };
        proof {
            lemma_le_bytes_of_from_le(bytes@[1], bytes@[2], bytes@[3], bytes@[4]);
            lemma_le_bytes_of_from_le(bytes@[5], bytes@[6], bytes@[7], bytes@[8]);
            assert(encoded(m) =~= bytes@);
        }
        Ok(m)
    }
}

proof fn lemma_le_bytes_of_from_le(b0: u8, b1: u8, b2: u8, b3: u8)
    ensures
        0 <= from_le(b0, b1, b2, b3) <= u32::MAX,
        le_bytes(from_le(b0, b1, b2, b3) as u32) == seq![b0, b1, b2, b3],
{
    let x = from_le(b0, b1, b2, b3);
    assert(x % 256 == b0 && (x / 256) % 256 == b1 && (x / 65536) % 256 == b2 && x / 16777216 == b3)
        by (nonlinear_arith)
        requires
            x == b0 + 256 * b1 + 65536 * b2 + 16777216 * b3,
            0 <= b0 < 256,
            0 <= b1 < 256,
            0 <= b2 < 256,
            0 <= b3 < 256,
    ;
    assert(le_bytes(x as u32) =~= seq![b0, b1, b2, b3]);
}

/// The sender and id of a message, and whether it is a request.
pub open spec fn fields(m: Message) -> (bool, u32, u32) {
    match m {
        Message::Request { sender, id } => (true, sender, id),
        Message::Response { sender, id } => (false, sender, id),
    }
}

proof fn lemma_encoded_fields(m: Message)
    ensures
        encoded(m).len() == MESSAGE_LEN,
        (encoded(m)[0] == 0) == fields(m).0,
        encoded(m)[0] == 0 || encoded(m)[0] == 1,
        from_le(encoded(m)[1], encoded(m)[2], encoded(m)[3], encoded(m)[4]) == fields(m).1,
        from_le(encoded(m)[5], encoded(m)[6], encoded(m)[7], encoded(m)[8]) == fields(m).2,
{
    let (_, sender, id) = fields(m);
    lemma_le_roundtrip(sender);
    lemma_le_roundtrip(id);
    let e = encoded(m);
    assert(e[1] == le_bytes(sender)[0] && e[2] == le_bytes(sender)[1] && e[3] == le_bytes(sender)[2] && e[4] == le_bytes(sender)[3]);
    assert(e[5] == le_bytes(id)[0] && e[6] == le_bytes(id)[1] && e[7] == le_bytes(id)[2] && e[8] == le_bytes(id)[3]);
}

/// Decoding gives back every encoded message: an encoded message is nine
/// bytes with a valid tag, and no two messages share an encoding, so
/// `decode(encode(m)) == Ok(m)`.
pub proof fn law_decode_encode(m: Message)
    ensures
        encoded(m).len() == MESSAGE_LEN,
        encoded(m)[0] == 0 || encoded(m)[0] == 1,
        forall|n: Message| #[trigger] encoded(n) == encoded(m) ==> n == m,
{
    lemma_encoded_fields(m);
    assert forall|n: Message| #[trigger] encoded(n) == encoded(m) implies n == m by {
        lemma_encoded_fields(n);
    }
}

/// The pings sent and not yet answered nor timed out, by target and id, with
/// the time each was sent.
pub struct PendingPings {
    pub pending: BTreeMap<(u32, u32), Instant>,
}

/// Pairs of node indices are totally ordered, as a `BTreeMap` keyed by them
/// needs.
proof fn lemma_pairs_ordered()
    ensures
        vstd::std_specs::btree::key_obeys_cmp_spec::<(u32, u32)>(),
{
    broadcast use vstd::laws_cmp::group_laws_cmp;
    broadcast use vstd::std_specs::btree::group_btree_axioms;
}

impl PendingPings {
    pub fn new() -> (p: PendingPings)
        ensures
            p.pending@ == Map::<(u32, u32), Instant>::empty(),
    {
        PendingPings { pending: BTreeMap::new() }
    }

    /// A ping with `id` was sent to `peer` at `at`.
    pub fn sent(&mut self, peer: u32, id: u32, at: Instant)
        ensures
            final(self).pending@ == old(self).pending@.insert((peer, id), at),
    {
        proof {
            lemma_pairs_ordered();
        }
        self.pending.insert((peer, id), at);
    }

    /// An answer from `sender` to ping `id`: the time the ping was sent when
    /// it was pending (the round trip is then reported), `None` for an answer
    /// to no pending ping.
    pub fn answered(&mut self, sender: u32, id: u32) -> (r: Option<Instant>)
        ensures
            final(self).pending@ == old(self).pending@.remove((sender, id)),
            r == (if old(self).pending@.contains_key((sender, id)) {
                Some(old(self).pending@[(sender, id)])
            } else {
                None
            }),
    {
        proof {
            lemma_pairs_ordered();
        }
        self.pending.remove(&(sender, id))
    }

    /// Ping `id` to `node` timed out: `true` when it was still pending, and
    /// is then reported unanswered.
    pub fn timed_out(&mut self, node: u32, id: u32) -> (unanswered: bool)
        ensures
            final(self).pending@ == old(self).pending@.remove((node, id)),
            unanswered == old(self).pending@.contains_key((node, id)),
    {
        proof {
            lemma_pairs_ordered();
        }
        self.pending.remove(&(node, id)).is_some()
    }
}

/// The peer to ping next, going round the registry, and where the round
/// goes on from.
pub fn next_peer(registry: &Vec<u32>, cursor: usize) -> (r: (u32, usize))
    requires
        cursor < registry@.len(),
    ensures
        r.0 == registry@[cursor as int],
        r.1 == (cursor + 1) % (registry@.len() as int),
{
    let n = registry.len();
    let peer = registry[cursor];
    (peer, (cursor + 1) % n)
}

/// How long a ping waits for its answer, in seconds, when the protocol
/// parameter is not set.
pub const DEFAULT_PING_TIMEOUT_SECS: u64 = 15;

/// How long a ping waits for its answer: the protocol's parameter when it
/// is set, otherwise fifteen seconds.
pub fn ping_timeout(param: Option<Duration>) -> (d: Duration)
    ensures
        param matches Some(t) ==> d == t,
        param is None ==> d.nanos == DEFAULT_PING_TIMEOUT_SECS * 1_000_000_000,
{
    match param {
        Some(t) => t,
        None => Duration { nanos: 15_000_000_000u128 },
    }
}

} // verus!
