//! The pool's framing on the wire: a message is its service's byte followed
//! by the payload, and the answer to a request starts with a one-byte
//! status.
use vstd::prelude::*;

verus! {

/// Why a request was turned down.
#[derive(Clone, Copy, Debug, PartialEq, Eq, Structural)]
pub enum RejectReason {
    TooManyRequests,
    ContentNotFound,
    Other,
}

/// The status that heads the answer to a request.
#[derive(Clone, Copy, Debug, PartialEq, Eq, Structural)]
pub enum Status {
    Accepted,
    Failed(RejectReason),
}

/// A byte that is no status.
#[derive(Clone, Copy, Debug, PartialEq, Eq, Structural)]
pub struct InvalidStatus;

/// The byte of a status.
pub open spec fn status_byte(s: Status) -> u8 {
    match s {
        Status::Accepted => 0,
        Status::Failed(RejectReason::TooManyRequests) => 1,
        Status::Failed(RejectReason::ContentNotFound) => 2,
        Status::Failed(RejectReason::Other) => 3,
    }
}

impl Status {
    /// The byte of the status.
    pub fn to_byte(&self) -> (b: u8)
        ensures
            b == status_byte(*self),
    {
        match self {
            Status::Accepted => 0,
            Status::Failed(RejectReason::TooManyRequests) => 1,
            Status::Failed(RejectReason::ContentNotFound) => 2,
            Status::Failed(RejectReason::Other) => 3,
        }
    }

    /// The status of a byte; bytes above 3 are none.
    pub fn from_byte(b: u8) -> (r: Result<Status, InvalidStatus>)
        ensures
            r is Ok <==> b <= 3,
            r matches Ok(s) ==> status_byte(s) == b,
    {
        match b {
            0 => Ok(Status::Accepted),
            1 => Ok(Status::Failed(RejectReason::TooManyRequests)),
            2 => Ok(Status::Failed(RejectReason::ContentNotFound)),
            3 => Ok(Status::Failed(RejectReason::Other)),
            _ => Err(InvalidStatus),
        }
    }
}

/// Why the header of an answer is no status.
#[derive(Clone, Copy, Debug, PartialEq, Eq, Structural)]
pub enum HeaderError {
    /// The header is not one byte long.
    InvalidData,
    /// Its byte is no status.
    UnknownStatus,
}

/// The status that heads an answer, read from its first frame: exactly one
/// byte, which must be a status.
pub fn read_response_header(header: &[u8]) -> (r: Result<Status, HeaderError>)
    ensures
        header@.len() != 1 ==> r == Err::<Status, HeaderError>(HeaderError::InvalidData),
        header@.len() == 1 && header@[0] > 3 ==> r == Err::<Status, HeaderError>(HeaderError::UnknownStatus),
        header@.len() == 1 && header@[0] <= 3 ==> (r matches Ok(s) && status_byte(s) == header@[0]),
{
    if header.len() != 1 {
        return Err(HeaderError::InvalidData);
    }
    match Status::from_byte(header[0]) {
        Ok(s) => Ok(s),
        Err(_) => Err(HeaderError::UnknownStatus),
    }
}

/// No two statuses share a byte, so `from_byte(to_byte(s)) == Ok(s)`.
pub proof fn law_status_byte_roundtrip(s: Status, t: Status)
    ensures
        status_byte(s) <= 3,
        status_byte(s) == status_byte(t) ==> s == t,
{
}

/// A message between pools: the byte of the service it is for, and what it
/// carries.
#[derive(Debug)]
pub struct PoolMessage {
    pub service: u8,
    pub payload: Vec<u8>,
}

/// An empty buffer is no message.
#[derive(Clone, Copy, Debug, PartialEq, Eq, Structural)]
pub struct EmptyMessage;

impl PoolMessage {
    /// The bytes of the message: the service byte, then the payload.
    pub fn to_bytes(&self) -> (v: Vec<u8>)
        ensures
            v@ == seq![self.service] + self.payload@,
    {
        let mut buf: Vec<u8> = Vec::new();
        buf.push(self.service);
        let n = self.payload.len();
        for i in 0..n
            invariant
                n == self.payload@.len(),
                buf@ == seq![self.service] + self.payload@.take(i as int),
        {
            buf.push(self.payload[i]);
            proof {
                assert(self.payload@.take(i + 1) =~= self.payload@.take(i as int).push(self.payload@[i as int]));
                assert(buf@ =~= seq![self.service] + self.payload@.take(i + 1));
            }
        }
        proof {
            assert(self.payload@.take(n as int) =~= self.payload@);
        }
        buf
    }

    /// The message that `bytes` hold: the first byte names the service, the
    /// rest is the payload; an error for no bytes at all.
    pub fn from_bytes(bytes: &[u8]) -> (r: Result<PoolMessage, EmptyMessage>)
        ensures
            r is Err <==> bytes@.len() == 0,
            r matches Ok(m) ==> m.service == bytes@[0] && m.payload@ == bytes@.skip(1),
    {
        let n = bytes.len();
        if n == 0 {
            return Err(EmptyMessage);
        }
        let mut payload: Vec<u8> = Vec::new();
        for i in 1..n
            invariant
                n == bytes@.len(),
                n >= 1,
                payload@ == bytes@.subrange(1, i as int),
        {
            payload.push(bytes[i]);
            proof {
                assert(payload@ =~= bytes@.subrange(1, i + 1));
            }
        }
        proof {
            assert(bytes@.subrange(1, n as int) =~= bytes@.skip(1));
        }
        Ok(PoolMessage { service: bytes[0], payload })
    }
}

/// Framing a message and reading it back gives the same service and payload.
pub proof fn law_message_roundtrip(service: u8, payload: Seq<u8>)
    ensures
        (seq![service] + payload).len() > 0,
        (seq![service] + payload)[0] == service,
        (seq![service] + payload).skip(1) == payload,
{
    assert((seq![service] + payload).skip(1) =~= payload);
}

} // verus!
