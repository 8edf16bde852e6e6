//! Stream identifiers of a multiplexed connection, and the marker traits of
//! the channels opened over it.
use vstd::prelude::*;

verus! {

/// The side of a multiplexed connection that numbers the streams it opens:
/// the side that established the connection counts up from one, the other
/// side counts down from minus one, so the two never pick the same id.
pub struct MuxConnecction {
    pub did_we_establish_conn: bool,
    pub next_sid: i16,
}

impl MuxConnecction {
    /// The side that established the connection has only handed out
    /// positive ids, the other side only negative ones.
    pub open spec fn wf(&self) -> bool {
        if self.did_we_establish_conn {
            self.next_sid >= 0
        } else {
            self.next_sid <= 0
        }
    }

    /// A connection whose side has opened no stream yet.
    pub fn new(did_we_establish_conn: bool) -> (c: MuxConnecction)
        ensures
            c.did_we_establish_conn == did_we_establish_conn,
            c.next_sid == 0,
            c.wf(),
    {
        MuxConnecction { did_we_establish_conn, next_sid: 0 }
    }

    /// The id of the next stream: one more than the last when we established
    /// the connection, one less otherwise.
    pub fn get_next_sid(&mut self) -> (sid: i16)
        requires
            old(self).did_we_establish_conn ==> old(self).next_sid < i16::MAX,
            !old(self).did_we_establish_conn ==> old(self).next_sid > i16::MIN,
        ensures
            final(self).did_we_establish_conn == old(self).did_we_establish_conn,
            final(self).next_sid == (if old(self).did_we_establish_conn {
                old(self).next_sid + 1
            } else {
                old(self).next_sid - 1
            }),
            sid == final(self).next_sid,
            old(self).wf() ==> final(self).wf(),
            old(self).wf() ==> (if old(self).did_we_establish_conn { sid > 0 } else { sid < 0 }),
    {
        if self.did_we_establish_conn {
            self.next_sid = self.next_sid + 1;
        } else {
            self.next_sid = self.next_sid - 1;
        }
        self.next_sid
    }
}

/// The id that the `i`-th call of `get_next_sid` returns, counting from one,
/// on a connection in state `c`.
pub open spec fn nth_sid(c: MuxConnecction, i: int) -> int {
    if c.did_we_establish_conn {
        c.next_sid + i
    } else {
        c.next_sid - i
    }
}

/// Stream ids never repeat: successive calls of `get_next_sid` return
/// pairwise distinct ids, each call moving the connection on to the next;
/// on a well-formed connection they are positive on the side that dialed
/// and negative on the side that accepted, so the two ends never pick the
/// same id.
pub proof fn law_sids_distinct(c: MuxConnecction, c2: MuxConnecction, i: int, j: int)
    requires
        1 <= i,
        1 <= j,
    ensures
        i != j ==> nth_sid(c, i) != nth_sid(c, j),
        c.wf() ==> (if c.did_we_establish_conn { nth_sid(c, i) > 0 } else { nth_sid(c, i) < 0 }),
        c2.did_we_establish_conn == c.did_we_establish_conn && c2.next_sid == nth_sid(c, 1) ==> nth_sid(c2, i)
            == nth_sid(c, i + 1),
{
}

/// Marks the channel types of this crate; only they are `StreamAndSink`.
pub trait Sealed {
}

/// A bi-directional channel for sending and receiving messages.
pub trait StreamAndSink: Sealed {
}

} // verus!
