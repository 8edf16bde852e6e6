//! The endpoint's bookkeeping of transport connections: at most one primary
//! and one redundant connection per peer, told apart by connection ids so
//! that a connection that closes late never takes a newer one down with it;
//! the dials under way; and the requests that wait for a peer's connection.
//! The endpoint's event loop performs what these functions decide: it dials,
//! drives connections, and answers requests.
use vstd::prelude::*;
use std::collections::{BTreeMap, BTreeSet};
use crate::logical_pool::{lemma_push_contains, map_keys};
use crate::state::TransportConnectionInfo;

verus! {

broadcast use vstd::std_specs::btree::group_btree_axioms;

/// The transport connections to peers, by connection id.
pub struct ConnectionTable {
    /// The connection used for each peer.
    pub pool: BTreeMap<u32, u64>,
    /// A second connection, kept when both peers dialed each other at once
    /// until it idles out.
    pub redundant: BTreeMap<u32, u64>,
}

/// What became of a new connection.
#[derive(Clone, Copy, Debug, PartialEq, Eq, Structural)]
pub enum Admission {
    /// The peer's connection.
    Primary,
    /// A second connection to a peer that has one.
    Redundant,
    /// The peer already has two connections: this one is closed.
    Rejected,
}

/// A peer has a redundant connection only while it has a primary one.
pub open spec fn table_wf(pool: Map<u32, u64>, redundant: Map<u32, u64>) -> bool {
    forall|k: u32| #[trigger] redundant.contains_key(k) ==> pool.contains_key(k)
}

/// The tables once the connection `id` to `peer` has closed: a primary
/// connection with that id gives way to the redundant one, if any; a
/// redundant connection with that id goes.
pub open spec fn after_close(pool: Map<u32, u64>, redundant: Map<u32, u64>, peer: u32, id: u64) -> (
    Map<u32, u64>,
    Map<u32, u64>,
) {
    let (p1, r1) = if pool.contains_key(peer) && pool[peer] == id {
        if redundant.contains_key(peer) {
            (pool.insert(peer, redundant[peer]), redundant.remove(peer))
        } else {
            (pool.remove(peer), redundant)
        }
    } else {
        (pool, redundant)
    };
    if r1.contains_key(peer) && r1[peer] == id {
        (p1, r1.remove(peer))
    } else {
        (p1, r1)
    }
}

impl ConnectionTable {
    pub open spec fn wf(&self) -> bool {
        table_wf(self.pool@, self.redundant@)
    }

    pub fn new() -> (t: ConnectionTable)
        ensures
            t.pool@ == Map::<u32, u64>::empty(),
            t.redundant@ == Map::<u32, u64>::empty(),
            t.wf(),
    {
        ConnectionTable { pool: BTreeMap::new(), redundant: BTreeMap::new() }
    }

    /// Whether there is a connection to `peer`.
    pub fn is_connected(&self, peer: u32) -> (r: bool)
        ensures
            r == self.pool@.contains_key(peer),
    {
        self.pool.contains_key(&peer)
    }

    /// A new connection `id` to `peer`: the peer's connection when it has
    /// none, a redundant one when it has one, and rejected when it already
    /// has two.
    pub fn accept(&mut self, peer: u32, id: u64) -> (a: Admission)
        requires
            old(self).wf(),
        ensures
            final(self).wf(),
            a == (if !old(self).pool@.contains_key(peer) {
                Admission::Primary
            } else if !old(self).redundant@.contains_key(peer) {
                Admission::Redundant
            } else {
                Admission::Rejected
            }),
            a == Admission::Primary ==> final(self).pool@ == old(self).pool@.insert(peer, id),
            a == Admission::Primary ==> final(self).redundant@ == old(self).redundant@,
            a == Admission::Redundant ==> final(self).pool@ == old(self).pool@,
            a == Admission::Redundant ==> final(self).redundant@ == old(self).redundant@.insert(peer, id),
            a == Admission::Rejected ==> final(self).pool@ == old(self).pool@,
            a == Admission::Rejected ==> final(self).redundant@ == old(self).redundant@,
    {
        if self.pool.contains_key(&peer) && self.redundant.contains_key(&peer) {
            return Admission::Rejected;
        }
        if self.pool.contains_key(&peer) {
            self.redundant.insert(peer, id);
            Admission::Redundant
        } else {
            self.pool.insert(peer, id);
            Admission::Primary
        }
    }

    /// The connection `id` to `peer` closed. A primary connection gives way
    /// to the redundant one; a connection that was already superseded (its
    /// id no longer on record) changes nothing. Returns whether the peer has
    /// no connection left, when the pool is told that the connection ended.
    pub fn close(&mut self, peer: u32, id: u64) -> (ended: bool)
        requires
            old(self).wf(),
        ensures
            final(self).wf(),
            (final(self).pool@, final(self).redundant@) == after_close(old(self).pool@, old(self).redundant@, peer, id),
            ended == !final(self).pool@.contains_key(peer),
    {
        let primary: Option<u64> = match self.pool.get(&peer) {
            Some(c) => Some(*c),
            None => None,
        };
        if primary == Some(id) {
            let second: Option<u64> = match self.redundant.get(&peer) {
                Some(c) => Some(*c),
                None => None,
            };
            match second {
                Some(c) => {
                    self.pool.insert(peer, c);
                    self.redundant.remove(&peer);
                },
                None => {
                    self.pool.remove(&peer);
                },
            }
        }
        let second: Option<u64> = match self.redundant.get(&peer) {
            Some(c) => Some(*c),
            None => None,
        };
        if second == Some(id) {
            self.redundant.remove(&peer);
        }
        proof {
            assert(table_wf(self.pool@, self.redundant@));
        }
        !self.pool.contains_key(&peer)
    }

    /// The peers with a connection, each once: the targets of a broadcast
    /// to every connected peer.
    pub fn connected_peers(&self) -> (peers: Vec<u32>)
        ensures
            peers@.to_set() == self.pool@.dom(),
            peers@.no_duplicates(),
    {
        map_keys(&self.pool)
    }

    /// Drops the connections to `peer`, returning their ids (primary, then
    /// redundant) to be closed after a grace period.
    pub fn drop_peer(&mut self, peer: u32) -> (r: (Option<u64>, Option<u64>))
        requires
            old(self).wf(),
        ensures
            final(self).wf(),
            final(self).pool@ == old(self).pool@.remove(peer),
            final(self).redundant@ == old(self).redundant@.remove(peer),
            r.0 == (if old(self).pool@.contains_key(peer) { Some(old(self).pool@[peer]) } else { None }),
            r.1 == (if old(self).redundant@.contains_key(peer) { Some(old(self).redundant@[peer]) } else { None }),
    {
        let a = self.pool.remove(&peer);
        let b = self.redundant.remove(&peer);
        (a, b)
    }
}

/// A closed connection never leaves a redundant connection without a
/// primary one, and the pool is told that a peer's connection ended exactly
/// when it has none left; a close of an id no longer on record changes
/// nothing.
pub proof fn law_close_keeps_tables(pool: Map<u32, u64>, redundant: Map<u32, u64>, peer: u32, id: u64)
    requires
        table_wf(pool, redundant),
    ensures
        table_wf(after_close(pool, redundant, peer, id).0, after_close(pool, redundant, peer, id).1),
        !(pool.contains_key(peer) && pool[peer] == id) && !(redundant.contains_key(peer) && redundant[peer] == id)
            ==> after_close(pool, redundant, peer, id) == (pool, redundant),
        pool.contains_key(peer) && pool[peer] == id && redundant.contains_key(peer) ==> {
            &&& after_close(pool, redundant, peer, id).0.contains_key(peer)
            &&& after_close(pool, redundant, peer, id).0[peer] == redundant[peer]
        },
        forall|k: u32|
            k != peer ==> (#[trigger] after_close(pool, redundant, peer, id).0.contains_key(k) <==> pool.contains_key(k)),
{
}

/// The dials under way, and how many times each peer was dialed since its
/// connection last proved healthy.
pub struct Dialer {
    pub pending: BTreeSet<u32>,
    pub num_tries: BTreeMap<u32, u32>,
}

/// The dial count of `node` after one more dial.
pub open spec fn tries_after_dial(tries: Map<u32, u32>, node: u32) -> Map<u32, u32> {
    if tries.contains_key(node) {
        tries.insert(node, (tries[node] + 1) as u32)
    } else {
        tries.insert(node, 1)
    }
}

impl Dialer {
    pub fn new() -> (d: Dialer)
        ensures
            d.pending@ == Set::<u32>::empty(),
            d.num_tries@ == Map::<u32, u32>::empty(),
    {
        Dialer { pending: BTreeSet::new(), num_tries: BTreeMap::new() }
    }

    /// A dial of `node` is asked for: when none is under way, one starts
    /// (returns `true`) and is counted; otherwise nothing changes.
    pub fn enqueue_dial(&mut self, node: u32) -> (start: bool)
        requires
            old(self).num_tries@.contains_key(node) ==> old(self).num_tries@[node] < u32::MAX,
        ensures
            start == !old(self).pending@.contains(node),
            start ==> final(self).pending@ == old(self).pending@.insert(node) && final(self).num_tries@
                == tries_after_dial(old(self).num_tries@, node),
            !start ==> final(self).pending@ == old(self).pending@ && final(self).num_tries@ == old(self).num_tries@,
    {
        if self.pending.contains(&node) {
            return false;
        }
        self.pending.insert(node);
        let tries: u32 = match self.num_tries.get(&node) {
            Some(t) => *t + 1,
            None => 1,
        };
        self.num_tries.insert(node, tries);
        true
    }

    /// The dial of `node` ended, or was cancelled.
    pub fn remove_pending_dial(&mut self, node: u32)
        ensures
            final(self).pending@ == old(self).pending@.remove(node),
            final(self).num_tries@ == old(self).num_tries@,
    {
        self.pending.remove(&node);
    }

    /// Cancels the dial of `node`; returns whether one was under way.
    pub fn cancel_dial(&mut self, node: u32) -> (cancelled: bool)
        ensures
            cancelled == old(self).pending@.contains(node),
            final(self).pending@ == old(self).pending@.remove(node),
            final(self).num_tries@ == old(self).num_tries@,
    {
        self.pending.remove(&node)
    }

    /// Every dial under way is cancelled, as on shutdown.
    pub fn clear(&mut self)
        ensures
            final(self).pending@ == Set::<u32>::empty(),
            final(self).num_tries@ == old(self).num_tries@,
    {
        self.pending.clear();
    }

    /// `node` left the topology: its dial is cancelled and its count dropped.
    /// Returns whether a dial was under way.
    pub fn forget(&mut self, node: u32) -> (cancelled: bool)
        ensures
            cancelled == old(self).pending@.contains(node),
            final(self).pending@ == old(self).pending@.remove(node),
            final(self).num_tries@ == old(self).num_tries@.remove(node),
    {
        let cancelled = self.pending.remove(&node);
        self.num_tries.remove(&node);
        cancelled
    }

    /// The connection to `node` proved healthy: its count starts over.
    pub fn reset(&mut self, node: u32)
        ensures
            final(self).pending@ == old(self).pending@,
            final(self).num_tries@ == (if old(self).num_tries@.contains_key(node) {
                old(self).num_tries@.insert(node, 0)
            } else {
                old(self).num_tries@
            }),
    {
        if self.num_tries.contains_key(&node) {
            self.num_tries.insert(node, 0);
        }
    }
}

/// A request for a peer's connection: a broadcast message, or a request
/// that waits for a response.
pub enum ServiceRequest<M, Q> {
    SendMessage(M),
    SendRequest(Q),
}

/// Where a request to a peer goes.
pub enum Route<M, Q> {
    /// Through the peer's connection, with this id.
    Send(u64, ServiceRequest<M, Q>),
    /// Queued until a connection to the peer is up; `true` when a dial of
    /// the peer was started for it.
    Queued(bool),
}

/// The endpoint's state: connections, dials, and the requests that wait
/// for a connection.
pub struct EndpointState<M, Q> {
    pub table: ConnectionTable,
    pub dialer: Dialer,
    pub pending: BTreeMap<u32, Vec<ServiceRequest<M, Q>>>,
}

/// The requests waiting for a connection to `peer`.
pub open spec fn pending_of<M, Q>(pending: Map<u32, Vec<ServiceRequest<M, Q>>>, peer: u32) -> Seq<
    ServiceRequest<M, Q>,
> {
    if pending.contains_key(peer) {
        pending[peer]@
    } else {
        Seq::empty()
    }
}

/// Whether a request that waits for a response is among `reqs`.
pub open spec fn has_service_request<M, Q>(reqs: Seq<ServiceRequest<M, Q>>) -> bool {
    exists|i: int| 0 <= i < reqs.len() && #[trigger] reqs[i] is SendRequest
}

impl<M, Q> EndpointState<M, Q> {
    pub open spec fn wf(&self) -> bool {
        self.table.wf()
    }

    /// A dial of `peer` may be counted once more.
    pub open spec fn can_dial(&self, peer: u32) -> bool {
        self.dialer.num_tries@.contains_key(peer) ==> self.dialer.num_tries@[peer] < u32::MAX
    }

    pub fn new() -> (e: EndpointState<M, Q>)
        ensures
            e.wf(),
            e.table.pool@ == Map::<u32, u64>::empty(),
            e.table.redundant@ == Map::<u32, u64>::empty(),
            e.dialer.pending@ == Set::<u32>::empty(),
            e.dialer.num_tries@ == Map::<u32, u32>::empty(),
            e.pending@ == Map::<u32, Vec<ServiceRequest<M, Q>>>::empty(),
    {
        EndpointState { table: ConnectionTable::new(), dialer: Dialer::new(), pending: BTreeMap::new() }
    }

    /// Queues `request` until a connection to `peer` is up.
    fn enqueue_pending(&mut self, peer: u32, request: ServiceRequest<M, Q>)
        ensures
            final(self).table == old(self).table,
            final(self).dialer == old(self).dialer,
            final(self).pending@.dom() == old(self).pending@.dom().insert(peer),
            pending_of(final(self).pending@, peer) == pending_of(old(self).pending@, peer).push(request),
            forall|p: u32| p != peer ==> #[trigger] final(self).pending@.get(p) == old(self).pending@.get(p),
    {
        let mut queue: Vec<ServiceRequest<M, Q>> = match self.pending.remove(&peer) {
            Some(q) => q,
            None => Vec::new(),
        };
        queue.push(request);
        self.pending.insert(peer, queue);
    }

    /// Routes a request to `peer`: through its connection when there is
    /// one; otherwise it is queued, and the peer is dialed unless a dial is
    /// already under way.
    pub fn route(&mut self, peer: u32, request: ServiceRequest<M, Q>) -> (r: Route<M, Q>)
        requires
            old(self).wf(),
            old(self).can_dial(peer),
        ensures
            final(self).wf(),
            final(self).table == old(self).table,
            old(self).table.pool@.contains_key(peer) ==> {
                &&& r == Route::Send(old(self).table.pool@[peer], request)
                &&& final(self).dialer == old(self).dialer
                &&& final(self).pending@ == old(self).pending@
            },
            !old(self).table.pool@.contains_key(peer) ==> {
                &&& r == Route::<M, Q>::Queued(!old(self).dialer.pending@.contains(peer))
                &&& final(self).dialer.pending@ == old(self).dialer.pending@.insert(peer)
                &&& final(self).dialer.num_tries@ == (if old(self).dialer.pending@.contains(peer) {
                    old(self).dialer.num_tries@
                } else {
                    tries_after_dial(old(self).dialer.num_tries@, peer)
                })
                &&& final(self).pending@.dom() == old(self).pending@.dom().insert(peer)
                &&& pending_of(final(self).pending@, peer) == pending_of(old(self).pending@, peer).push(
                    request,
                )
                &&& forall|p: u32| p != peer ==> #[trigger] final(self).pending@.get(p) == old(self).pending@.get(p)
            },
    {
        let connection: Option<u64> = match self.table.pool.get(&peer) {
            Some(c) => Some(*c),
            None => None,
        };
        match connection {
            Some(c) => Route::Send(c, request),
            None => {
                let started = self.dialer.enqueue_dial(peer);
                self.enqueue_pending(peer, request);
                Route::Queued(started)
            },
        }
    }

    /// Splits the peers of a broadcast into those with a connection and
    /// those without one, each in the order given.
    pub fn split_targets(&self, peers: &Vec<u32>) -> (r: (Vec<u32>, Vec<u32>))
        ensures
            r.0@ == peers@.filter(|p: u32| self.table.pool@.contains_key(p)),
            r.1@ == peers@.filter(|p: u32| !self.table.pool@.contains_key(p)),
    {
        let ghost f = |p: u32| self.table.pool@.contains_key(p);
        let ghost g = |p: u32| !self.table.pool@.contains_key(p);
        let mut connected: Vec<u32> = Vec::new();
        let mut not_connected: Vec<u32> = Vec::new();
        let mut i: usize = 0;
        while i < peers.len()
            invariant
                i <= peers.len(),
                forall|p: u32| #[trigger] f(p) == self.table.pool@.contains_key(p),
                forall|p: u32| #[trigger] g(p) == !self.table.pool@.contains_key(p),
                connected@ == peers@.take(i as int).filter(f),
                not_connected@ == peers@.take(i as int).filter(g),
            decreases peers.len() - i,
        {
            let p = peers[i];
            proof {
                assert(peers@.take(i + 1) =~= peers@.take(i as int).push(p));
                peers@.take(i as int).lemma_filter_push(p, f);
                peers@.take(i as int).lemma_filter_push(p, g);
            }
            if self.table.pool.contains_key(&p) {
                connected.push(p);
            } else {
                not_connected.push(p);
            }
            i = i + 1;
        }
        proof {
            assert(peers@.take(i as int) =~= peers@);
        }
        (connected, not_connected)
    }
}

/// What became of a new connection to a peer.
pub struct Established<M, Q> {
    /// A dial of the peer was under way and is cancelled.
    pub dial_cancelled: bool,
    pub admission: Admission,
    /// The requests that waited for the connection, in the order queued.
    pub requests: Vec<ServiceRequest<M, Q>>,
    /// Whether a request that waits for a response is among them.
    pub service_request_sent: bool,
}

/// What a new connection `id` to `peer` does to the endpoint's state, `pre`
/// before and `post` after, and what `e` hands out (see `establish`).
pub open spec fn established<M, Q>(pre: EndpointState<M, Q>, post: EndpointState<M, Q>, peer: u32, id: u64, e: Established<M, Q>) -> bool {
    &&& post.wf()
    &&& e.dial_cancelled == pre.dialer.pending@.contains(peer)
    &&& post.dialer.pending@ == pre.dialer.pending@.remove(peer)
    &&& post.dialer.num_tries@ == pre.dialer.num_tries@
    &&& e.admission == (if !pre.table.pool@.contains_key(peer) {
            Admission::Primary
        } else if !pre.table.redundant@.contains_key(peer) {
            Admission::Redundant
        } else {
            Admission::Rejected
        })
    &&& (post.table.pool@, post.table.redundant@) == after_accept(
            pre.table.pool@,
            pre.table.redundant@,
            peer,
            id,
        )
    &&& e.admission == Admission::Rejected ==> {
            &&& post.pending@ == pre.pending@
            &&& e.requests@ == Seq::<ServiceRequest<M, Q>>::empty()
            &&& !e.service_request_sent
        }
    &&& e.admission != Admission::Rejected ==> {
            &&& e.requests@ == pending_of(pre.pending@, peer)
            &&& post.pending@ == pre.pending@.remove(peer)
            &&& e.service_request_sent == has_service_request(e.requests@)
        }
}

/// The tables once connection `id` to `peer` is admitted.
pub open spec fn after_accept(pool: Map<u32, u64>, redundant: Map<u32, u64>, peer: u32, id: u64) -> (
    Map<u32, u64>,
    Map<u32, u64>,
) {
    if !pool.contains_key(peer) {
        (pool.insert(peer, id), redundant)
    } else if !redundant.contains_key(peer) {
        (pool, redundant.insert(peer, id))
    } else {
        (pool, redundant)
    }
}

impl<M, Q> EndpointState<M, Q> {
    /// Takes the requests queued for `peer`.
    fn take_pending(&mut self, peer: u32) -> (reqs: Vec<ServiceRequest<M, Q>>)
        ensures
            final(self).table == old(self).table,
            final(self).dialer == old(self).dialer,
            reqs@ == pending_of(old(self).pending@, peer),
            final(self).pending@ == old(self).pending@.remove(peer),
    {
        match self.pending.remove(&peer) {
            Some(q) => q,
            None => Vec::new(),
        }
    }

    /// A connection `id` to `peer` is up. A dial of the peer under way is
    /// cancelled. When the peer already has two connections the new one is
    /// rejected; otherwise it is recorded and the requests that waited for
    /// it are handed out.
    pub fn establish(&mut self, peer: u32, id: u64) -> (e: Established<M, Q>)
        requires
            old(self).wf(),
        ensures
            established(*old(self), *final(self), peer, id, e),
    {
        let dial_cancelled = self.dialer.cancel_dial(peer);
        let admission = self.table.accept(peer, id);
        match admission {
            Admission::Rejected => {
                Established { dial_cancelled, admission, requests: Vec::new(), service_request_sent: false }
            },
            _ => {
                let requests = self.take_pending(peer);
                let mut sent = false;
                let mut i: usize = 0;
                while i < requests.len()
                    invariant
                        i <= requests.len(),
                        sent == exists|j: int| 0 <= j < i && #[trigger] requests@[j] is SendRequest,
                    decreases requests.len() - i,
                {
                    if matches!(requests[i], ServiceRequest::SendRequest(_)) {
                        sent = true;
                    }
                    i = i + 1;
                }
                Established { dial_cancelled, admission, requests, service_request_sent: sent }
            },
        }
    }

    /// A dial of `peer` failed: it is no longer under way, and the requests
    /// that waited for it are handed back to be answered with an error.
    pub fn dial_failed(&mut self, peer: u32) -> (reqs: Vec<ServiceRequest<M, Q>>)
        requires
            old(self).wf(),
        ensures
            final(self).wf(),
            final(self).table == old(self).table,
            final(self).dialer.pending@ == old(self).dialer.pending@.remove(peer),
            final(self).dialer.num_tries@ == old(self).dialer.num_tries@,
            reqs@ == pending_of(old(self).pending@, peer),
            final(self).pending@ == old(self).pending@.remove(peer),
    {
        self.dialer.remove_pending_dial(peer);
        self.take_pending(peer)
    }

    /// A peer is added to the pool: it is dialed when there is no
    /// connection to it, this side is the one to dial, and no dial is under
    /// way. Returns whether a dial started.
    pub fn add(&mut self, peer: u32, connect: bool) -> (started: bool)
        requires
            old(self).wf(),
            old(self).can_dial(peer),
        ensures
            final(self).wf(),
            final(self).table == old(self).table,
            final(self).pending@ == old(self).pending@,
            started == (!old(self).table.pool@.contains_key(peer) && connect && !old(self).dialer.pending@.contains(
                peer,
            )),
            started ==> final(self).dialer.pending@ == old(self).dialer.pending@.insert(peer)
                && final(self).dialer.num_tries@ == tries_after_dial(old(self).dialer.num_tries@, peer),
            !started ==> final(self).dialer.pending@ == old(self).dialer.pending@ && final(self).dialer.num_tries@
                == old(self).dialer.num_tries@,
    {
        if !self.table.pool.contains_key(&peer) && connect {
            self.dialer.enqueue_dial(peer)
        } else {
            false
        }
    }
}

/// What an update of the topology asks of the endpoint.
pub struct UpdatePlan {
    /// The ids of the connections to close once a grace period is over.
    pub closing: Vec<u64>,
    /// The peers whose dial under way is cancelled.
    pub cancelled: Vec<u32>,
    /// The peers to dial.
    pub dial: Vec<u32>,
    /// Whether a timeout is scheduled to close the buffered connections.
    pub schedule_timeout: bool,
}

/// The ids of the connections that dropping the peers of `drop`, in order,
/// takes out of the tables: a peer's primary connection, then its
/// redundant one, the first time the peer is named.
pub open spec fn closing_ids(pool: Map<u32, u64>, redundant: Map<u32, u64>, drop: Seq<u32>) -> Seq<u64>
    decreases drop.len(),
{
    if drop.len() == 0 {
        Seq::empty()
    } else {
        let d = drop.last();
        let fresh = !drop.drop_last().contains(d);
        closing_ids(pool, redundant, drop.drop_last()) + (if fresh && pool.contains_key(d) {
            seq![pool[d]]
        } else {
            Seq::empty()
        }) + (if fresh && redundant.contains_key(d) {
            seq![redundant[d]]
        } else {
            Seq::empty()
        })
    }
}

/// The peers of `drop` whose dial was under way, in order, each once.
pub open spec fn cancelled_dials(pending: Set<u32>, drop: Seq<u32>) -> Seq<u32>
    decreases drop.len(),
{
    if drop.len() == 0 {
        Seq::empty()
    } else {
        let d = drop.last();
        if !drop.drop_last().contains(d) && pending.contains(d) {
            cancelled_dials(pending, drop.drop_last()).push(d)
        } else {
            cancelled_dials(pending, drop.drop_last())
        }
    }
}

/// The peers of `keep` that are dialed, in order: those that this side
/// dials, with no connection and no dial under way.
pub open spec fn update_dials(pool: Map<u32, u64>, pending: Set<u32>, keep: Seq<(u32, bool)>) -> Seq<u32>
    decreases keep.len(),
{
    if keep.len() == 0 {
        Seq::empty()
    } else {
        let k = keep.last().0;
        let earlier = update_dials(pool, pending, keep.drop_last());
        if keep.last().1 && !pool.contains_key(k) && !pending.contains(k) && !earlier.contains(k) {
            earlier.push(k)
        } else {
            earlier
        }
    }
}

/// The dial counts after the dials of `dials`, in order.
pub open spec fn tries_after_dials(tries: Map<u32, u32>, dials: Seq<u32>) -> Map<u32, u32>
    decreases dials.len(),
{
    if dials.len() == 0 {
        tries
    } else {
        tries_after_dial(tries_after_dials(tries, dials.drop_last()), dials.last())
    }
}

impl<M, Q> EndpointState<M, Q> {
    /// A new topology: the peers of `drop` lose their connections, which
    /// are buffered to close after a grace period, their dials and their
    /// dial counts; the peers of `keep` (each with whether this side dials
    /// it) are dialed where that is this side's part and there is neither a
    /// connection nor a dial under way.
    pub fn update(&mut self, keep: &Vec<(u32, bool)>, drop: &Vec<u32>) -> (plan: UpdatePlan)
        requires
            old(self).wf(),
            forall|i: int| 0 <= i < keep@.len() ==> #[trigger] old(self).can_dial(keep@[i].0),
        ensures
            final(self).wf(),
            final(self).pending@ == old(self).pending@,
            final(self).table.pool@ == old(self).table.pool@.remove_keys(drop@.to_set()),
            final(self).table.redundant@ == old(self).table.redundant@.remove_keys(drop@.to_set()),
            plan.closing@ == closing_ids(old(self).table.pool@, old(self).table.redundant@, drop@),
            plan.cancelled@ == cancelled_dials(old(self).dialer.pending@, drop@),
            plan.dial@ == update_dials(
                old(self).table.pool@.remove_keys(drop@.to_set()),
                old(self).dialer.pending@.difference(drop@.to_set()),
                keep@,
            ),
            final(self).dialer.pending@ == old(self).dialer.pending@.difference(drop@.to_set()).union(
                plan.dial@.to_set(),
            ),
            final(self).dialer.num_tries@ == tries_after_dials(
                old(self).dialer.num_tries@.remove_keys(drop@.to_set()),
                plan.dial@,
            ),
            plan.schedule_timeout == (drop@.len() > 0),
    {
        let ghost pool0 = self.table.pool@;
        let ghost red0 = self.table.redundant@;
        let ghost pend0 = self.dialer.pending@;
        let ghost tries0 = self.dialer.num_tries@;
        let ghost queues0 = self.pending@;
        let mut closing: Vec<u64> = Vec::new();
        let mut cancelled: Vec<u32> = Vec::new();
        let mut i: usize = 0;
        while i < drop.len()
            invariant
                i <= drop.len(),
                self.wf(),
                self.pending@ == queues0,
                forall|k: u32| #[trigger] self.table.pool@.contains_key(k) <==> (pool0.contains_key(k)
                    && !drop@.take(i as int).contains(k)),
                forall|k: u32| #[trigger] self.table.pool@.contains_key(k) ==> self.table.pool@[k] == pool0[k],
                forall|k: u32| #[trigger] self.table.redundant@.contains_key(k) <==> (red0.contains_key(k)
                    && !drop@.take(i as int).contains(k)),
                forall|k: u32| #[trigger] self.table.redundant@.contains_key(k) ==> self.table.redundant@[k]
                    == red0[k],
                forall|k: u32| #[trigger] self.dialer.pending@.contains(k) <==> (pend0.contains(k)
                    && !drop@.take(i as int).contains(k)),
                forall|k: u32| #[trigger] self.dialer.num_tries@.contains_key(k) <==> (tries0.contains_key(k)
                    && !drop@.take(i as int).contains(k)),
                forall|k: u32| #[trigger] self.dialer.num_tries@.contains_key(k) ==> self.dialer.num_tries@[k]
                    == tries0[k],
                closing@ == closing_ids(pool0, red0, drop@.take(i as int)),
                cancelled@ == cancelled_dials(pend0, drop@.take(i as int)),
            decreases drop.len() - i,
        {
            let d = drop[i];
            proof {
                assert(drop@.take(i + 1) =~= drop@.take(i as int).push(d));
                assert(drop@.take(i + 1).drop_last() =~= drop@.take(i as int));
                lemma_push_contains(drop@.take(i as int), d);
            }
            let (a, b) = self.table.drop_peer(d);
            let ghost before = closing@;
            match a {
                Some(c) => closing.push(c),
                None => {},
            }
            match b {
                Some(c) => closing.push(c),
                None => {},
            }
            proof {
                let fresh = !drop@.take(i as int).contains(d);
                let pa: Seq<u64> = if fresh && pool0.contains_key(d) { seq![pool0[d]] } else { Seq::empty() };
                let pb: Seq<u64> = if fresh && red0.contains_key(d) { seq![red0[d]] } else { Seq::empty() };
                assert(closing@ =~= before + pa + pb);
            }
            let was_dialing = self.dialer.forget(d);
            if was_dialing {
                cancelled.push(d);
            }
            i = i + 1;
        }
        proof {
            assert(drop@.take(i as int) =~= drop@);
            assert forall|k: u32| drop@.contains(k) <==> drop@.to_set().contains(k) by {}
        }
        let ghost poolm = self.table.pool@;
        let ghost pendm = self.dialer.pending@;
        let ghost triesm = self.dialer.num_tries@;
        proof {
            assert(poolm =~= pool0.remove_keys(drop@.to_set()));
            assert(self.table.redundant@ =~= red0.remove_keys(drop@.to_set()));
            assert(pendm =~= pend0.difference(drop@.to_set()));
            assert(triesm =~= tries0.remove_keys(drop@.to_set()));
            assert forall|x: int| #![trigger keep@[x]] 0 <= x < keep@.len() && tries0.contains_key(keep@[x].0)
                implies tries0[keep@[x].0] < u32::MAX by {
                assert(old(self).can_dial(keep@[x].0));
            }
        }
        let mut dial: Vec<u32> = Vec::new();
        let mut j: usize = 0;
        while j < keep.len()
            invariant
                j <= keep.len(),
                self.wf(),
                self.pending@ == queues0,
                self.table.pool@ == poolm,
                self.table.redundant@ == red0.remove_keys(drop@.to_set()),
                forall|k: u32| #[trigger] triesm.contains_key(k) ==> tries0.contains_key(k) && triesm[k] == tries0[k],
                forall|x: int| #![trigger keep@[x]] 0 <= x < keep@.len() ==> (tries0.contains_key(keep@[x].0) ==> tries0[keep@[x].0] < u32::MAX),
                dial@ == update_dials(poolm, pendm, keep@.take(j as int)),
                forall|k: u32| #[trigger] self.dialer.pending@.contains(k) <==> (pendm.contains(k) || dial@.contains(k)),
                self.dialer.num_tries@ == tries_after_dials(triesm, dial@),
                forall|k: u32| !dial@.contains(k) ==> (#[trigger] self.dialer.num_tries@.contains_key(k) == triesm.contains_key(k))
                    && (triesm.contains_key(k) ==> self.dialer.num_tries@[k] == triesm[k]),
            decreases keep.len() - j,
        {
            let (k, connect) = keep[j];
            proof {
                assert(keep@.take(j + 1) =~= keep@.take(j as int).push(keep@[j as int]));
                assert(keep@.take(j + 1).drop_last() =~= keep@.take(j as int));
                assert(tries0.contains_key(keep@[j as int].0) ==> tries0[keep@[j as int].0] < u32::MAX);
            }
            if connect && !self.table.pool.contains_key(&k) && !self.dialer.pending.contains(&k) {
                let ghost before = dial@;
                let ghost tries_before = self.dialer.num_tries@;
                self.dialer.enqueue_dial(k);
                dial.push(k);
                proof {
                    assert(dial@ =~= before.push(k));
                    assert(dial@.drop_last() =~= before);
                    lemma_push_contains(before, k);
                }
            }
            j = j + 1;
        }
        proof {
            assert(keep@.take(j as int) =~= keep@);
            assert forall|k: u32| #[trigger] self.dialer.pending@.contains(k) == pend0.difference(drop@.to_set()).union(
                dial@.to_set()).contains(k) by {}
            assert(self.dialer.pending@ =~= pend0.difference(drop@.to_set()).union(dial@.to_set()));
        }
        let schedule_timeout = drop.len() > 0;
        UpdatePlan { closing, cancelled, dial, schedule_timeout }
    }
}

/// `info`, marked as a primary (`false`) or redundant (`true`) connection.
pub open spec fn marked(info: TransportConnectionInfo, redundant: bool) -> TransportConnectionInfo {
    TransportConnectionInfo { redundant, ..info }
}

/// The connections of the peers that answered a stats request: each
/// primary connection, in order, stands alone for its peer (a later one of
/// the same peer replaces it), then each redundant connection, in order,
/// joins the end of its peer's list.
pub open spec fn endpoint_info(
    primary: Seq<(u32, TransportConnectionInfo)>,
    redundant: Seq<(u32, TransportConnectionInfo)>,
) -> Map<u32, Seq<TransportConnectionInfo>>
    decreases primary.len() + redundant.len(),
{
    if redundant.len() > 0 {
        let m = endpoint_info(primary, redundant.drop_last());
        let (peer, info) = redundant.last();
        let before = if m.contains_key(peer) { m[peer] } else { Seq::empty() };
        m.insert(peer, before.push(marked(info, true)))
    } else if primary.len() > 0 {
        let (peer, info) = primary.last();
        endpoint_info(primary.drop_last(), redundant).insert(peer, seq![marked(info, false)])
    } else {
        Map::empty()
    }
}

/// Assembles the reply to a stats request from the connections that
/// answered: the primary ones and then the redundant ones, each with its
/// peer.
pub fn collect_endpoint_info(
    primary: &Vec<(u32, TransportConnectionInfo)>,
    redundant: &Vec<(u32, TransportConnectionInfo)>,
) -> (r: BTreeMap<u32, Vec<TransportConnectionInfo>>)
    ensures
        r@.dom() == endpoint_info(primary@, redundant@).dom(),
        forall|k: u32| #[trigger] r@.contains_key(k) ==> r@[k]@ == endpoint_info(primary@, redundant@)[k],
{
    let mut r: BTreeMap<u32, Vec<TransportConnectionInfo>> = BTreeMap::new();
    let mut i: usize = 0;
    while i < primary.len()
        invariant
            i <= primary.len(),
            r@.dom() == endpoint_info(primary@.take(i as int), Seq::empty()).dom(),
            forall|k: u32| #[trigger] r@.contains_key(k) ==> r@[k]@ == endpoint_info(
                primary@.take(i as int),
                Seq::empty(),
            )[k],
        decreases primary.len() - i,
    {
        let (peer, info) = primary[i];
        let ghost before = primary@.take(i as int);
        let mut v: Vec<TransportConnectionInfo> = Vec::new();
        v.push(TransportConnectionInfo { redundant: false, ..info });
        r.insert(peer, v);
        proof {
            assert(primary@.take(i + 1).drop_last() =~= before);
            assert(primary@.take(i + 1).last() == primary@[i as int]);
            assert(v@ =~= seq![marked(info, false)]);
            assert(r@.dom() =~= endpoint_info(primary@.take(i + 1), Seq::empty()).dom());
        }
        i = i + 1;
    }
    proof {
        assert(primary@.take(i as int) =~= primary@);
        assert(redundant@.take(0) =~= Seq::<(u32, TransportConnectionInfo)>::empty());
    }
    let mut j: usize = 0;
    while j < redundant.len()
        invariant
            j <= redundant.len(),
            r@.dom() == endpoint_info(primary@, redundant@.take(j as int)).dom(),
            forall|k: u32| #[trigger] r@.contains_key(k) ==> r@[k]@ == endpoint_info(
                primary@,
                redundant@.take(j as int),
            )[k],
        decreases redundant.len() - j,
    {
        let (peer, info) = redundant[j];
        let ghost m = endpoint_info(primary@, redundant@.take(j as int));
        let mut v: Vec<TransportConnectionInfo> = match r.remove(&peer) {
            Some(v) => v,
            None => Vec::new(),
        };
        v.push(TransportConnectionInfo { redundant: true, ..info });
        r.insert(peer, v);
        proof {
            assert(redundant@.take(j + 1).drop_last() =~= redundant@.take(j as int));
            assert(redundant@.take(j + 1).last() == redundant@[j as int]);
            assert(r@.dom() =~= endpoint_info(primary@, redundant@.take(j + 1)).dom());
        }
        j = j + 1;
    }
    proof {
        assert(redundant@.take(j as int) =~= redundant@);
    }
    r
}

/// Whether a peer's stake lets it connect: the peer must be registered,
/// and hold at least `required` whole tokens; `staked` is its stake in
/// units of 10^-18 token, none when the application state holds no stake
/// for it (which counts as zero).
pub fn stake_admits(required: u128, registered: bool, staked: Option<u128>) -> (b: bool)
    ensures
        b == stake_admits_spec(required, registered, staked),
{
    if !registered {
        return false;
    }
    let s: u128 = match staked {
        Some(s) => s,
        None => 0,
    };
    let whole: u128 = s / 1_000_000_000_000_000_000u128;
    assert(required <= whole <==> required * 1_000_000_000_000_000_000 <= s) by (nonlinear_arith)
        requires
            whole == s / 1_000_000_000_000_000_000,
            s >= 0,
    ;
    required <= whole
}

impl<M, Q> EndpointState<M, Q> {
    /// A new connection `id` to `peer`: a peer whose stake does not admit
    /// it is turned away (`None`) and nothing changes; otherwise the
    /// connection is established.
    pub fn accept_connection(&mut self, peer: u32, id: u64, required: u128, registered: bool, staked: Option<u128>) -> (r:
        Option<Established<M, Q>>)
        requires
            old(self).wf(),
        ensures
            r is None <==> !stake_admits_spec(required, registered, staked),
            r is None ==> final(self).table == old(self).table && final(self).dialer == old(self).dialer
                && final(self).pending@ == old(self).pending@,
            r matches Some(e) ==> established(*old(self), *final(self), peer, id, e),
    {
        if !stake_admits(required, registered, staked) {
            return None;
        }
        Some(self.establish(peer, id))
    }
}

/// Whether a peer's stake lets it connect (see `stake_admits`).
pub open spec fn stake_admits_spec(required: u128, registered: bool, staked: Option<u128>) -> bool {
    registered && required * 1_000_000_000_000_000_000 <= (match staked {
        Some(s) => s as int,
        None => 0,
    })
}

} // verus!
