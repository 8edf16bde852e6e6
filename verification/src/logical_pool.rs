//! The logical pool: the peers we keep connections to, whether each was
//! asked for by the topology or pinned by traffic, and the decisions taken
//! when the topology changes or a request or broadcast goes out.
use vstd::prelude::*;
use std::collections::{BTreeMap, BTreeSet};
use vstd::std_specs::btree::{spec_keys_iter, spec_btree_keys_iter};
use vstd::std_specs::iter::IteratorSpec;
use crate::measurements::Duration;
use crate::state::{unhealthy_retry_delay, unhealthy_retry_secs};

verus! {

broadcast use vstd::std_specs::btree::group_btree_axioms;

/// An IP address.
#[derive(Clone, Copy, Debug)]
pub enum IpAddress {
    V4([u8; 4]),
    V6([u8; 16]),
}

/// Where a peer listens for pool connections.
#[derive(Clone, Copy, Debug)]
pub struct SocketAddress {
    pub ip: IpAddress,
    pub port: u16,
}

/// Info of a node.
#[derive(Clone, Copy, Debug)]
pub struct NodeInfo {
    pub index: u32,
    pub pk: [u8; 32],
    pub socket_address: SocketAddress,
}

/// What the pool knows of a peer it keeps a connection to.
#[derive(Clone, Copy, Debug)]
pub struct ConnectionInfo {
    /// Pinned connections should not be dropped on topology changes.
    pub pinned: bool,
    /// This connection was initiated on a topology event.
    pub from_topology: bool,
    /// The info of the peer.
    pub node_info: NodeInfo,
    /// Whether we dial the peer (rather than wait for it to dial us).
    pub connect: bool,
}

/// Logical pool stats.
#[derive(Clone, Copy, Debug)]
pub struct Stats {
    pub total_req_res_requests: usize,
    /// Number of times that we are using request-response service with
    /// peers in our cluster.
    pub cluster_hit_count: usize,
}

/// What follows when a connection to a peer of our cluster closes: dial it
/// again after `delay`, and, when the connection was healthy, start its count
/// of failed dials over.
pub struct Redial {
    pub info: ConnectionInfo,
    pub delay: Duration,
    pub reset_dial_info: bool,
}

/// How the last dial of a closed connection went: whether the connection
/// closed sooner than the healthy threshold (thirty seconds) after that dial,
/// and how many dials had failed before.
#[derive(Clone, Copy, Debug)]
pub struct LastDial {
    pub closed_soon: bool,
    pub num_tries: u32,
}

/// Whether the connection closed soon after we dialed it.
pub open spec fn closed_soon(dial: Option<LastDial>) -> bool {
    match dial {
        Some(d) => d.closed_soon,
        None => false,
    }
}

/// The delay before redialing, in seconds: ten after a healthy connection (or
/// one never dialed by us), the backed-off delay after one that closed soon.
pub open spec fn redial_secs(dial: Option<LastDial>) -> int {
    match dial {
        Some(d) => if d.closed_soon {
            unhealthy_retry_secs(d.num_tries)
        } else {
            10
        },
        None => 10,
    }
}

/// What the endpoint is told after a topology change: the connections to
/// keep and the peers to drop.
pub struct PoolUpdate {
    pub keep: BTreeMap<u32, ConnectionInfo>,
    pub drop: Vec<u32>,
}

/// Of two peers, the one with the lower index dials the other.
pub open spec fn should_connect(peer: u32, our_index: u32) -> bool {
    peer < our_index
}

/// A connection asked for by the topology.
pub open spec fn topology_connection(info: NodeInfo, our_index: u32) -> ConnectionInfo {
    ConnectionInfo {
        from_topology: true,
        pinned: false,
        node_info: info,
        connect: should_connect(info.index, our_index),
    }
}

/// A connection pinned by traffic.
pub open spec fn pinned_connection(peer: u32, info: NodeInfo, our_index: u32) -> ConnectionInfo {
    ConnectionInfo { pinned: true, from_topology: false, node_info: info, connect: should_connect(peer, our_index) }
}

/// The pool after pinning `peer`: an existing connection is marked pinned,
/// otherwise a pinned connection is added.
pub open spec fn pinned_pool(pool: Map<u32, ConnectionInfo>, peer: u32, info: NodeInfo, our_index: u32) -> Map<
    u32,
    ConnectionInfo,
> {
    if pool.contains_key(peer) {
        pool.insert(peer, ConnectionInfo { pinned: true, ..pool[peer] })
    } else {
        pool.insert(peer, pinned_connection(peer, info, our_index))
    }
}

/// The pool after cleaning up `peer`: a connection that only traffic pinned
/// is removed, one that the topology also asked for is unpinned, and any
/// other is left as it is.
pub open spec fn cleaned(pool: Map<u32, ConnectionInfo>, peer: u32) -> Map<u32, ConnectionInfo> {
    if pool.contains_key(peer) {
        let c = pool[peer];
        if !c.from_topology && c.pinned {
            pool.remove(peer)
        } else if c.pinned {
            pool.insert(peer, ConnectionInfo { pinned: false, ..c })
        } else {
            pool
        }
    } else {
        pool
    }
}

/// One when a request to `peer` is a hit in our cluster: the connection was
/// asked for by the topology and is not pinned (a pinned one was counted when
/// it was pinned); zero otherwise.
pub open spec fn cluster_hit(pool: Map<u32, ConnectionInfo>, peer: u32) -> int {
    if pool.contains_key(peer) && pool[peer].from_topology && !pool[peer].pinned {
        1
    } else {
        0
    }
}

/// The connections kept on a topology change: those to peers of the new
/// cluster (now marked as from the topology) and the pinned ones.
pub open spec fn retained(pool: Map<u32, ConnectionInfo>, peers: Set<u32>) -> Map<u32, ConnectionInfo> {
    Map::new(
        |k: u32| pool.contains_key(k) && (peers.contains(k) || pool[k].pinned),
        |k: u32|
            if peers.contains(k) {
                ConnectionInfo { from_topology: true, ..pool[k] }
            } else {
                pool[k]
            },
    )
}

/// The pool after a topology change to `peers`: the retained connections,
/// and a topology connection to every other peer of the cluster whose info
/// the application state holds.
pub open spec fn updated_pool(
    pool: Map<u32, ConnectionInfo>,
    peers: Set<u32>,
    infos: Map<u32, NodeInfo>,
    our_index: u32,
) -> Map<u32, ConnectionInfo> {
    let r = retained(pool, peers);
    Map::new(
        |k: u32| r.contains_key(k) || (peers.contains(k) && infos.contains_key(k)),
        |k: u32|
            if r.contains_key(k) {
                r[k]
            } else {
                topology_connection(infos[k], our_index)
            },
    )
}

/// The peers dropped on a topology change: neither in the new cluster nor
/// pinned.
pub open spec fn dropped(pool: Map<u32, ConnectionInfo>, peers: Set<u32>) -> Set<u32> {
    Set::new(|k: u32| pool.contains_key(k) && !peers.contains(k) && !pool[k].pinned)
}

/// Every info the application state holds is the info of the peer it is
/// filed under.
pub open spec fn infos_wf(infos: Map<u32, NodeInfo>) -> bool {
    forall|k: u32| #[trigger] infos.contains_key(k) ==> infos[k].index == k
}

pub(crate) proof fn lemma_push_contains(s: Seq<u32>, v: u32)
    ensures
        forall|x: u32| #[trigger] s.push(v).contains(x) <==> (s.contains(x) || x == v),
{
    assert forall|x: u32| #[trigger] s.push(v).contains(x) <==> (s.contains(x) || x == v) by {
        if s.contains(x) {
            let j = choose|j: int| 0 <= j < s.len() && s[j] == x;
            assert(s.push(v)[j] == x);
        }
        if x == v {
            assert(s.push(v)[s.len() as int] == v);
        }
        if s.push(v).contains(x) {
            let j = choose|j: int| 0 <= j < s.push(v).len() && s.push(v)[j] == x;
            if j < s.len() {
                assert(s[j] == x);
            }
        }
    }
}

proof fn lemma_push_no_dup(s: Seq<u32>, v: u32)
    requires
        s.no_duplicates(),
        !s.contains(v),
    ensures
        s.push(v).no_duplicates(),
{
    assert forall|a: int, b: int| 0 <= a < b < s.push(v).len() implies s.push(v)[a] != s.push(v)[b] by {
        if b == s.len() {
            assert(s[a] == s.push(v)[a]);
        }
    }
}

/// The keys of `m`, each once.
pub(crate) fn map_keys<V>(m: &BTreeMap<u32, V>) -> (keys: Vec<u32>)
    ensures
        keys@.to_set() == m@.dom(),
        keys@.no_duplicates(),
{
    let mut keys: Vec<u32> = Vec::new();
    for k in it: m.keys()
        invariant
            keys@ == it.seq().take(it.index() as int).map_values(|r: &u32| *r),
    {
        keys.push(*k);
    }
    proof {
        let seq = spec_keys_iter(m).remaining();
        assert(keys@ =~= seq.unref());
    }
    keys
}

pub(crate) fn set_keys(m: &BTreeSet<u32>) -> (keys: Vec<u32>)
    ensures
        keys@.to_set() == m@,
{
    let mut keys: Vec<u32> = Vec::new();
    for k in it: m.iter()
        invariant
            keys@ == it.seq().take(it.index() as int).map_values(|r: &u32| *r),
    {
        keys.push(*k);
    }
    proof {
        let seq = spec_btree_keys_iter(m).remaining();
        assert(keys@ =~= seq.unref());
    }
    keys
}

/// Pool that handles logical connections.
pub struct LogicalPool {
    /// Peers that we are currently connected to.
    pub pool: BTreeMap<u32, ConnectionInfo>,
    /// Stats.
    pub stats: Stats,
}

impl LogicalPool {
    pub fn new() -> (p: LogicalPool)
        ensures
            p.pool@ == Map::<u32, ConnectionInfo>::empty(),
            p.stats.total_req_res_requests == 0,
            p.stats.cluster_hit_count == 0,
    {
        LogicalPool { pool: BTreeMap::new(), stats: Stats { total_req_res_requests: 0, cluster_hit_count: 0 } }
    }

    /// Forgets every connection.
    pub fn clear_state(&mut self)
        ensures
            final(self).pool@ == Map::<u32, ConnectionInfo>::empty(),
            final(self).stats == old(self).stats,
    {
        self.pool.clear();
    }

    pub fn contains(&self, peer: u32) -> (r: bool)
        ensures
            r == self.pool@.contains_key(peer),
    {
        self.pool.contains_key(&peer)
    }

    /// Whether a message from `src` is accepted: only from peers in the pool.
    pub fn process_received_message(&self, src: u32) -> (r: bool)
        ensures
            r == self.pool@.contains_key(src),
    {
        self.pool.contains_key(&src)
    }

    /// Pins the connection to `peer`, adding it when absent.
    pub fn pin_connection(&mut self, peer: u32, info: NodeInfo, our_index: u32)
        ensures
            final(self).pool@ == pinned_pool(old(self).pool@, peer, info, our_index),
            final(self).stats == old(self).stats,
    {
        let existing: Option<ConnectionInfo> = match self.pool.get(&peer) {
            Some(c) => Some(*c),
            None => None,
        };
        match existing {
            Some(c) => {
                self.pool.insert(peer, ConnectionInfo { pinned: true, ..c });
            },
            None => {
                self.pool.insert(
                    peer,
                    ConnectionInfo { pinned: true, from_topology: false, node_info: info, connect: peer < our_index },
                );
            },
        }
    }

    /// A new transport connection to `peer`: pins it unless it is already in
    /// the pool. `info` is what the application state holds of `peer`.
    pub fn handle_new_connection(&mut self, peer: u32, info: Option<NodeInfo>, our_index: u32)
        ensures
            final(self).pool@ == (match info {
                Some(i) => if old(self).pool@.contains_key(peer) {
                    old(self).pool@
                } else {
                    pinned_pool(old(self).pool@, peer, i, our_index)
                },
                None => old(self).pool@,
            }),
            final(self).stats == old(self).stats,
    {
        if !self.contains(peer) {
            if let Some(info) = info {
                self.pin_connection(peer, info, our_index);
            }
        }
    }

    /// A request from `src`: accepted, and its connection pinned, when the
    /// application state knows the peer.
    pub fn process_received_request(&mut self, src: u32, info: Option<NodeInfo>, our_index: u32) -> (r: bool)
        ensures
            r == info is Some,
            final(self).pool@ == (match info {
                Some(i) => pinned_pool(old(self).pool@, src, i, our_index),
                None => old(self).pool@,
            }),
            final(self).stats == old(self).stats,
    {
        if let Some(info) = info {
            self.pin_connection(src, info, our_index);
            true
        } else {
            false
        }
    }

    /// Cleans up a pinned connection: one that only traffic pinned is
    /// removed, one that the topology also asked for is unpinned.
    ///
    /// This assumes that there are no active transport connections to the
    /// peer, else a connection could be wrongly unpinned.
    pub fn clean(&mut self, peer: u32)
        ensures
            final(self).pool@ == cleaned(old(self).pool@, peer),
            final(self).stats == old(self).stats,
    {
        let existing: Option<ConnectionInfo> = match self.pool.get(&peer) {
            Some(c) => Some(*c),
            None => None,
        };
        if let Some(c) = existing {
            if !c.from_topology && c.pinned {
                self.pool.remove(&peer);
            } else if c.pinned {
                self.pool.insert(peer, ConnectionInfo { pinned: false, ..c });
            }
        }
    }

    /// A transport connection to `peer` closed. A peer of our cluster is
    /// dialed again, after a delay that backs off while its connections keep
    /// closing soon after being dialed; a healthy connection resets the count
    /// of failed dials. Either way the pinned connection is cleaned up.
    pub fn handle_closed_connection(&mut self, peer: u32, dial: Option<LastDial>) -> (r: Option<Redial>)
        ensures
            r is Some <==> old(self).pool@.contains_key(peer) && old(self).pool@[peer].from_topology,
            r matches Some(t) ==> {
                &&& t.info == old(self).pool@[peer]
                &&& t.delay.nanos == redial_secs(dial) * 1_000_000_000
                &&& t.reset_dial_info == !closed_soon(dial)
            },
            final(self).pool@ == cleaned(old(self).pool@, peer),
            final(self).stats == old(self).stats,
    {
        let existing: Option<ConnectionInfo> = match self.pool.get(&peer) {
            Some(c) => Some(*c),
            None => None,
        };
        let r = match existing {
            Some(c) => {
                if c.from_topology {
                    let (delay, healthy) = match dial {
                        Some(d) => {
                            if d.closed_soon {
                                (unhealthy_retry_delay(d.num_tries), false)
                            } else {
                                (Duration { nanos: 10_000_000_000u128 }, true)
                            }
                        },
                        None => (Duration { nanos: 10_000_000_000u128 }, true),
                    };
                    Some(Redial { info: c, delay, reset_dial_info: healthy })
                } else {
                    None
                }
            },
            None => None,
        };
        self.clean(peer);
        r
    }

    /// Counts a request-response request to `peer`, and a cluster hit when
    /// the peer is in our cluster and not pinned (a pinned peer was counted
    /// already).
    pub fn record_req_res_request(&mut self, peer: u32)
        requires
            old(self).stats.total_req_res_requests < usize::MAX,
            old(self).stats.cluster_hit_count < usize::MAX,
        ensures
            final(self).pool@ == old(self).pool@,
            final(self).stats.total_req_res_requests == old(self).stats.total_req_res_requests + 1,
            final(self).stats.cluster_hit_count == old(self).stats.cluster_hit_count + cluster_hit(old(self).pool@, peer),
    {
        self.stats.total_req_res_requests = self.stats.total_req_res_requests + 1;
        if let Some(info) = self.pool.get(&peer) {
            if info.from_topology && !info.pinned {
                self.stats.cluster_hit_count = self.stats.cluster_hit_count + 1;
            }
        }
    }

    /// A copy of every connection.
    pub fn connections(&self) -> (r: BTreeMap<u32, ConnectionInfo>)
        ensures
            r@ == self.pool@,
    {
        self.pool.clone()
    }

    pub fn get_connection_info(&self, peer: u32) -> (r: Option<ConnectionInfo>)
        ensures
            r == (if self.pool@.contains_key(peer) {
                Some(self.pool@[peer])
            } else {
                None
            }),
    {
        match self.pool.get(&peer) {
            Some(c) => Some(*c),
            None => None,
        }
    }
    /// A topology change to the cluster `peers`: keeps the connections to
    /// peers of the cluster (marking them as from the topology) and the pinned
    /// ones, drops the others, and adds a topology connection to every other
    /// peer of the cluster that the application state knows (`infos`). The
    /// request counters start over.
    pub fn _update_connections(&mut self, peers: &BTreeSet<u32>, infos: &BTreeMap<u32, NodeInfo>, our_index: u32) -> (u: PoolUpdate)
        requires
            infos_wf(infos@),
        ensures
            final(self).pool@ == updated_pool(old(self).pool@, peers@, infos@, our_index),
            u.keep@ == final(self).pool@,
            u.drop@.to_set() == dropped(old(self).pool@, peers@),
            u.drop@.no_duplicates(),
            final(self).stats.total_req_res_requests == 0,
            final(self).stats.cluster_hit_count == 0,
    {
        let ghost pool = self.pool@;
        let ghost r = retained(pool, peers@);
        let ghost d = dropped(pool, peers@);
        let keys = map_keys(&self.pool);
        let mut new_pool: BTreeMap<u32, ConnectionInfo> = BTreeMap::new();
        let mut drop: Vec<u32> = Vec::new();
        let n = keys.len();
        for i in 0..n
            invariant
                n == keys@.len(),
                keys@.to_set() == pool.dom(),
                keys@.no_duplicates(),
                self.pool@ == pool,
                r == retained(pool, peers@),
                d == dropped(pool, peers@),
                forall|k: u32| #[trigger] new_pool@.contains_key(k) <==> (keys@.take(i as int).contains(k) && r.contains_key(k)),
                forall|k: u32| #[trigger] new_pool@.contains_key(k) ==> new_pool@[k] == r[k],
                forall|k: u32| #[trigger] drop@.contains(k) <==> (keys@.take(i as int).contains(k) && d.contains(k)),
                drop@.no_duplicates(),
        {
            let k = keys[i];
            proof {
                assert(keys@.to_set().contains(k));
                assert(keys@.take(i + 1) =~= keys@.take(i as int).push(k));
                assert(!keys@.take(i as int).contains(k)) by {
                    if keys@.take(i as int).contains(k) {
                        let j = choose|j: int| 0 <= j < i && keys@.take(i as int)[j] == k;
                        assert(keys@[j] == keys@[i as int]);
                    }
                }
            }
            let c: ConnectionInfo = match self.pool.get(&k) {
                Some(c) => *c,
                None => { proof { assert(false); } return PoolUpdate { keep: BTreeMap::new(), drop: Vec::new() }; },
            };
            let ghost old_new = new_pool@;
            let ghost old_drop = drop@;
            if peers.contains(&k) {
                new_pool.insert(k, ConnectionInfo { from_topology: true, ..c });
            } else if c.pinned {
                new_pool.insert(k, c);
            } else {
                drop.push(k);
            }
            proof {
                lemma_push_contains(keys@.take(i as int), k);
                assert forall|x: u32| #[trigger] new_pool@.contains_key(x) <==> (keys@.take(i + 1).contains(x) && r.contains_key(x)) by {
                    lemma_push_contains(keys@.take(i as int), k);
                    assert(keys@.take(i + 1).contains(x) <==> (keys@.take(i as int).contains(x) || x == k));
                }
                assert forall|x: u32| #[trigger] drop@.contains(x) <==> (keys@.take(i + 1).contains(x) && d.contains(x)) by {
                    assert(keys@.take(i + 1).contains(x) <==> (keys@.take(i as int).contains(x) || x == k));
                    if drop@ != old_drop {
                        lemma_push_contains(old_drop, k);
                    }
                }
                if drop@ != old_drop {
                    assert(!old_drop.contains(k));
                    lemma_push_no_dup(old_drop, k);
                }
            }
        }
        proof {
            assert(keys@.take(n as int) =~= keys@);
        }
        let members = set_keys(peers);
        let m = members.len();
        let ghost up = updated_pool(pool, peers@, infos@, our_index);
        for j in 0..m
            invariant
                m == members@.len(),
                members@.to_set() == peers@,
                infos_wf(infos@),
                r == retained(pool, peers@),
                up == updated_pool(pool, peers@, infos@, our_index),
                forall|k: u32| #[trigger] new_pool@.contains_key(k) <==> (r.contains_key(k) || (members@.take(j as int).contains(k)
                    && infos@.contains_key(k))),
                forall|k: u32| #[trigger] new_pool@.contains_key(k) ==> new_pool@[k] == up[k],
        {
            let p = members[j];
            proof {
                assert(members@.take(j + 1) =~= members@.take(j as int).push(p));
                assert(members@.to_set().contains(p));
            }
            proof {
                lemma_push_contains(members@.take(j as int), p);
            }
            if !new_pool.contains_key(&p) {
                if let Some(info) = infos.get(&p) {
                    let info = *info;
                    new_pool.insert(
                        p,
                        ConnectionInfo { from_topology: true, pinned: false, node_info: info, connect: info.index < our_index },
                    );
                }
            }
        }
        proof {
            assert(members@.take(m as int) =~= members@);
            assert(new_pool@ =~= up);
            assert(drop@.to_set() =~= d);
        }
        self.pool = new_pool;
        self.stats.total_req_res_requests = 0;
        self.stats.cluster_hit_count = 0;
        PoolUpdate { keep: self.pool.clone(), drop }
    }
    /// A topology change given as the indices the application state gives for
    /// the public keys of the new cluster (`None` for a key it does not know):
    /// the cluster is every known index but our own.
    pub fn update_connections(&mut self, resolved: &Vec<Option<u32>>, infos: &BTreeMap<u32, NodeInfo>, our_index: u32) -> (u: PoolUpdate)
        requires
            infos_wf(infos@),
        ensures
            final(self).pool@ == updated_pool(old(self).pool@, cluster_of(resolved@, our_index), infos@, our_index),
            u.keep@ == final(self).pool@,
            u.drop@.to_set() == dropped(old(self).pool@, cluster_of(resolved@, our_index)),
            u.drop@.no_duplicates(),
            final(self).stats.total_req_res_requests == 0,
            final(self).stats.cluster_hit_count == 0,
    {
        let mut peers: BTreeSet<u32> = BTreeSet::new();
        let n = resolved.len();
        for i in 0..n
            invariant
                n == resolved@.len(),
                forall|k: u32| #[trigger] peers@.contains(k) <==> cluster_of(resolved@.take(i as int), our_index).contains(k),
        {
            proof {
                assert(resolved@.take(i + 1) =~= resolved@.take(i as int).push(resolved@[i as int]));
                assert forall|k: u32| #[trigger] cluster_of(resolved@.take(i + 1), our_index).contains(k) <==> (cluster_of(resolved@.take(i as int), our_index).contains(k)
                    || (resolved@[i as int] == Some(k) && k != our_index)) by {
                    let t = resolved@.take(i as int);
                    let t1 = resolved@.take(i + 1);
                    if cluster_of(t, our_index).contains(k) {
                        let j = choose|j: int| 0 <= j < t.len() && t[j] == Some(k);
                        assert(t1[j] == Some(k));
                    }
                    if resolved@[i as int] == Some(k) && k != our_index {
                        assert(t1[i as int] == Some(k));
                    }
                }
            }
            if let Some(index) = resolved[i] {
                if index != our_index {
                    peers.insert(index);
                }
            }
        }
        proof {
            assert(resolved@.take(n as int) =~= resolved@);
            assert(peers@ =~= cluster_of(resolved@, our_index));
        }
        self._update_connections(&peers, infos, our_index)
    }

    /// The peers a broadcast to `index` goes to: that peer, when it is in our
    /// cluster; `None` when it is not.
    pub fn process_outgoing_broadcast_to(&self, index: u32) -> (r: Option<Vec<ConnectionInfo>>)
        ensures
            r is Some <==> self.pool@.contains_key(index) && self.pool@[index].from_topology,
            r matches Some(v) ==> v@ == seq![self.pool@[index]],
    {
        match self.pool.get(&index) {
            Some(c) => {
                if c.from_topology {
                    let mut v: Vec<ConnectionInfo> = Vec::new();
                    v.push(*c);
                    proof {
                        assert(v@ =~= seq![self.pool@[index]]);
                    }
                    Some(v)
                } else {
                    None
                }
            },
            None => None,
        }
    }
    /// The peers a broadcast filtered by `filter` goes to: the peers of our
    /// cluster that pass the filter; `None` when there are none.
    pub fn process_outgoing_broadcast_filtered<F: Fn(u32) -> bool>(&self, filter: F) -> (r: Option<Vec<ConnectionInfo>>)
        requires
            forall|k: u32| call_requires(filter, (k,)),
        ensures
            exists|ks: Seq<u32>, peers: Seq<ConnectionInfo>|
                {
                    &&& #[trigger] filtered_peers(self.pool@, filter, ks, peers)
                    &&& (r is Some <==> peers.len() > 0)
                    &&& (r matches Some(v) ==> v@ == peers)
                },
    {
        let keys = map_keys(&self.pool);
        let n = keys.len();
        let mut v: Vec<ConnectionInfo> = Vec::new();
        let ghost mut ks: Seq<u32> = Seq::empty();
        for i in 0..n
            invariant
                n == keys@.len(),
                keys@.to_set() == self.pool@.dom(),
                keys@.no_duplicates(),
                forall|k: u32| call_requires(filter, (k,)),
                ks.no_duplicates(),
                ks.len() == v@.len(),
                forall|j: int| 0 <= j < ks.len() ==> keys@.take(i as int).contains(#[trigger] ks[j]),
                forall|j: int|
                    0 <= j < ks.len() ==> self.pool@.contains_key(#[trigger] ks[j]) && self.pool@[ks[j]].from_topology
                        && call_ensures(filter, (ks[j],), true) && v@[j] == self.pool@[ks[j]],
                forall|k: u32|
                    keys@.take(i as int).contains(k) && self.pool@.contains_key(k) && self.pool@[k].from_topology
                        && !(#[trigger] ks.contains(k)) ==> call_ensures(filter, (k,), false),
        {
            let k = keys[i];
            proof {
                assert(keys@.to_set().contains(k));
                assert(keys@.take(i + 1) =~= keys@.take(i as int).push(k));
                lemma_push_contains(keys@.take(i as int), k);
                assert(!keys@.take(i as int).contains(k)) by {
                    if keys@.take(i as int).contains(k) {
                        let j = choose|j: int| 0 <= j < i && keys@.take(i as int)[j] == k;
                        assert(keys@[j] == keys@[i as int]);
                    }
                }
            }
            let c: ConnectionInfo = match self.pool.get(&k) {
                Some(c) => *c,
                None => { proof { assert(false); } return None; },
            };
            let ghost old_ks = ks;
            if c.from_topology && filter(k) {
                v.push(c);
                proof {
                    assert(!ks.contains(k));
                    lemma_push_no_dup(ks, k);
                    ks = ks.push(k);
                }
            }
            proof {
                lemma_push_contains(old_ks, k);
                assert forall|k2: u32|
                    keys@.take(i + 1).contains(k2) && self.pool@.contains_key(k2) && self.pool@[k2].from_topology
                        && !(#[trigger] ks.contains(k2)) implies call_ensures(filter, (k2,), false) by {
                    if k2 != k {
                        assert(keys@.take(i as int).contains(k2));
                        assert(!old_ks.contains(k2));
                    }
                }
                assert forall|j: int| 0 <= j < ks.len() implies keys@.take(i + 1).contains(#[trigger] ks[j]) by {
                    if j < old_ks.len() {
                        assert(ks[j] == old_ks[j]);
                    }
                }
            }
        }
        proof {
            assert(keys@.take(n as int) =~= keys@);
            assert(filtered_peers(self.pool@, filter, ks, v@));
        }
        if v.len() != 0 {
            Some(v)
        } else {
            None
        }
    }

    /// A request to `dst`: when the application state knows the peer, the
    /// request is counted and its connection pinned, and the peer's info is
    /// returned for the request to be sent; otherwise `None`.
    pub fn process_outgoing_request(&mut self, dst: u32, info: Option<NodeInfo>, our_index: u32) -> (r: Option<NodeInfo>)
        requires
            old(self).stats.total_req_res_requests < usize::MAX,
            old(self).stats.cluster_hit_count < usize::MAX,
        ensures
            r == info,
            final(self).pool@ == (match info {
                Some(i) => pinned_pool(old(self).pool@, dst, i, our_index),
                None => old(self).pool@,
            }),
            info is Some ==> final(self).stats.total_req_res_requests == old(self).stats.total_req_res_requests + 1,
            info is Some ==> final(self).stats.cluster_hit_count == old(self).stats.cluster_hit_count + cluster_hit(
                old(self).pool@,
                dst,
            ),
            info is None ==> final(self).stats == old(self).stats,
    {
        match info {
            Some(info) => {
                self.record_req_res_request(dst);
                self.pin_connection(dst, info, our_index);
                Some(info)
            },
            None => None,
        }
    }
}

/// `peers` are the connections, in order, to the peers `ks` of our cluster
/// that passed `filter`, and every other peer of our cluster failed it.
pub open spec fn filtered_peers<F: Fn(u32) -> bool>(pool: Map<u32, ConnectionInfo>, filter: F, ks: Seq<u32>, peers: Seq<ConnectionInfo>) -> bool {
    &&& ks.no_duplicates()
    &&& ks.len() == peers.len()
    &&& forall|j: int|
        0 <= j < ks.len() ==> pool.contains_key(#[trigger] ks[j]) && pool[ks[j]].from_topology && call_ensures(filter, (ks[j],), true)
            && peers[j] == pool[ks[j]]
    &&& forall|k: u32|
        pool.contains_key(k) && pool[k].from_topology && !(#[trigger] ks.contains(k)) ==> call_ensures(filter, (k,), false)
}

/// The cluster named by resolved public keys: every known index but our own.
pub open spec fn cluster_of(resolved: Seq<Option<u32>>, our_index: u32) -> Set<u32> {
    Set::new(|k: u32| k != our_index && exists|j: int| 0 <= j < resolved.len() && resolved[j] == Some(k))
}

/// Every connection of the pool is pinned, or was asked for by the topology.
pub open spec fn pool_wf(pool: Map<u32, ConnectionInfo>) -> bool {
    forall|k: u32| #[trigger] pool.contains_key(k) ==> pool[k].pinned || pool[k].from_topology
}

/// Every operation on the pool keeps each connection pinned or asked for by
/// the topology: pinning, cleaning up, a topology change, and the empty pool.
pub proof fn law_pool_wf_preserved(
    pool: Map<u32, ConnectionInfo>,
    peer: u32,
    info: NodeInfo,
    peers: Set<u32>,
    infos: Map<u32, NodeInfo>,
    our_index: u32,
)
    requires
        pool_wf(pool),
    ensures
        pool_wf(Map::<u32, ConnectionInfo>::empty()),
        pool_wf(pinned_pool(pool, peer, info, our_index)),
        pool_wf(cleaned(pool, peer)),
        pool_wf(updated_pool(pool, peers, infos, our_index)),
{
}

/// A topology change never drops a pinned connection: it stays in the pool,
/// still pinned, and is not among the peers to drop.
pub proof fn law_pinned_survive_topology_change(
    pool: Map<u32, ConnectionInfo>,
    peers: Set<u32>,
    infos: Map<u32, NodeInfo>,
    our_index: u32,
    k: u32,
)
    requires
        pool.contains_key(k),
        pool[k].pinned,
    ensures
        updated_pool(pool, peers, infos, our_index).contains_key(k),
        updated_pool(pool, peers, infos, our_index)[k].pinned,
        updated_pool(pool, peers, infos, our_index)[k].node_info == pool[k].node_info,
        !dropped(pool, peers).contains(k),
{
}

/// On a topology change every connection of the old pool is either kept or
/// dropped, never both, and only connections of the old pool are dropped.
pub proof fn law_keep_and_drop_partition(
    pool: Map<u32, ConnectionInfo>,
    peers: Set<u32>,
    infos: Map<u32, NodeInfo>,
    our_index: u32,
    k: u32,
)
    ensures
        dropped(pool, peers).contains(k) ==> pool.contains_key(k),
        pool.contains_key(k) ==> (updated_pool(pool, peers, infos, our_index).contains_key(k) <==> !dropped(
            pool,
            peers,
        ).contains(k)),
{
}

/// After a topology change the pool holds a connection, asked for by the
/// topology, to every peer of the new cluster that it held before or whose
/// info the application state holds; a new one is dialed by us exactly when
/// the peer's index is below ours, and is not pinned. Every other connection
/// kept is pinned.
pub proof fn law_topology_change_connects_cluster(
    pool: Map<u32, ConnectionInfo>,
    peers: Set<u32>,
    infos: Map<u32, NodeInfo>,
    our_index: u32,
    k: u32,
)
    requires
        infos_wf(infos),
    ensures
        peers.contains(k) && (pool.contains_key(k) || infos.contains_key(k)) ==> {
            &&& updated_pool(pool, peers, infos, our_index).contains_key(k)
            &&& updated_pool(pool, peers, infos, our_index)[k].from_topology
        },
        peers.contains(k) && !pool.contains_key(k) && infos.contains_key(k) ==> {
            &&& updated_pool(pool, peers, infos, our_index)[k].connect == (k < our_index)
            &&& !updated_pool(pool, peers, infos, our_index)[k].pinned
            &&& updated_pool(pool, peers, infos, our_index)[k].node_info == infos[k]
        },
        updated_pool(pool, peers, infos, our_index).contains_key(k) && !peers.contains(k) ==> {
            &&& pool.contains_key(k)
            &&& pool[k].pinned
            &&& updated_pool(pool, peers, infos, our_index)[k] == pool[k]
        },
{
}

/// Pinning a peer that was not pinned, then cleaning it up once its traffic
/// is over, gives back the pool as it was.
pub proof fn law_pin_then_clean_restores(pool: Map<u32, ConnectionInfo>, peer: u32, info: NodeInfo, our_index: u32)
    requires
        pool_wf(pool),
        !(pool.contains_key(peer) && pool[peer].pinned),
    ensures
        cleaned(pinned_pool(pool, peer, info, our_index), peer) == pool,
{
    if pool.contains_key(peer) {
        assert(cleaned(pinned_pool(pool, peer, info, our_index), peer) =~= pool);
    } else {
        assert(cleaned(pinned_pool(pool, peer, info, our_index), peer) =~= pool);
    }
}

/// Pinning a peer with no connection adds a pinned connection that the
/// topology did not ask for, with the peer's info, which this side dials
/// exactly when the peer's index is below ours (the rule for a new
/// connection asked for by the topology as well); pinning a peer with a
/// connection only marks it pinned.
pub proof fn law_pin_dials_lower_index(pool: Map<u32, ConnectionInfo>, peer: u32, info: NodeInfo, our_index: u32)
    ensures
        pinned_pool(pool, peer, info, our_index).contains_key(peer),
        !pool.contains_key(peer) ==> {
            &&& pinned_pool(pool, peer, info, our_index)[peer].connect == (peer < our_index)
            &&& pinned_pool(pool, peer, info, our_index)[peer].pinned
            &&& !pinned_pool(pool, peer, info, our_index)[peer].from_topology
            &&& pinned_pool(pool, peer, info, our_index)[peer].node_info == info
        },
        pool.contains_key(peer) ==> pinned_pool(pool, peer, info, our_index)[peer] == (ConnectionInfo {
            pinned: true,
            ..pool[peer]
        }),
        !pool.contains_key(peer) && info.index == peer ==> pinned_pool(pool, peer, info, our_index)[peer].connect
            == topology_connection(info, our_index).connect,
        forall|k: u32| k != peer ==> #[trigger] pinned_pool(pool, peer, info, our_index).get(k) == pool.get(k),
{
}

/// Pinning is idempotent: pinning a peer twice leaves the pool as pinning it
/// once.
pub proof fn law_pin_idempotent(pool: Map<u32, ConnectionInfo>, peer: u32, info: NodeInfo, our_index: u32)
    ensures
        pinned_pool(pinned_pool(pool, peer, info, our_index), peer, info, our_index) == pinned_pool(
            pool,
            peer,
            info,
            our_index,
        ),
{
    assert(pinned_pool(pinned_pool(pool, peer, info, our_index), peer, info, our_index) =~= pinned_pool(
        pool,
        peer,
        info,
        our_index,
    ));
}

/// The cluster hits never outnumber the requests: counting one more request
/// keeps the hits within the requests.
pub proof fn law_cluster_hits_within_requests(total: int, hits: int, pool: Map<u32, ConnectionInfo>, peer: u32)
    requires
        0 <= hits <= total,
    ensures
        0 <= hits + cluster_hit(pool, peer) <= total + 1,
{
}

} // verus!
