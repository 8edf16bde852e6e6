//! The broadcast service's view of the peers: which it sends to, how that
//! set follows the topology, and which peers a broadcast reaches.
use vstd::prelude::*;
use std::collections::BTreeSet;
use crate::logical_pool::{lemma_push_contains, set_keys};

verus! {

broadcast use vstd::std_specs::btree::group_btree_axioms;

/// The peers a broadcast goes to.
pub struct BroadcastPeers {
    pub peers: BTreeSet<u32>,
}

/// A change of the peers: the peers to keep, and those to disconnect from.
pub struct BroadcastUpdate {
    pub keep: BTreeSet<u32>,
    pub disconnect: BTreeSet<u32>,
}

impl BroadcastPeers {
    pub fn new() -> (b: BroadcastPeers)
        ensures
            b.peers@ == Set::<u32>::empty(),
    {
        BroadcastPeers { peers: BTreeSet::new() }
    }

    pub fn contains(&self, peer: u32) -> (r: bool)
        ensures
            r == self.peers@.contains(peer),
    {
        self.peers.contains(&peer)
    }

    /// The topology now names `peers`: they are kept, and every former peer
    /// not among them is disconnected from.
    pub fn update_connections(&mut self, peers: BTreeSet<u32>) -> (u: BroadcastUpdate)
        ensures
            final(self).peers@ == peers@,
            u.keep@ == peers@,
            u.disconnect@ == old(self).peers@.difference(peers@),
    {
        let former = set_keys(&self.peers);
        let n = former.len();
        let mut disconnect: BTreeSet<u32> = BTreeSet::new();
        for i in 0..n
            invariant
                n == former@.len(),
                former@.to_set() == self.peers@,
                forall|k: u32| #[trigger] disconnect@.contains(k) <==> former@.take(i as int).contains(k) && !peers@.contains(k),
        {
            let k = former[i];
            proof {
                assert(former@.take(i + 1) =~= former@.take(i as int).push(k));
                lemma_push_contains(former@.take(i as int), k);
            }
            if !peers.contains(&k) {
                disconnect.insert(k);
            }
        }
        proof {
            assert(former@.take(n as int) =~= former@);
            assert forall|k: u32| #[trigger] disconnect@.contains(k) <==> self.peers@.difference(peers@).contains(k) by {
                if self.peers@.contains(k) {
                    assert(former@.to_set().contains(k));
                }
            }
            assert(disconnect@ =~= self.peers@.difference(peers@));
        }
        self.peers = peers.clone();
        BroadcastUpdate { keep: peers, disconnect }
    }

    /// The peers a broadcast filtered by `filter` goes to; `None` when the
    /// filter passes no peer (a broadcast without a set of peers goes to
    /// every connected peer).
    pub fn targets_filtered<F: Fn(u32) -> bool>(&self, filter: F) -> (r: Option<BTreeSet<u32>>)
        requires
            forall|k: u32| call_requires(filter, (k,)),
        ensures
            r matches Some(s) ==> !s@.is_empty(),
            r matches Some(s) ==> forall|k: u32| #[trigger] s@.contains(k) ==> self.peers@.contains(k) && call_ensures(filter, (k,), true),
            r matches Some(s) ==> forall|k: u32| self.peers@.contains(k) && !(#[trigger] s@.contains(k)) ==> call_ensures(filter, (k,), false),
            r is None ==> forall|k: u32| #[trigger] self.peers@.contains(k) ==> call_ensures(filter, (k,), false),
    {
        let all = set_keys(&self.peers);
        let n = all.len();
        let mut chosen: BTreeSet<u32> = BTreeSet::new();
        for i in 0..n
            invariant
                n == all@.len(),
                all@.to_set() == self.peers@,
                forall|k: u32| call_requires(filter, (k,)),
                forall|k: u32| #[trigger] chosen@.contains(k) ==> all@.take(i as int).contains(k) && call_ensures(filter, (k,), true),
                forall|k: u32| all@.take(i as int).contains(k) && !(#[trigger] chosen@.contains(k)) ==> call_ensures(filter, (k,), false),
        {
            let k = all[i];
            proof {
                assert(all@.take(i + 1) =~= all@.take(i as int).push(k));
                lemma_push_contains(all@.take(i as int), k);
            }
            if filter(k) {
                chosen.insert(k);
            }
        }
        proof {
            assert(all@.take(n as int) =~= all@);
            assert forall|k: u32| #[trigger] chosen@.contains(k) implies self.peers@.contains(k) by {
                assert(all@.take(n as int).contains(k));
                assert(all@.contains(k));
                assert(all@.to_set().contains(k));
            }
            assert forall|k: u32| #[trigger] self.peers@.contains(k) && !chosen@.contains(k) implies call_ensures(
                filter,
                (k,),
                false,
            ) by {
                assert(all@.to_set().contains(k));
            }
        }
        if chosen.is_empty() {
            None
        } else {
            Some(chosen)
        }
    }

    /// The peers a broadcast to `index` goes to: that peer alone.
    pub fn targets_index(index: u32) -> (r: Option<BTreeSet<u32>>)
        ensures
            r matches Some(s) && s@ == set![index],
    {
        let mut s: BTreeSet<u32> = BTreeSet::new();
        s.insert(index);
        proof {
            assert(s@ =~= set![index]);
        }
        Some(s)
    }
}

} // verus!
