use vstd::prelude::*;

use crate::nakamoto_consensus::Block;
use crate::table::Table;

verus! {

/// What an in-flight message carries: a consensus block, or a plain
/// datum for the generic flooding protocol.
#[derive(Clone, Copy, PartialEq, Eq, Structural, Debug)]
pub enum Payload {
    BlockPayload(Block),
    Datum(u64),
}

/// Per-node flooding bookkeeping: for each peer, the items known to have
/// been sent to or received from it (so they are never sent again), and
/// the items this node itself has seen.
pub struct FloodingState {
    peer_haves: Table<Vec<Payload>>,
    own_haves: Vec<Payload>,
}

impl FloodingState {
    pub closed spec fn wf(self) -> bool {
        self.peer_haves.wf()
    }

    /// Whether `item` is recorded as already exchanged with this peer.
    pub open spec fn spec_knows(self, peer_id: u64, item: Payload) -> bool {
        self.ledger().dom().contains(peer_id) && self.ledger()[peer_id]@.contains(item)
    }

    /// The per-peer ledgers.
    pub closed spec fn ledger(self) -> Map<u64, Vec<Payload>> {
        self.peer_haves@
    }

    /// The items this node has seen.
    pub closed spec fn haves(self) -> Seq<Payload> {
        self.own_haves@
    }

    pub fn new() -> (r: FloodingState)
        ensures
            r.wf(),
            r.ledger() =~= Map::<u64, Vec<Payload>>::empty(),
            r.haves() =~= Seq::<Payload>::empty(),
    {
        FloodingState { peer_haves: Table::new(), own_haves: Vec::new() }
    }

    pub fn knows(&self, peer_id: u64, item: Payload) -> (r: bool)
        requires
            self.wf(),
        ensures
            r == self.spec_knows(peer_id, item),
    {
        match self.peer_haves.get(peer_id) {
            None => false,
            Some(v) => contains_payload(v, item),
        }
    }

    /// Record that `item` has been exchanged with `peer_id`.
    pub fn record(&mut self, peer_id: u64, item: Payload)
        requires
            old(self).wf(),
        ensures
            final(self).wf(),
            final(self).spec_knows(peer_id, item),
            forall|p: u64, it: Payload|
                old(self).spec_knows(p, it) ==> final(self).spec_knows(p, it),
            forall|p: u64, it: Payload|
                final(self).spec_knows(p, it) ==> old(self).spec_knows(p, it) || (p == peer_id
                    && it == item),
            final(self).haves() == old(self).haves(),
    {
        let existing = self.peer_haves.remove(peer_id);
        match existing {
            None => {
                let mut v: Vec<Payload> = Vec::new();
                v.push(item);
                self.peer_haves.set(peer_id, v);
                proof {
                    assert(self.ledger()[peer_id]@[0] == item);
                    assert(self.ledger()[peer_id]@.contains(item));
                    assert forall|p: u64, it: Payload|
                        old(self).spec_knows(p, it) implies final(self).spec_knows(p, it) by {
                        assert(p != peer_id);
                        assert(self.ledger()[p] == old(self).ledger()[p]);
                    }
                    assert forall|p: u64, it: Payload|
                        final(self).spec_knows(p, it) implies old(self).spec_knows(p, it) || (p
                        == peer_id && it == item) by {
                        if p == peer_id && it != item {
                            let k = choose|k: int|
                                0 <= k < self.ledger()[p]@.len() && self.ledger()[p]@[k] == it;
                        }
                    }
                }
            },
            Some(mut v) => {
                let ghost vs = v@;
                v.push(item);
                self.peer_haves.set(peer_id, v);
                proof {
                    assert(self.ledger()[peer_id]@ == vs.push(item));
                    assert(self.ledger()[peer_id]@[vs.len() as int] == item);
                    assert(self.ledger()[peer_id]@.contains(item));
                    assert forall|p: u64, it: Payload|
                        old(self).spec_knows(p, it) implies final(self).spec_knows(p, it) by {
                        if p == peer_id {
                            let k = choose|k: int|
                                0 <= k < old(self).ledger()[p]@.len() && old(self).ledger()[p]@[k]
                                    == it;
                            assert(old(self).ledger()[p]@ == vs);
                            assert(self.ledger()[p]@[k] == it);
                            assert(self.ledger()[p]@.contains(it));
                        } else {
                            assert(self.ledger()[p] == old(self).ledger()[p]);
                        }
                    }
                    assert forall|p: u64, it: Payload|
                        final(self).spec_knows(p, it) implies old(self).spec_knows(p, it) || (p
                        == peer_id && it == item) by {
                        if p == peer_id && final(self).spec_knows(p, it) && it != item {
                            let k = choose|k: int|
                                0 <= k < self.ledger()[p]@.len() && self.ledger()[p]@[k] == it;
                            assert(vs.push(item)[k] == it);
                            assert(k < vs.len());
                            assert(vs[k] == it);
                        }
                    }
                }
            },
        }
    }

    /// Record that this node itself has seen `item`.
    pub fn record_own(&mut self, item: Payload)
        requires
            old(self).wf(),
        ensures
            final(self).wf(),
            final(self).haves() == old(self).haves().push(item),
            final(self).ledger() == old(self).ledger(),
    {
        self.own_haves.push(item);
    }

    /// The items this node has seen, as a vector.
    pub fn haves_vec(&self) -> (r: Vec<Payload>)
        ensures
            r@ == self.haves(),
    {
        let n = self.own_haves.len();
        let mut r: Vec<Payload> = Vec::new();
        let mut i: usize = 0;
        while i < n
            invariant
                n == self.own_haves@.len(),
                0 <= i <= n,
                r@ =~= self.own_haves@.subrange(0, i as int),
            decreases n - i,
        {
            r.push(self.own_haves[i]);
            proof {
                assert(r@ =~= self.own_haves@.subrange(0, i as int + 1));
            }
            i += 1;
        }
        proof {
            assert(self.own_haves@.subrange(0, n as int) =~= self.own_haves@);
        }
        r
    }

    pub fn has_seen(&self, item: Payload) -> (r: bool)
        ensures
            r == self.haves().contains(item),
    {
        contains_payload(&self.own_haves, item)
    }

    /// Drop all bookkeeping for a removed peer, so a later re-add starts
    /// fresh.
    pub fn forget_peer(&mut self, peer_id: u64)
        requires
            old(self).wf(),
        ensures
            final(self).wf(),
            final(self).ledger() =~= old(self).ledger().remove(peer_id),
            final(self).haves() == old(self).haves(),
    {
        self.peer_haves.remove(peer_id);
    }
}

/// Linear membership test over a payload vector.
pub fn contains_payload(v: &Vec<Payload>, item: Payload) -> (r: bool)
    ensures
        r == v@.contains(item),
{
    let n = v.len();
    let mut i: usize = 0;
    while i < n
        invariant
            n == v@.len(),
            0 <= i <= n,
            forall|j: int| 0 <= j < i ==> v@[j] != item,
        decreases n - i,
    {
        if v[i] == item {
            assert(v@.contains(item));
            return true;
        }
        i += 1;
    }
    proof {
        if v@.contains(item) {
            let j = choose|j: int| 0 <= j < v@.len() && v@[j] == item;
            assert(false);
        }
    }
    false
}

} // verus!
