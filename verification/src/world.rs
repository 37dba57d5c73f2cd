use vstd::prelude::*;

use crate::nakamoto_consensus::{initial_chain, NakamotoNodeState};
use crate::peers::PeerSet;
use crate::simple_flooding::{FloodingState, Payload};
use crate::table::Table;
use crate::underlay::{TimeSpan, UnderlayLine, UnderlayMessage, UnderlayNodeId, UnderlayPosition};
use crate::Entity;

verus! {

/// Everything a simulated in-flight message carries: its transport
/// envelope, its trajectory, its flight interval and its payload.
#[derive(Clone, Copy, PartialEq, Eq, Structural, Debug)]
pub struct MessageRecord {
    pub msg: UnderlayMessage,
    pub span: TimeSpan,
    pub line: UnderlayLine,
    pub payload: Payload,
}

/// The entity/component store: every simulated node and in-flight message
/// lives here, addressed by its entity id. A node carries a display tag,
/// a position, a peer set, and per-protocol state; a message carries a
/// `MessageRecord`. The world owns all of it.
pub struct World {
    pub next_id: u64,
    pub node_ids: Table<UnderlayNodeId>,
    pub positions: Table<UnderlayPosition>,
    pub peer_sets: Table<PeerSet>,
    pub consensus: Table<NakamotoNodeState>,
    pub flooding: Table<FloodingState>,
    pub messages: Table<MessageRecord>,
}

impl World {
    /// Every table is well formed, every entity id was allocated, every
    /// node carries all node components, positions stay in the range the
    /// distance computation admits, and every per-node protocol state
    /// satisfies its own invariant.
    pub open spec fn wf(self) -> bool {
        &&& self.node_ids.wf()
        &&& self.positions.wf()
        &&& self.peer_sets.wf()
        &&& self.consensus.wf()
        &&& self.flooding.wf()
        &&& self.messages.wf()
        &&& forall|k: u64| #[trigger] self.node_ids@.dom().contains(k) ==> k < self.next_id
        &&& forall|k: u64| #[trigger] self.messages@.dom().contains(k) ==> k < self.next_id
        &&& self.positions@.dom() =~= self.node_ids@.dom()
        &&& self.peer_sets@.dom() =~= self.node_ids@.dom()
        &&& self.consensus@.dom() =~= self.node_ids@.dom()
        &&& self.flooding@.dom() =~= self.node_ids@.dom()
        &&& forall|k: u64|
            #[trigger] self.node_ids@.dom().contains(k) ==> self.positions@[k].x < 0x8000
                && self.positions@[k].y < 0x8000
        &&& forall|k: u64|
            #[trigger] self.node_ids@.dom().contains(k) ==> self.peer_sets@[k].wf()
                && self.peer_sets@[k].peer_ids().subset_of(self.node_ids@.dom())
        &&& forall|k: u64|
            #[trigger] self.node_ids@.dom().contains(k) ==> self.consensus@[k].inv()
        &&& forall|k: u64| #[trigger] self.node_ids@.dom().contains(k) ==> self.flooding@[k].wf()
    }

    /// Whether `e` names a live node.
    pub open spec fn is_node(self, e: Entity) -> bool {
        self.node_ids@.dom().contains(e.id)
    }

    pub fn new() -> (r: World)
        ensures
            r.wf(),
            r.next_id == 0,
            r.node_ids@.dom() =~= Set::<u64>::empty(),
            r.messages@.dom() =~= Set::<u64>::empty(),
    {
        World {
            next_id: 0,
            node_ids: Table::new(),
            positions: Table::new(),
            peer_sets: Table::new(),
            consensus: Table::new(),
            flooding: Table::new(),
            messages: Table::new(),
        }
    }

    /// Spawn a node with the given tag and position. The node starts with
    /// no peers, the initial consensus state and empty flooding records.
    pub fn spawn_node(&mut self, tag: UnderlayNodeId, pos: UnderlayPosition) -> (r: Entity)
        requires
            old(self).wf(),
            old(self).next_id < u64::MAX,
            pos.x < 0x8000,
            pos.y < 0x8000,
        ensures
            final(self).wf(),
            r.id == old(self).next_id,
            !old(self).node_ids@.dom().contains(r.id),
            !old(self).messages@.dom().contains(r.id),
            final(self).next_id == old(self).next_id + 1,
            final(self).node_ids@ =~= old(self).node_ids@.insert(r.id, tag),
            final(self).positions@ =~= old(self).positions@.insert(r.id, pos),
            final(self).peer_sets@.dom() =~= old(self).peer_sets@.dom().insert(r.id),
            final(self).peer_sets@[r.id].peer_ids() =~= Set::<u64>::empty(),
            forall|k: u64|
                #[trigger] old(self).peer_sets@.dom().contains(k) && k != r.id ==> final(self).peer_sets@[k] == old(self).peer_sets@[k],
            final(self).consensus@.dom() =~= old(self).consensus@.dom().insert(r.id),
            final(self).consensus@[r.id]@ == initial_chain(),
            forall|k: u64|
                #[trigger] old(self).consensus@.dom().contains(k) && k != r.id ==> final(self).consensus@[k] == old(self).consensus@[k],
            final(self).flooding@.dom() =~= old(self).flooding@.dom().insert(r.id),
            forall|k: u64|
                #[trigger] old(self).flooding@.dom().contains(k) && k != r.id ==> final(self).flooding@[k] == old(self).flooding@[k],
            final(self).messages@ == old(self).messages@,
    {
        let id = self.next_id;
        self.next_id = self.next_id + 1;
        self.node_ids.set(id, tag);
        self.positions.set(id, pos);
        self.peer_sets.set(id, PeerSet::new());
        self.consensus.set(id, NakamotoNodeState::new());
        self.flooding.set(id, FloodingState::new());
        Entity { id }
    }

    /// Spawn an in-flight message entity.
    pub fn spawn_message(&mut self, rec: MessageRecord) -> (r: Entity)
        requires
            old(self).wf(),
            old(self).next_id < u64::MAX,
        ensures
            final(self).wf(),
            r.id == old(self).next_id,
            !old(self).messages@.dom().contains(r.id),
            final(self).next_id == old(self).next_id + 1,
            final(self).messages@ =~= old(self).messages@.insert(r.id, rec),
            final(self).node_ids@ == old(self).node_ids@,
            final(self).positions@ == old(self).positions@,
            final(self).peer_sets@ == old(self).peer_sets@,
            final(self).consensus@ == old(self).consensus@,
            final(self).flooding@ == old(self).flooding@,
    {
        let id = self.next_id;
        self.next_id = self.next_id + 1;
        self.messages.set(id, rec);
        Entity { id }
    }

    /// Destroy a message entity; asking for one that is already gone is a
    /// no-op.
    pub fn despawn_message(&mut self, e: Entity) -> (r: Option<MessageRecord>)
        requires
            old(self).wf(),
        ensures
            final(self).wf(),
            final(self).messages@ =~= old(self).messages@.remove(e.id),
            r is Some <==> old(self).messages@.dom().contains(e.id),
            r is Some ==> r->0 == old(self).messages@[e.id],
            final(self).node_ids@ == old(self).node_ids@,
            final(self).positions@ == old(self).positions@,
            final(self).peer_sets@ == old(self).peer_sets@,
            final(self).consensus@ == old(self).consensus@,
            final(self).flooding@ == old(self).flooding@,
            final(self).next_id == old(self).next_id,
    {
        self.messages.remove(e.id)
    }

    /// The live node entities, ascending by id: the stable order queries
    /// see.
    pub fn node_entities(&self) -> (r: Vec<Entity>)
        requires
            self.wf(),
        ensures
            forall|i: int| 0 <= i < r@.len() ==> self.is_node(#[trigger] r@[i]),
            forall|e: Entity| self.is_node(e) ==> r@.contains(e),
            r@.no_duplicates(),
            r@.len() == self.node_ids@.dom().len(),
            r@.len() == self.node_ids.key_seq().len(),
            forall|i: int| 0 <= i < r@.len() ==> (#[trigger] r@[i]).id == self.node_ids.key_seq()[i],
    {
        proof {
            self.node_ids.lemma_keys_no_duplicates();
            self.node_ids.key_seq().unique_seq_to_set();
        }
        let n = self.node_ids.len();
        let mut r: Vec<Entity> = Vec::new();
        let mut i: usize = 0;
        while i < n
            invariant
                self.wf(),
                n == self.node_ids.key_seq().len(),
                0 <= i <= n,
                r@.len() == i,
                forall|j: int| 0 <= j < i ==> (#[trigger] r@[j]).id == self.node_ids.key_seq()[j],
            decreases n - i,
        {
            let id = self.node_ids.key_at(i);
            r.push(Entity { id });
            i += 1;
        }
        proof {
            self.node_ids.lemma_keys_no_duplicates();
            let ks = self.node_ids.key_seq();
            assert forall|i2: int| 0 <= i2 < r@.len() implies self.is_node(#[trigger] r@[i2]) by {
                assert(r@[i2].id == ks[i2]);
                assert(ks.to_set().contains(ks[i2]));
            }
            assert forall|e: Entity| self.is_node(e) implies r@.contains(e) by {
                assert(ks.to_set().contains(e.id));
                let j = choose|j: int| 0 <= j < ks.len() && ks[j] == e.id;
                assert(r@[j] == e);
            }
            assert forall|a: int, b: int| 0 <= a < b < r@.len() implies r@[a] != r@[b] by {
                assert(r@[a].id == ks[a]);
                assert(r@[b].id == ks[b]);
            }
        }
        r
    }
}

} // verus!
