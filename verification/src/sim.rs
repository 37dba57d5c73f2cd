use vstd::prelude::*;

use crate::nakamoto_consensus::{chain_height, spec_register, Block};
use crate::peers::{NodeEvent, PeerSetUpdate};
use crate::rng::{new_rng, rng_next_u64, rng_range};
use crate::scheduler::{Command, EventQueue, SimEvent, TimedEvent};
use crate::simple_flooding::Payload;
use crate::underlay::{
    arrival_time, SimSeconds, TimeSpan, UnderlayLine, UnderlayMessage, UnderlayNodeId,
    UnderlayPosition, FLIGHT_PER_SECOND, NET_MAX_X, NET_MAX_Y,
};
use crate::world::{MessageRecord, World};
use crate::Entity;

verus! {

/// How many log lines are kept.
pub const LOG_CAP: usize = 12;

/// How many events one `catch_up` call will process at most; a guard
/// against a runaway event cascade, far beyond any simulated load.
pub const STEP_BUDGET: u64 = 1000000;

/// A structured entry of the message log.
#[derive(Clone, Copy, PartialEq, Eq, Structural, Debug)]
pub enum LogEntry {
    Sent(Entity, Entity),
    Received(Entity, Entity),
    Poked(Entity),
    CommandFailed,
}

/// The protocols that can be installed on a simulation; each reacts to
/// message arrival, pokes, and peer-set changes for every node.
#[derive(Clone, Copy, PartialEq, Eq, Structural, Debug)]
pub enum ProtocolKind {
    NakamotoConsensus,
    SimpleFlooding,
}

/// Tip heights never regress: every node known to `w1` is still known to
/// `w2`, with a best tip at least as high.
pub open spec fn tips_advance(w1: World, w2: World) -> bool {
    forall|k: u64|
        #[trigger] w1.consensus@.dom().contains(k) ==> w2.consensus@.dom().contains(k)
            && chain_height(w1.consensus@[k]@, w1.consensus@[k]@.tip) <= chain_height(
            w2.consensus@[k]@,
            w2.consensus@[k]@.tip,
        )
}

/// One deterministic virtual-time simulation: the world of entities, the
/// event queue, the clock, the generator all randomness is drawn from,
/// a short log, and the installed protocols.
pub struct Simulation {
    pub world: World,
    pub queue: EventQueue,
    pub time_now: SimSeconds,
    pub rng: rand::rngs::ThreadRng,
    pub message_log: Vec<(SimSeconds, LogEntry)>,
    pub protocols: Vec<ProtocolKind>,
}

impl Simulation {
    /// The world is well formed, the queue ordered, and nothing pending
    /// is due in the past.
    pub open spec fn wf(self) -> bool {
        &&& self.world.wf()
        &&& self.queue.wf()
        &&& forall|i: int|
            0 <= i < self.queue.view_seq().len() ==> (#[trigger] self.queue.view_seq()[i]).time
                >= self.time_now
    }

    pub fn new() -> (r: Simulation)
        ensures
            r.wf(),
            r.time_now == 0,
            r.world.next_id == 0,
            r.world.node_ids@.dom() =~= Set::<u64>::empty(),
            r.world.messages@.dom() =~= Set::<u64>::empty(),
            r.queue.view_seq() =~= Seq::<crate::scheduler::TimedEvent>::empty(),
            r.queue.spec_next_seq() == 0,
            r.message_log@ =~= Seq::<(SimSeconds, LogEntry)>::empty(),
            r.protocols@ =~= Seq::<ProtocolKind>::empty(),
    {
        Simulation {
            world: World::new(),
            queue: EventQueue::new(),
            time_now: 0,
            rng: new_rng(),
            message_log: Vec::new(),
            protocols: Vec::new(),
        }
    }

    /// The current virtual time.
    pub fn now(&self) -> (r: SimSeconds)
        ensures
            r == self.time_now,
    {
        self.time_now
    }

    /// Install a protocol: from now on it is dispatched on every node
    /// event, independently of the other installed protocols.
    pub fn install_protocol(&mut self, p: ProtocolKind)
        ensures
            final(self).protocols@ == old(self).protocols@.push(p),
            final(self).world == old(self).world,
            final(self).queue == old(self).queue,
            final(self).time_now == old(self).time_now,
    {
        self.protocols.push(p);
    }

    fn log(&mut self, t: SimSeconds, entry: LogEntry)
        ensures
            final(self).message_log@.len() <= LOG_CAP,
            final(self).message_log@.len() > 0 && final(self).message_log@[0] == (t, entry),
            final(self).world == old(self).world,
            final(self).queue == old(self).queue,
            final(self).time_now == old(self).time_now,
            final(self).protocols == old(self).protocols,
    {
        self.message_log.insert(0, (t, entry));
        self.message_log.truncate(LOG_CAP);
    }

    /// Enqueue an event no earlier than the current clock. When the
    /// scheduler has handed out every rank (a machine limit no simulated
    /// run reaches), the event is dropped instead.
    pub fn schedule(&mut self, time_due: SimSeconds, event: SimEvent)
        requires
            old(self).wf(),
            time_due >= old(self).time_now,
        ensures
            final(self).wf(),
            final(self).world == old(self).world,
            final(self).time_now == old(self).time_now,
            final(self).protocols == old(self).protocols,
            final(self).queue.view_seq().len() <= old(self).queue.view_seq().len() + 1,
            forall|i: int|
                0 <= i < final(self).queue.view_seq().len() ==> (#[trigger] final(self).queue.view_seq()[i]).event == event || old(self).queue.view_seq().contains(
                    final(self).queue.view_seq()[i],
                ),
            old(self).queue.spec_next_seq() == u64::MAX ==> final(self).queue == old(self).queue,
            old(self).queue.spec_next_seq() < u64::MAX ==> {
                &&& final(self).queue.spec_next_seq() == old(self).queue.spec_next_seq() + 1
                &&& exists|i: int|
                    0 <= i <= old(self).queue.view_seq().len() && final(self).queue.view_seq()
                        == old(self).queue.view_seq().insert(
                        i,
                        TimedEvent { time: time_due, seq: old(self).queue.spec_next_seq(), event },
                    ) && (forall|j: int|
                        0 <= j < i ==> old(self).queue.view_seq()[j].time <= time_due) && (
                    forall|j: int|
                        i <= j < old(self).queue.view_seq().len() ==> old(self).queue.view_seq()[j].time > time_due)
                &&& exists|i: int|
                    0 <= i < final(self).queue.view_seq().len() && final(self).queue.view_seq()[i]
                        == (TimedEvent {
                        time: time_due,
                        seq: old(self).queue.spec_next_seq(),
                        event,
                    })
            },
    {
        if self.queue.ranks_used() == u64::MAX {
            proof {
                assert forall|i: int|
                    0 <= i < self.queue.view_seq().len() implies (
                #[trigger] self.queue.view_seq()[i]).event == event
                    || old(self).queue.view_seq().contains(self.queue.view_seq()[i]) by {
                    assert(old(self).queue.view_seq()[i] == self.queue.view_seq()[i]);
                }
            }
            return ;
        }
        let ghost qs = self.queue.view_seq();
        self.queue.push(time_due, event);
        proof {
            let i = choose|i: int|
                0 <= i <= qs.len() && self.queue.view_seq() == qs.insert(
                    i,
                    TimedEvent {
                        time: time_due,
                        seq: old(self).queue.spec_next_seq(),
                        event,
                    },
                ) && (forall|j: int| 0 <= j < i ==> qs[j].time <= time_due) && (forall|j: int|
                i <= j < qs.len() ==> qs[j].time > time_due);
            qs.insert_ensures(
                i,
                TimedEvent {
                    time: time_due,
                    seq: old(self).queue.spec_next_seq(),
                    event,
                },
            );
            assert(self.queue.view_seq()[i] == (TimedEvent {
                time: time_due,
                seq: old(self).queue.spec_next_seq(),
                event,
            }));
            assert forall|a: int| 0 <= a < self.queue.view_seq().len() implies (#[trigger] self.queue.view_seq()[a]).time
                >= self.time_now by {
                if a < i {
                    assert(self.queue.view_seq()[a] == qs[a]);
                    assert(qs.contains(qs[a]));
                } else if a > i {
                    let ja = a - 1;
                    assert(qs.insert(
                        i,
                        TimedEvent {
                            time: time_due,
                            seq: old(self).queue.spec_next_seq(),
                            event,
                        },
                    )[ja + 1] == qs[ja]);
                }
            }
            assert forall|a: int| 0 <= a < self.queue.view_seq().len() implies (#[trigger] self.queue.view_seq()[a]).event
                == event || qs.contains(self.queue.view_seq()[a]) by {
                if a < i {
                    assert(self.queue.view_seq()[a] == qs[a]);
                    assert(qs.contains(qs[a]));
                } else if a > i {
                    let ja = a - 1;
                    assert(qs.insert(
                        i,
                        TimedEvent {
                            time: time_due,
                            seq: old(self).queue.spec_next_seq(),
                            event,
                        },
                    )[ja + 1] == qs[ja]);
                    assert(qs.contains(qs[ja]));
                }
            }
        }
    }

    /// Execute a command at the current virtual instant (when the
    /// simulation next catches up).
    pub fn do_now(&mut self, cmd: Command)
        requires
            old(self).wf(),
        ensures
            final(self).wf(),
            final(self).world == old(self).world,
            final(self).time_now == old(self).time_now,
            final(self).protocols == old(self).protocols,
            old(self).queue.spec_next_seq() == u64::MAX ==> final(self).queue == old(self).queue,
            old(self).queue.spec_next_seq() < u64::MAX ==> exists|i: int|
                0 <= i < final(self).queue.view_seq().len() && final(self).queue.view_seq()[i]
                    == (TimedEvent {
                    time: old(self).time_now,
                    seq: old(self).queue.spec_next_seq(),
                    event: SimEvent::Command(cmd),
                }),
    {
        let t = self.time_now;
        self.schedule(t, SimEvent::Command(cmd));
    }

    /// Spawn a node at a random position within the underlay bounds, with
    /// a random display tag.
    pub fn spawn_random_node(&mut self) -> (r: Entity)
        requires
            old(self).wf(),
            old(self).world.next_id < u64::MAX,
        ensures
            final(self).wf(),
            final(self).world.is_node(r),
            r.id == old(self).world.next_id,
            !old(self).world.node_ids@.dom().contains(r.id),
            final(self).world.node_ids@.dom() =~= old(self).world.node_ids@.dom().insert(r.id),
            tips_advance(old(self).world, final(self).world),
            final(self).world.messages@ == old(self).world.messages@,
            final(self).queue == old(self).queue,
            final(self).time_now == old(self).time_now,
            final(self).protocols == old(self).protocols,
            10 <= final(self).world.positions@[r.id].x <= NET_MAX_X - 10,
            10 <= final(self).world.positions@[r.id].y <= NET_MAX_Y - 10,
    {
        let tag = UnderlayNodeId(rng_next_u64(&mut self.rng));
        let buffer: u64 = 10;
        let x = rng_range(&mut self.rng, buffer, (NET_MAX_X as u64) - buffer + 1) as u32;
        let y = rng_range(&mut self.rng, buffer, (NET_MAX_Y as u64) - buffer + 1) as u32;
        self.world.spawn_node(tag, UnderlayPosition { x, y })
    }

    /// Send a message now: it arrives after a flight time derived from
    /// the underlay distance between the two nodes. Returns whether it
    /// could be sent (entity ids or scheduler ranks may run out, a
    /// machine limit).
    pub fn send_message(&mut self, source: Entity, dest: Entity, payload: Payload) -> (sent: bool)
        requires
            old(self).wf(),
            old(self).world.is_node(source),
            old(self).world.is_node(dest),
        ensures
            final(self).wf(),
            final(self).world.node_ids@ == old(self).world.node_ids@,
            final(self).world.positions@ == old(self).world.positions@,
            final(self).world.peer_sets@ == old(self).world.peer_sets@,
            final(self).world.consensus@ == old(self).world.consensus@,
            final(self).world.flooding@ == old(self).world.flooding@,
            final(self).time_now == old(self).time_now,
            final(self).protocols == old(self).protocols,
            no_message_revival(old(self).world, final(self).world),
            old(self).world.next_id < u64::MAX && old(self).queue.spec_next_seq() < u64::MAX
                ==> sent,
            sent ==> exists|k: u64|
                {
                    &&& k == old(self).world.next_id
                    &&& !old(self).world.messages@.dom().contains(k)
                    &&& final(self).world.next_id == old(self).world.next_id + 1
                    &&& final(self).world.messages@.dom() =~= old(self).world.messages@.dom().insert(k)
                    &&& (#[trigger] final(self).world.messages@[k]).msg == (UnderlayMessage {
                        source,
                        dest,
                    })
                    &&& final(self).world.messages@[k].payload == payload
                    &&& final(self).world.messages@[k].span.start == old(self).time_now
                    &&& final(self).world.messages@[k].line == (UnderlayLine {
                        start: old(self).world.positions@[source.id],
                        end: old(self).world.positions@[dest.id],
                    })
                    &&& exists|d: int|
                        0 <= d && #[trigger] (d * d) <= crate::underlay::spec_dist2(
                            old(self).world.positions@[source.id],
                            old(self).world.positions@[dest.id],
                        ) < (d + 1) * (d + 1) && final(self).world.messages@[k].span.end == (
                        if old(self).time_now + d / (FLIGHT_PER_SECOND as int) <= u64::MAX {
                            old(self).time_now + d / (FLIGHT_PER_SECOND as int)
                        } else {
                            u64::MAX as int
                        })
                    &&& exists|i: int|
                        0 <= i < final(self).queue.view_seq().len() && final(self).queue.view_seq()[i] == (TimedEvent {
                            time: final(self).world.messages@[k].span.end,
                            seq: old(self).queue.spec_next_seq(),
                            event: SimEvent::MessageArrived(Entity { id: k }),
                        })
                    &&& forall|k2: u64|
                        #[trigger] old(self).world.messages@.dom().contains(k2) ==> final(self).world.messages@[k2] == old(self).world.messages@[k2]
                },
            !sent ==> final(self).world.messages@ == old(self).world.messages@ && final(self).queue == old(self).queue && final(self).world.next_id == old(self).world.next_id,
    {
        if self.world.next_id == u64::MAX || self.queue.ranks_used() == u64::MAX {
            return false;
        }
        let pos_source = match self.world.positions.get(source.id) {
            Some(p) => *p,
            None => {
                proof {
                    assert(self.world.positions@.dom().contains(source.id));
                    assert(false);
                }
                return false;
            },
        };
        let pos_dest = match self.world.positions.get(dest.id) {
            Some(p) => *p,
            None => {
                proof {
                    assert(self.world.positions@.dom().contains(dest.id));
                    assert(false);
                }
                return false;
            },
        };
        let dist = UnderlayPosition::distance(pos_source, pos_dest);
        let start_time = self.time_now;
        let end_time = arrival_time(start_time, dist);
        let rec = MessageRecord {
            msg: UnderlayMessage { source, dest },
            span: TimeSpan { start: start_time, end: end_time },
            line: UnderlayLine { start: pos_source, end: pos_dest },
            payload,
        };
        let ent = self.world.spawn_message(rec);
        self.log(start_time, LogEntry::Sent(source, dest));
        self.schedule(end_time, SimEvent::MessageArrived(ent));
        proof {
            let k = ent.id;
            assert(!old(self).world.messages@.dom().contains(k) && self.world.messages@.dom()
                =~= old(self).world.messages@.dom().insert(k) && self.world.messages@[k].msg == (
            UnderlayMessage { source, dest }) && self.world.messages@[k].payload == payload && (
            forall|k2: u64|
                #[trigger] old(self).world.messages@.dom().contains(k2)
                    ==> self.world.messages@[k2] == old(self).world.messages@[k2]));
            assert(self.world.messages@[k].span.start == old(self).time_now);
            assert(self.world.messages@[k].line == (UnderlayLine {
                start: old(self).world.positions@[source.id],
                end: old(self).world.positions@[dest.id],
            }));
            assert(0 <= dist as int && (dist as int) * (dist as int) <= crate::underlay::spec_dist2(
                old(self).world.positions@[source.id],
                old(self).world.positions@[dest.id],
            ) < (dist as int + 1) * (dist as int + 1) && self.world.messages@[k].span.end == (
            if old(self).time_now + (dist as int) / (FLIGHT_PER_SECOND as int) <= u64::MAX {
                old(self).time_now + (dist as int) / (FLIGHT_PER_SECOND as int)
            } else {
                u64::MAX as int
            }));
        }
        true
    }
}


/// Message entities are never revived: the id counter only grows, and an
/// id below the old watermark that named no message then names none now.
/// A despawned message entity therefore stays gone.
pub open spec fn no_message_revival(w1: World, w2: World) -> bool {
    &&& w2.next_id >= w1.next_id
    &&& forall|k: u64|
        k < w1.next_id && !w1.messages@.dom().contains(k) ==> !(
        #[trigger] w2.messages@.dom().contains(k))
}

/// Revival-freedom is transitive across handler steps.
pub proof fn lemma_revival_trans(w1: World, w2: World, w3: World)
    requires
        no_message_revival(w1, w2),
        no_message_revival(w2, w3),
    ensures
        no_message_revival(w1, w3),
{
    assert forall|k: u64|
        k < w1.next_id && !w1.messages@.dom().contains(k) implies !(
    #[trigger] w3.messages@.dom().contains(k)) by {
        assert(!w2.messages@.dom().contains(k));
    }
}

/// Tip advancement is transitive across handler steps.
pub proof fn lemma_tips_trans(w1: World, w2: World, w3: World)
    requires
        tips_advance(w1, w2),
        tips_advance(w2, w3),
    ensures
        tips_advance(w1, w3),
{
    assert forall|k: u64| #[trigger] w1.consensus@.dom().contains(k) implies w3.consensus@.dom().contains(k)
        && chain_height(w1.consensus@[k]@, w1.consensus@[k]@.tip) <= chain_height(
        w3.consensus@[k]@,
        w3.consensus@[k]@.tip,
    ) by {
        assert(w2.consensus@.dom().contains(k));
    }
}

impl Simulation {
    /// Frame facts every node-event handler maintains.
    pub open spec fn handler_frame(pre: Simulation, post: Simulation) -> bool {
        &&& post.wf()
        &&& tips_advance(pre.world, post.world)
        &&& no_message_revival(pre.world, post.world)
        &&& post.time_now == pre.time_now
        &&& post.protocols == pre.protocols
        &&& post.world.node_ids@ == pre.world.node_ids@
    }

    /// Epidemic broadcast of one item: schedule it toward every current
    /// peer of `node` not already recorded as having it, and record each
    /// send first. The bookkeeping makes flooding idempotent: repeating
    /// the call for the same item sends nothing, so each peer edge
    /// carries at most one send of a given item.
    pub fn flood(&mut self, node: Entity, item: Payload)
        requires
            old(self).wf(),
        ensures
            Simulation::handler_frame(*old(self), *final(self)),
            final(self).world.consensus@ == old(self).world.consensus@,
            final(self).world.peer_sets@ == old(self).world.peer_sets@,
            final(self).world.positions@ == old(self).world.positions@,
            // afterwards, every peer is recorded as having the item
            old(self).world.is_node(node) ==> forall|p: u64|
                old(self).world.peer_sets@[node.id].peer_ids().contains(p) ==> final(self).world.flooding@[node.id].spec_knows(p, item),
            // bookkeeping changes touch this node and this item only
            forall|k: u64|
                #[trigger] old(self).world.flooding@.dom().contains(k) && k != node.id ==> final(self).world.flooding@[k] == old(self).world.flooding@[k],
            old(self).world.is_node(node) ==> {
                &&& final(self).world.flooding@[node.id].haves() == old(self).world.flooding@[node.id].haves()
                &&& forall|p: u64, it: Payload|
                    old(self).world.flooding@[node.id].spec_knows(p, it) ==> final(self).world.flooding@[node.id].spec_knows(p, it)
                &&& forall|p: u64, it: Payload|
                    final(self).world.flooding@[node.id].spec_knows(p, it) ==> old(self).world.flooding@[node.id].spec_knows(p, it) || it == item
            },
            // no re-sends: if every peer already had the item, no message
            // entity and no event is added
            (old(self).world.is_node(node) && forall|p: u64|
                old(self).world.peer_sets@[node.id].peer_ids().contains(p) ==> old(self).world.flooding@[node.id].spec_knows(p, item)) ==> final(self).world.messages@
                == old(self).world.messages@ && final(self).queue == old(self).queue,
            // every new message carries the item from this node to a peer
            // that lacked it, and no two new messages share a target
            forall|k: u64|
                #[trigger] final(self).world.messages@.dom().contains(k) && !old(self).world.messages@.dom().contains(k) ==> old(self).world.is_node(node) && final(self).world.messages@[k].payload == item && final(self).world.messages@[k].msg.source
                    == node && old(self).world.peer_sets@[node.id].peer_ids().contains(
                    final(self).world.messages@[k].msg.dest.id,
                ) && !old(self).world.flooding@[node.id].spec_knows(
                    final(self).world.messages@[k].msg.dest.id,
                    item,
                ),
            forall|k2: u64|
                #[trigger] old(self).world.messages@.dom().contains(k2) ==> final(self).world.messages@.dom().contains(k2) && final(self).world.messages@[k2] == old(self).world.messages@[k2],
    {
        if !self.world.node_ids.contains(node.id) {
            return ;
        }
        // which peers still lack the item
        let peers_vec = match self.world.peer_sets.get(node.id) {
            Some(ps) => ps.iter(),
            None => {
                proof {
                    assert(self.world.peer_sets@.dom().contains(node.id));
                }
                return ;
            },
        };
        let ghost ps0 = self.world.peer_sets@[node.id];
        let mut lacking: Vec<Entity> = Vec::new();
        let n = peers_vec.len();
        let mut i: usize = 0;
        let fs_ref = match self.world.flooding.get(node.id) {
            Some(f) => f,
            None => {
                proof {
                    assert(self.world.flooding@.dom().contains(node.id));
                }
                return ;
            },
        };
        while i < n
            invariant
                n == peers_vec@.len(),
                0 <= i <= n,
                fs_ref.wf(),
                forall|j: int| 0 <= j < peers_vec@.len() ==> ps0.peer_ids().contains(
                    (#[trigger] peers_vec@[j]).id,
                ),
                peers_vec@.no_duplicates(),
                lacking@.no_duplicates(),
                forall|j: int|
                    0 <= j < lacking@.len() ==> ps0.peer_ids().contains(
                        (#[trigger] lacking@[j]).id,
                    ) && !fs_ref.spec_knows(lacking@[j].id, item),
                forall|j: int|
                    0 <= j < i && !fs_ref.spec_knows((#[trigger] peers_vec@[j]).id, item)
                        ==> lacking@.contains(peers_vec@[j]),
                forall|j: int|
                    0 <= j < lacking@.len() ==> exists|idx: int|
                        0 <= idx < i && #[trigger] lacking@[j] == peers_vec@[idx],
            decreases n - i,
        {
            let p = peers_vec[i];
            if !fs_ref.knows(p.id, item) {
                let ghost l0 = lacking@;
                lacking.push(p);
                proof {
                    assert(lacking@[l0.len() as int] == p);
                    assert forall|a: int, b: int|
                        0 <= a < b < lacking@.len() implies lacking@[a] != lacking@[b] by {
                        if b == l0.len() as int {
                            assert(lacking@[a] == l0[a]);
                            let ja = choose|ja: int| 0 <= ja < i && l0[a] == peers_vec@[ja];
                            if peers_vec@[ja] == p {
                                crate::nakamoto_consensus::lemma_no_dup_at(
                                    peers_vec@,
                                    ja,
                                    i as int,
                                );
                            }
                        }
                    }
                    assert forall|j: int|
                        0 <= j < lacking@.len() implies exists|idx: int|
                        0 <= idx < i + 1 && #[trigger] lacking@[j] == peers_vec@[idx] by {
                        if j < l0.len() {
                            assert(lacking@[j] == l0[j]);
                            let idx = choose|idx: int| 0 <= idx < i && l0[j] == peers_vec@[idx];
                            assert(lacking@[j] == peers_vec@[idx]);
                        } else {
                            assert(lacking@[j] == peers_vec@[i as int]);
                        }
                    }
                    assert forall|j: int|
                        0 <= j <= i && !fs_ref.spec_knows((#[trigger] peers_vec@[j]).id, item)
                            implies lacking@.contains(peers_vec@[j]) by {
                        if j < i {
                            assert(l0.contains(peers_vec@[j]));
                            let x = choose|x: int| 0 <= x < l0.len() && l0[x] == peers_vec@[j];
                            assert(lacking@[x] == peers_vec@[j]);
                        } else {
                            assert(lacking@[l0.len() as int] == peers_vec@[j]);
                        }
                    }
                }
            }
            i += 1;
        }
        // record the sends, then schedule them
        let fs_opt = self.world.flooding.remove(node.id);
        let mut fs = match fs_opt {
            Some(f) => f,
            None => {
                proof {
                    assert(false);
                }
                return ;
            },
        };
        let m = lacking.len();
        let mut j: usize = 0;
        while j < m
            invariant
                m == lacking@.len(),
                0 <= j <= m,
                fs.wf(),
                forall|jj: int|
                    0 <= jj < lacking@.len() ==> ps0.peer_ids().contains(
                        (#[trigger] lacking@[jj]).id,
                    ),
                forall|jj: int| 0 <= jj < j ==> fs.spec_knows((#[trigger] lacking@[jj]).id, item),
                forall|p: u64, it: Payload|
                    fs_ref.spec_knows(p, it) ==> fs.spec_knows(p, it),
                forall|p: u64, it: Payload|
                    fs.spec_knows(p, it) ==> fs_ref.spec_knows(p, it) || it == item,
                fs.haves() == fs_ref.haves(),
                fs_ref.wf(),
            decreases m - j,
        {
            fs.record(lacking[j].id, item);
            j += 1;
        }
        let ghost fs_final = fs;
        self.world.flooding.set(node.id, fs);
        proof {
            assert(self.world.flooding@.dom() =~= old(self).world.flooding@.dom());
            assert(self.world.wf());
            // every peer is now recorded as having the item
            assert forall|p: u64| ps0.peer_ids().contains(p) implies self.world.flooding@[
                node.id
            ].spec_knows(p, item) by {
                if !fs_ref.spec_knows(p, item) {
                    ps0.lemma_id_seq();
                    assert(ps0.id_seq().to_set().contains(p));
                    let idx = choose|idx: int|
                        0 <= idx < ps0.id_seq().len() && ps0.id_seq()[idx] == p;
                    assert(peers_vec@.map_values(|e: Entity| e.id)[idx] == p);
                    assert(peers_vec@[idx].id == p);
                    assert(lacking@.contains(peers_vec@[idx]));
                    let jx = choose|jx: int|
                        0 <= jx < lacking@.len() && lacking@[jx] == peers_vec@[idx];
                    assert(fs_final.spec_knows(lacking@[jx].id, item));
                }
            }
            // if nothing was lacking, the ledgers are unchanged
            if forall|p: u64|
                ps0.peer_ids().contains(p) ==> old(self).world.flooding@[node.id].spec_knows(
                    p,
                    item,
                ) {
                assert(lacking@.len() == 0) by {
                    if lacking@.len() > 0 {
                        assert(ps0.peer_ids().contains(lacking@[0].id));
                        assert(fs_ref.spec_knows(lacking@[0].id, item));
                    }
                }
            }
        }
        // now the world is whole again; schedule one send per peer that
        // lacked the item
        let ghost w1 = self.world;
        let ghost q1 = self.queue;
        let mut j2: usize = 0;
        while j2 < m
            invariant
                m == lacking@.len(),
                0 <= j2 <= m,
                self.wf(),
                self.world.node_ids@ == w1.node_ids@,
                self.world.positions@ == w1.positions@,
                self.world.peer_sets@ == w1.peer_sets@,
                self.world.consensus@ == w1.consensus@,
                self.world.flooding@ == w1.flooding@,
                self.time_now == old(self).time_now,
                self.protocols == old(self).protocols,
                self.world.is_node(node),
                no_message_revival(w1, self.world),
                ps0 == w1.peer_sets@[node.id],
                w1.peer_sets@.dom().contains(node.id),
                forall|jj: int|
                    0 <= jj < lacking@.len() ==> ps0.peer_ids().contains(
                        (#[trigger] lacking@[jj]).id,
                    ) && !fs_ref.spec_knows(lacking@[jj].id, item),
                m == 0 ==> self.world.messages@ == w1.messages@ && self.queue == q1,
                forall|k2: u64|
                    #[trigger] w1.messages@.dom().contains(k2) ==> self.world.messages@.dom(
                    ).contains(k2) && self.world.messages@[k2] == w1.messages@[k2],
                forall|k: u64|
                    #[trigger] self.world.messages@.dom().contains(k) && !w1.messages@.dom(
                    ).contains(k) ==> self.world.messages@[k].payload == item
                        && self.world.messages@[k].msg.source == node && ps0.peer_ids().contains(
                        self.world.messages@[k].msg.dest.id,
                    ) && !fs_ref.spec_knows(self.world.messages@[k].msg.dest.id, item),
                forall|k1: u64|
                    #[trigger] self.world.messages@.dom().contains(k1) && !w1.messages@.dom(
                    ).contains(k1) ==> exists|jj: int|
                        0 <= jj < j2 && self.world.messages@[k1].msg.dest == lacking@[jj],
            decreases m - j2,
        {
            let dest = lacking[j2];
            proof {
                assert(self.world.peer_sets@[node.id].peer_ids().contains(dest.id));
                assert(self.world.node_ids@.dom().contains(dest.id)) by {
                    assert(ps0.peer_ids().contains(dest.id));
                    assert(w1.node_ids@.dom().contains(node.id));
                    assert(w1.peer_sets@[node.id].peer_ids().subset_of(w1.node_ids@.dom()));
                }
            }
            let ghost wmid = self.world;
            let sent = self.send_message(node, dest, item);
            proof {
                assert forall|k1: u64|
                    #[trigger] self.world.messages@.dom().contains(k1) && !w1.messages@.dom(
                ).contains(k1) implies exists|jj: int|
                    0 <= jj < j2 + 1 && self.world.messages@[k1].msg.dest == lacking@[jj] by {
                    if wmid.messages@.dom().contains(k1) {
                        let jj = choose|jj: int|
                            0 <= jj < j2 && wmid.messages@[k1].msg.dest == lacking@[jj];
                        assert(self.world.messages@[k1] == wmid.messages@[k1]);
                        assert(self.world.messages@[k1].msg.dest == lacking@[jj as int]);
                    } else {
                        assert(self.world.messages@[k1].msg.dest == lacking@[j2 as int]);
                    }
                }
            }
            j2 += 1;
        }
    }
}



impl Simulation {
    /// Send a message with a random payload from `source` to one other
    /// node picked at random; with no other node around, nothing happens.
    pub fn spawn_message_to_random_node(&mut self, source: Entity)
        requires
            old(self).wf(),
        ensures
            final(self).wf(),
            no_message_revival(old(self).world, final(self).world),
            final(self).world.node_ids@ == old(self).world.node_ids@,
            final(self).world.consensus@ == old(self).world.consensus@,
            final(self).world.peer_sets@ == old(self).world.peer_sets@,
            final(self).world.flooding@ == old(self).world.flooding@,
            final(self).time_now == old(self).time_now,
            final(self).protocols == old(self).protocols,
            // with a partner node around and machine limits clear, one
            // fresh message leaves `source` toward some other node
            old(self).world.is_node(source) && old(self).world.node_ids@.dom().len() >= 2 && old(self).world.next_id < u64::MAX && old(self).queue.spec_next_seq() < u64::MAX ==> exists|
                k: u64,
            |
                !old(self).world.messages@.dom().contains(k) && final(self).world.messages@.dom().contains(k) && (#[trigger] final(self).world.messages@[k]).msg.source == source && final(self).world.messages@[k].msg.dest != source && old(self).world.is_node(
                    final(self).world.messages@[k].msg.dest,
                ),
    {
        if !self.world.node_ids.contains(source.id) {
            return ;
        }
        let nodes = self.world.node_entities();
        let mut others: Vec<Entity> = Vec::new();
        let n = nodes.len();
        let mut i: usize = 0;
        let ghost mut skips: int = 0;
        while i < n
            invariant
                self.wf(),
                self == old(self),
                self.world.is_node(source),
                n == nodes@.len(),
                0 <= i <= n,
                forall|j: int| 0 <= j < n ==> self.world.is_node(#[trigger] nodes@[j]),
                n == self.world.node_ids.key_seq().len(),
                forall|j: int|
                    0 <= j < n ==> (#[trigger] nodes@[j]).id
                        == self.world.node_ids.key_seq()[j],
                forall|j: int|
                    0 <= j < others@.len() ==> self.world.is_node(#[trigger] others@[j])
                        && others@[j].id != source.id,
                others@.len() + skips == i,
                0 <= skips <= 1,
                skips == 1 ==> exists|jj: int|
                    0 <= jj < i && (#[trigger] nodes@[jj]).id == source.id,
            decreases n - i,
        {
            if nodes[i].id != source.id {
                let e = nodes[i];
                let ghost o0 = others@;
                others.push(e);
                proof {
                    assert forall|j: int| 0 <= j < others@.len() implies self.world.is_node(
                        #[trigger] others@[j],
                    ) && others@[j].id != source.id by {
                        if j < o0.len() {
                            assert(others@[j] == o0[j]);
                        } else {
                            assert(others@[j] == nodes@[i as int]);
                        }
                    }
                }
            } else {
                proof {
                    // at most one node carries this id: the key order is
                    // strictly ascending
                    assert(skips == 0) by {
                        if skips == 1 {
                            let jj = choose|jj: int|
                                0 <= jj < i && (#[trigger] nodes@[jj]).id == source.id;
                            self.world.node_ids.lemma_keys_no_duplicates();
                            assert(self.world.node_ids.key_seq()[jj]
                                < self.world.node_ids.key_seq()[i as int]);
                        }
                    }
                    skips = skips + 1;
                    assert(nodes@[i as int].id == source.id);
                }
            }
            i += 1;
        }
        let chosen = crate::rng::choose_entities(&mut self.rng, &others, 1);
        if chosen.len() == 1 {
            let dest = chosen[0];
            proof {
                assert(others@.contains(dest));
                let j = choose|j: int| 0 <= j < others@.len() && others@[j] == dest;
            }
            let d = rng_next_u64(&mut self.rng);
            let sent = self.send_message(source, dest, Payload::Datum(d));
            proof {
                if sent {
                    let k = choose|k: u64|
                        k == old(self).world.next_id && !old(self).world.messages@.dom().contains(
                            k,
                        ) && self.world.messages@.dom().contains(k) && (
                        #[trigger] self.world.messages@[k]).msg == (UnderlayMessage {
                            source,
                            dest,
                        });
                }
            }
        } else {
            proof {
                assert(others@.len() == 0);
                assert(self.world.node_ids@.dom().len() < 2) by {
                    if self.world.node_ids@.dom().len() >= 2 {
                        assert(n >= 2);
                        assert(others@.len() + skips == n);
                    }
                }
            }
        }
    }

    /// Send a message with a random payload between two distinct random
    /// nodes; with fewer than two nodes, nothing happens.
    pub fn spawn_message_between_random_nodes(&mut self)
        requires
            old(self).wf(),
        ensures
            final(self).wf(),
            no_message_revival(old(self).world, final(self).world),
            final(self).world.node_ids@ == old(self).world.node_ids@,
            final(self).world.consensus@ == old(self).world.consensus@,
            final(self).world.peer_sets@ == old(self).world.peer_sets@,
            final(self).world.flooding@ == old(self).world.flooding@,
            final(self).time_now == old(self).time_now,
            final(self).protocols == old(self).protocols,
            // with two nodes around and machine limits clear, one fresh
            // message flies between two distinct nodes
            old(self).world.node_ids@.dom().len() >= 2 && old(self).world.next_id < u64::MAX
                && old(self).queue.spec_next_seq() < u64::MAX ==> exists|k: u64|
                !old(self).world.messages@.dom().contains(k) && final(self).world.messages@.dom().contains(k) && old(self).world.is_node(
                    (#[trigger] final(self).world.messages@[k]).msg.source,
                ) && old(self).world.is_node(final(self).world.messages@[k].msg.dest) && final(self).world.messages@[k].msg.source != final(self).world.messages@[k].msg.dest,
    {
        let nodes = self.world.node_entities();
        let chosen = crate::rng::choose_entities(&mut self.rng, &nodes, 2);
        if chosen.len() == 2 {
            let source = chosen[0];
            let dest = chosen[1];
            proof {
                assert(nodes@.contains(source));
                assert(nodes@.contains(dest));
                let j1 = choose|j: int| 0 <= j < nodes@.len() && nodes@[j] == source;
                let j2 = choose|j: int| 0 <= j < nodes@.len() && nodes@[j] == dest;
                assert(source != dest) by {
                    crate::nakamoto_consensus::lemma_no_dup_at(chosen@, 0, 1);
                }
            }
            let d = rng_next_u64(&mut self.rng);
            let sent = self.send_message(source, dest, Payload::Datum(d));
        } else {
            proof {
                assert(self.world.node_ids@.dom().len() < 2);
            }
        }
    }
}

/// A typed failure a command can report.
#[derive(Clone, Copy, PartialEq, Eq, Structural, Debug)]
pub enum SimError {
    NoTriangulation,
}

/// `b` is in `a`'s peer set in this world.
pub open spec fn peers_rel(w: World, a: u64, b: u64) -> bool {
    w.peer_sets@.dom().contains(a) && w.peer_sets@[a].peer_ids().contains(b)
}

/// The peer relation is symmetric: whoever you list as a peer lists you.
pub open spec fn symmetric_topology(w: World) -> bool {
    forall|a: u64, b: u64| #[trigger] peers_rel(w, a, b) ==> peers_rel(w, b, a)
}

impl Simulation {
    /// Frame facts every event handler maintains: a well-formed state,
    /// tip heights that never regress, an unmoved clock, and the
    /// installed protocol set.
    pub open spec fn event_frame(pre: Simulation, post: Simulation) -> bool {
        &&& post.wf()
        &&& tips_advance(pre.world, post.world)
        &&& no_message_revival(pre.world, post.world)
        &&& post.time_now == pre.time_now
        &&& post.protocols == pre.protocols
    }

    /// Register a block on one node by the longest-chain rule and flood
    /// it onward to the node's peers.
    pub fn register_and_flood(&mut self, node: Entity, block: Block)
        requires
            old(self).wf(),
        ensures
            Simulation::event_frame(*old(self), *final(self)),
            final(self).world.node_ids@ == old(self).world.node_ids@,
            final(self).world.peer_sets@ == old(self).world.peer_sets@,
            old(self).world.is_node(node) ==> final(self).world.consensus@[node.id]@
                == spec_register(old(self).world.consensus@[node.id]@, block).0,
            forall|k: u64|
                #[trigger] old(self).world.consensus@.dom().contains(k) && k != node.id ==> final(self).world.consensus@[k] == old(self).world.consensus@[k],
            !old(self).world.is_node(node) ==> final(self).world.consensus@ == old(self).world.consensus@,
            // every message this call sends carries the block from the
            // node to a peer not yet recorded as having it
            forall|k: u64|
                #[trigger] final(self).world.messages@.dom().contains(k) && !old(self).world.messages@.dom().contains(k) ==> old(self).world.is_node(node) && final(self).world.messages@[k].msg.source == node && final(self).world.messages@[k].payload
                    == Payload::BlockPayload(block) && old(self).world.peer_sets@[
                    node.id
                ].peer_ids().contains(final(self).world.messages@[k].msg.dest.id) && !old(self).world.flooding@[node.id].spec_knows(
                    final(self).world.messages@[k].msg.dest.id,
                    Payload::BlockPayload(block),
                ),
    {
        if !self.world.node_ids.contains(node.id) {
            return ;
        }
        let st_opt = self.world.consensus.remove(node.id);
        let mut st = match st_opt {
            Some(s) => s,
            None => {
                proof {
                    assert(false);
                }
                return ;
            },
        };
        proof {
            st.lemma_inv_wf();
            crate::nakamoto_consensus::lemma_register_preserves_wf(st@, block);
            crate::nakamoto_consensus::lemma_register_tip_monotone(st@, block);
        }
        st.register_block(block);
        self.world.consensus.set(node.id, st);
        proof {
            assert(self.world.consensus@.dom() =~= old(self).world.consensus@.dom());
            assert(self.world.wf());
            assert(tips_advance(old(self).world, self.world));
        }
        let ghost wmid = self.world;
        self.flood(node, Payload::BlockPayload(block));
        proof {
            assert(self.world.consensus@ == wmid.consensus@);
        }
    }

    /// A poke makes the node mine: it creates a block on its current tip
    /// with a fresh random identity, registers it, and floods it.
    pub fn nakamoto_poke(&mut self, node: Entity)
        requires
            old(self).wf(),
        ensures
            Simulation::event_frame(*old(self), *final(self)),
            final(self).world.node_ids@ == old(self).world.node_ids@,
            old(self).world.is_node(node) ==> exists|b: Block|
                b.hash_prev == old(self).world.consensus@[node.id]@.tip && b.hash
                    != crate::nakamoto_consensus::genesis_id() && final(self).world.consensus@[
                    node.id
                ]@ == spec_register(old(self).world.consensus@[node.id]@, b).0,
            forall|k: u64|
                #[trigger] old(self).world.consensus@.dom().contains(k) && k != node.id ==> final(self).world.consensus@[k] == old(self).world.consensus@[k],
            !old(self).world.is_node(node) ==> final(self).world.consensus@ == old(self).world.consensus@,
    {
        if !self.world.node_ids.contains(node.id) {
            return ;
        }
        let tip = match self.world.consensus.get(node.id) {
            Some(st) => st.tip(),
            None => {
                proof {
                    assert(false);
                }
                return ;
            },
        };
        let block = Block::new(tip, &mut self.rng);
        let t = self.time_now;
        self.log(t, LogEntry::Poked(node));
        self.register_and_flood(node, block);
        proof {
            assert(old(self).world.is_node(node) ==> final(self).world.consensus@[node.id]@
                == spec_register(old(self).world.consensus@[node.id]@, block).0);
        }
    }

    /// A delivered block is registered, the sender is recorded as having
    /// it, and the block continues to propagate to the other peers.
    pub fn nakamoto_message(&mut self, node: Entity, envelope: UnderlayMessage, block: Block)
        requires
            old(self).wf(),
        ensures
            Simulation::event_frame(*old(self), *final(self)),
            final(self).world.node_ids@ == old(self).world.node_ids@,
            old(self).world.is_node(node) ==> final(self).world.consensus@[node.id]@
                == spec_register(old(self).world.consensus@[node.id]@, block).0,
            forall|k: u64|
                #[trigger] old(self).world.consensus@.dom().contains(k) && k != node.id ==> final(self).world.consensus@[k] == old(self).world.consensus@[k],
            !old(self).world.is_node(node) ==> final(self).world.consensus@ == old(self).world.consensus@,
            // the block travels on only from the node, only to peers that
            // had not seen it, and never back to its sender
            forall|k: u64|
                #[trigger] final(self).world.messages@.dom().contains(k) && !old(self).world.messages@.dom().contains(k) ==> old(self).world.is_node(node) && final(self).world.messages@[k].msg.source == node && final(self).world.messages@[k].payload
                    == Payload::BlockPayload(block) && old(self).world.peer_sets@[
                    node.id
                ].peer_ids().contains(final(self).world.messages@[k].msg.dest.id) && final(self).world.messages@[k].msg.dest.id != envelope.source.id && !old(self).world.flooding@[node.id].spec_knows(
                    final(self).world.messages@[k].msg.dest.id,
                    Payload::BlockPayload(block),
                ),
    {
        if !self.world.node_ids.contains(node.id) {
            return ;
        }
        let fs_opt = self.world.flooding.remove(node.id);
        let mut fs = match fs_opt {
            Some(f) => f,
            None => {
                proof {
                    assert(false);
                }
                return ;
            },
        };
        fs.record(envelope.source.id, Payload::BlockPayload(block));
        self.world.flooding.set(node.id, fs);
        proof {
            assert(self.world.flooding@.dom() =~= old(self).world.flooding@.dom());
            assert(self.world.wf());
        }
        self.register_and_flood(node, block);
    }

    /// Replay an ordered batch of items to one peer, regardless of prior
    /// bookkeeping, recording each send.
    pub fn flood_peer_with(&mut self, node: Entity, peer: Entity, items: Vec<Payload>)
        requires
            old(self).wf(),
        ensures
            Simulation::event_frame(*old(self), *final(self)),
            final(self).world.node_ids@ == old(self).world.node_ids@,
            final(self).world.consensus@ == old(self).world.consensus@,
            final(self).world.peer_sets@ == old(self).world.peer_sets@,
            old(self).world.is_node(node) && old(self).world.is_node(peer) ==> forall|i: int|
                0 <= i < items@.len() ==> final(self).world.flooding@[node.id].spec_knows(
                    peer.id,
                    #[trigger] items@[i],
                ),
            forall|k: u64|
                #[trigger] old(self).world.flooding@.dom().contains(k) && k != node.id ==> final(self).world.flooding@[k] == old(self).world.flooding@[k],
            old(self).world.is_node(node) ==> {
                &&& final(self).world.flooding@[node.id].haves() == old(self).world.flooding@[node.id].haves()
                &&& forall|p: u64, it: Payload|
                    old(self).world.flooding@[node.id].spec_knows(p, it) ==> final(self).world.flooding@[node.id].spec_knows(p, it)
            },
            // every message this call sends carries one of the items from
            // the node to the named peer
            forall|k: u64|
                #[trigger] final(self).world.messages@.dom().contains(k) && !old(self).world.messages@.dom().contains(k) ==> final(self).world.messages@[k].msg.source
                    == node && final(self).world.messages@[k].msg.dest == peer && items@.contains(
                    final(self).world.messages@[k].payload,
                ),
            forall|k2: u64|
                #[trigger] old(self).world.messages@.dom().contains(k2) ==> final(self).world.messages@.dom().contains(k2) && final(self).world.messages@[k2] == old(self).world.messages@[k2],
    {
        if !self.world.node_ids.contains(node.id) || !self.world.node_ids.contains(peer.id) {
            return ;
        }
        let fs_opt = self.world.flooding.remove(node.id);
        let mut fs = match fs_opt {
            Some(f) => f,
            None => {
                proof {
                    assert(false);
                }
                return ;
            },
        };
        let ghost fs0 = fs;
        let n = items.len();
        let mut i: usize = 0;
        while i < n
            invariant
                n == items@.len(),
                0 <= i <= n,
                fs.wf(),
                forall|j: int| 0 <= j < i ==> fs.spec_knows(peer.id, #[trigger] items@[j]),
                forall|p: u64, it: Payload| fs0.spec_knows(p, it) ==> fs.spec_knows(p, it),
                fs.haves() == fs0.haves(),
            decreases n - i,
        {
            fs.record(peer.id, items[i]);
            i += 1;
        }
        self.world.flooding.set(node.id, fs);
        proof {
            assert(self.world.flooding@.dom() =~= old(self).world.flooding@.dom());
            assert(self.world.wf());
        }
        let ghost w1 = self.world;
        let mut i2: usize = 0;
        while i2 < n
            invariant
                n == items@.len(),
                0 <= i2 <= n,
                self.wf(),
                self.world.node_ids@ == w1.node_ids@,
                self.world.consensus@ == w1.consensus@,
                self.world.peer_sets@ == w1.peer_sets@,
                self.world.flooding@ == w1.flooding@,
                self.time_now == old(self).time_now,
                self.protocols == old(self).protocols,
                self.world.is_node(node),
                self.world.is_node(peer),
                no_message_revival(w1, self.world),
                forall|k: u64|
                    #[trigger] self.world.messages@.dom().contains(k) && !w1.messages@.dom().contains(k) ==> self.world.messages@[k].msg.source == node
                        && self.world.messages@[k].msg.dest == peer && items@.contains(
                        self.world.messages@[k].payload,
                    ),
                forall|k2: u64|
                    #[trigger] w1.messages@.dom().contains(k2) ==> self.world.messages@.dom().contains(k2) && self.world.messages@[k2] == w1.messages@[k2],
            decreases n - i2,
        {
            let ghost wpre = self.world;
            let sent = self.send_message(node, peer, items[i2]);
            proof {
                lemma_revival_trans(w1, wpre, self.world);
                if sent {
                    assert(items@.contains(items@[i2 as int]));
                }
            }
            i2 += 1;
        }
    }

    /// On a peer addition, the consensus protocol replays its whole block
    /// set to the new peer, ascending by height, so the peer can rebuild
    /// the same tree without orphaning; on removal, the flooding records
    /// for that peer are dropped.
    pub fn nakamoto_peer_update(&mut self, node: Entity, update: PeerSetUpdate)
        requires
            old(self).wf(),
        ensures
            Simulation::event_frame(*old(self), *final(self)),
            final(self).world.node_ids@ == old(self).world.node_ids@,
            final(self).world.consensus@ == old(self).world.consensus@,
            final(self).world.peer_sets@ == old(self).world.peer_sets@,
            forall|k: u64|
                #[trigger] old(self).world.flooding@.dom().contains(k) && k != node.id ==> final(self).world.flooding@[k] == old(self).world.flooding@[k],
            // on a peer addition the whole stored block set is recorded
            // as replayed to that peer, and the ledger only grows
            old(self).world.is_node(node) && (update matches PeerSetUpdate::PeerAdded(peer)) ==> {
                &&& forall|p: u64, it: Payload|
                    old(self).world.flooding@[node.id].spec_knows(p, it) ==> final(self).world.flooding@[node.id].spec_knows(p, it)
                &&& old(self).world.is_node(update->PeerAdded_0) ==> forall|id: crate::nakamoto_consensus::BlockId|
                    #[trigger] old(self).world.consensus@[node.id]@.blocks.dom().contains(id)
                        ==> final(self).world.flooding@[node.id].spec_knows(
                        update->PeerAdded_0.id,
                        Payload::BlockPayload(
                            Block {
                                hash: id,
                                hash_prev: old(self).world.consensus@[node.id]@.blocks[id].1,
                            },
                        ),
                    )
            },
            // on a peer removal that peer's bookkeeping is dropped
            old(self).world.is_node(node) && (update matches PeerSetUpdate::PeerRemoved(peer))
                ==> final(self).world.flooding@[node.id].ledger() =~= old(self).world.flooding@[node.id].ledger().remove(update->PeerRemoved_0.id)
                && final(self).world.flooding@[node.id].haves() == old(self).world.flooding@[node.id].haves(),
    {
        if !self.world.node_ids.contains(node.id) {
            return ;
        }
        match update {
            PeerSetUpdate::PeerAdded(peer) => {
                let blocks = match self.world.consensus.get(node.id) {
                    Some(st) => st.all_blocks_sorted(),
                    None => {
                        proof {
                            assert(false);
                        }
                        return ;
                    },
                };
                let mut items: Vec<Payload> = Vec::new();
                let n = blocks.len();
                let mut i: usize = 0;
                while i < n
                    invariant
                        n == blocks@.len(),
                        0 <= i <= n,
                        items@.len() == i,
                        forall|j: int|
                            0 <= j < i ==> items@[j] == Payload::BlockPayload(
                                #[trigger] blocks@[j],
                            ),
                    decreases n - i,
                {
                    items.push(Payload::BlockPayload(blocks[i]));
                    i += 1;
                }
                self.flood_peer_with(node, peer, items);
                proof {
                    if old(self).world.is_node(peer) {
                        assert forall|id: crate::nakamoto_consensus::BlockId|
                            #[trigger] old(self).world.consensus@[node.id]@.blocks.dom().contains(
                            id,
                        ) implies self.world.flooding@[node.id].spec_knows(
                            peer.id,
                            Payload::BlockPayload(
                                Block {
                                    hash: id,
                                    hash_prev: old(self).world.consensus@[node.id]@.blocks[id].1,
                                },
                            ),
                        ) by {
                            let j = choose|j: int|
                                0 <= j < blocks@.len() && blocks@[j].hash == id;
                            assert(items@[j] == Payload::BlockPayload(blocks@[j]));
                            assert(blocks@[j] == (Block {
                                hash: id,
                                hash_prev: old(self).world.consensus@[node.id]@.blocks[id].1,
                            }));
                            assert(self.world.flooding@[node.id].spec_knows(peer.id, items@[j]));
                        }
                    }
                }
            },
            PeerSetUpdate::PeerRemoved(peer) => {
                let fs_opt = self.world.flooding.remove(node.id);
                let mut fs = match fs_opt {
                    Some(f) => f,
                    None => {
                        proof {
                            assert(false);
                        }
                        return ;
                    },
                };
                fs.forget_peer(peer.id);
                self.world.flooding.set(node.id, fs);
                proof {
                    assert(self.world.flooding@.dom() =~= old(self).world.flooding@.dom());
                    assert(self.world.wf());
                }
            },
        }
    }

    /// Inject an item into the generic flooding protocol at this node:
    /// the node notes it as seen and floods it to its peers.
    pub fn inject_item(&mut self, node: Entity, item: Payload)
        requires
            old(self).wf(),
        ensures
            Simulation::event_frame(*old(self), *final(self)),
            final(self).world.node_ids@ == old(self).world.node_ids@,
            final(self).world.consensus@ == old(self).world.consensus@,
            final(self).world.peer_sets@ == old(self).world.peer_sets@,
            old(self).world.is_node(node) ==> final(self).world.flooding@[node.id].haves().contains(
                item,
            ),
    {
        if !self.world.node_ids.contains(node.id) {
            return ;
        }
        let fs_opt = self.world.flooding.remove(node.id);
        let mut fs = match fs_opt {
            Some(f) => f,
            None => {
                proof {
                    assert(false);
                }
                return ;
            },
        };
        if !fs.has_seen(item) {
            fs.record_own(item);
            proof {
                assert(fs.haves().last() == item);
                assert(fs.haves().contains(item));
            }
        }
        self.world.flooding.set(node.id, fs);
        proof {
            assert(self.world.flooding@.dom() =~= old(self).world.flooding@.dom());
            assert(self.world.wf());
        }
        let ghost wmid = self.world;
        self.flood(node, item);
        proof {
            assert(self.world.flooding@[node.id].haves() == wmid.flooding@[node.id].haves());
        }
    }

    /// A poke of the generic flooding protocol originates a fresh random
    /// datum and floods it.
    pub fn flooding_poke(&mut self, node: Entity)
        requires
            old(self).wf(),
        ensures
            Simulation::event_frame(*old(self), *final(self)),
            final(self).world.node_ids@ == old(self).world.node_ids@,
            final(self).world.consensus@ == old(self).world.consensus@,
            old(self).world.is_node(node) ==> exists|d: u64|
                #[trigger] final(self).world.flooding@[node.id].haves().contains(
                    Payload::Datum(d),
                ),
    {
        let d = rng_next_u64(&mut self.rng);
        self.inject_item(node, Payload::Datum(d));
    }

    /// A delivered datum is noted as seen, the sender recorded, and the
    /// datum re-flooded to the other peers.
    pub fn flooding_message(&mut self, node: Entity, envelope: UnderlayMessage, item: Payload)
        requires
            old(self).wf(),
        ensures
            Simulation::event_frame(*old(self), *final(self)),
            final(self).world.node_ids@ == old(self).world.node_ids@,
            final(self).world.consensus@ == old(self).world.consensus@,
            old(self).world.is_node(node) ==> final(self).world.flooding@[node.id].haves().contains(
                item,
            ),
    {
        if !self.world.node_ids.contains(node.id) {
            return ;
        }
        let fs_opt = self.world.flooding.remove(node.id);
        let mut fs = match fs_opt {
            Some(f) => f,
            None => {
                proof {
                    assert(false);
                }
                return ;
            },
        };
        fs.record(envelope.source.id, item);
        if !fs.has_seen(item) {
            fs.record_own(item);
            proof {
                assert(fs.haves().last() == item);
                assert(fs.haves().contains(item));
            }
        }
        self.world.flooding.set(node.id, fs);
        proof {
            assert(self.world.flooding@.dom() =~= old(self).world.flooding@.dom());
            assert(self.world.wf());
        }
        let ghost wmid = self.world;
        self.flood(node, item);
        proof {
            assert(self.world.flooding@[node.id].haves() == wmid.flooding@[node.id].haves());
        }
    }
}


impl Simulation {
    /// Route a poke to every installed protocol; failures in one do not
    /// block the others.
    pub fn dispatch_poke(&mut self, node: Entity)
        requires
            old(self).wf(),
        ensures
            Simulation::event_frame(*old(self), *final(self)),
            final(self).world.node_ids@ == old(self).world.node_ids@,
            !old(self).protocols@.contains(ProtocolKind::NakamotoConsensus) ==> final(self).world.consensus@ == old(self).world.consensus@,
            old(self).protocols@.no_duplicates() && old(self).protocols@.contains(
                ProtocolKind::NakamotoConsensus,
            ) && old(self).world.is_node(node) ==> exists|b: Block|
                b.hash_prev == old(self).world.consensus@[node.id]@.tip && b.hash
                    != crate::nakamoto_consensus::genesis_id() && final(self).world.consensus@[
                    node.id
                ]@ == spec_register(old(self).world.consensus@[node.id]@, b).0 && (forall|k: u64|
                    #[trigger] old(self).world.consensus@.dom().contains(k) && k != node.id
                        ==> final(self).world.consensus@[k] == old(self).world.consensus@[k]),
    {
        let n = self.protocols.len();
        let mut i: usize = 0;
        while i < n
            invariant
                0 <= i <= n,
                self.wf(),
                n == self.protocols@.len(),
                tips_advance(old(self).world, self.world),
                no_message_revival(old(self).world, self.world),
                self.time_now == old(self).time_now,
                self.protocols == old(self).protocols,
                self.world.node_ids@ == old(self).world.node_ids@,
                (forall|j: int|
                    0 <= j < i ==> self.protocols@[j] != ProtocolKind::NakamotoConsensus)
                    ==> self.world.consensus@ == old(self).world.consensus@,
                old(self).protocols@.no_duplicates() && old(self).world.is_node(node) && (
                exists|j: int|
                    0 <= j < i && self.protocols@[j] == ProtocolKind::NakamotoConsensus) ==> exists|
                    b: Block,
                |
                    b.hash_prev == old(self).world.consensus@[node.id]@.tip && b.hash
                        != crate::nakamoto_consensus::genesis_id() && self.world.consensus@[
                        node.id
                    ]@ == spec_register(old(self).world.consensus@[node.id]@, b).0 && (forall|
                        k: u64,
                    |
                        #[trigger] old(self).world.consensus@.dom().contains(k) && k != node.id
                            ==> self.world.consensus@[k] == old(self).world.consensus@[k]),
            decreases n - i,
        {
            let p = self.protocols[i];
            let ghost wmid = self.world;
            match p {
                ProtocolKind::NakamotoConsensus => self.nakamoto_poke(node),
                ProtocolKind::SimpleFlooding => self.flooding_poke(node),
            }
            proof {
                lemma_tips_trans(old(self).world, wmid, self.world);
                lemma_revival_trans(old(self).world, wmid, self.world);
                if p == ProtocolKind::NakamotoConsensus {
                    assert(self.protocols@[i as int] == ProtocolKind::NakamotoConsensus);
                    if old(self).protocols@.no_duplicates() && old(self).world.is_node(node) {
                        assert(wmid.consensus@ == old(self).world.consensus@) by {
                            assert forall|j: int|
                                0 <= j < i implies self.protocols@[j]
                                != ProtocolKind::NakamotoConsensus by {
                                crate::nakamoto_consensus::lemma_no_dup_at(
                                    self.protocols@,
                                    j,
                                    i as int,
                                );
                            }
                        }
                    }
                }
            }
            i += 1;
        }
        proof {
            if old(self).protocols@.contains(ProtocolKind::NakamotoConsensus) {
                let j = choose|j: int|
                    0 <= j < self.protocols@.len() && self.protocols@[j]
                        == ProtocolKind::NakamotoConsensus;
            }
        }
    }

    /// Route a delivered payload to the protocols that understand it.
    pub fn dispatch_message(&mut self, envelope: UnderlayMessage, payload: Payload)
        requires
            old(self).wf(),
        ensures
            Simulation::event_frame(*old(self), *final(self)),
            final(self).world.node_ids@ == old(self).world.node_ids@,
            !old(self).protocols@.contains(ProtocolKind::NakamotoConsensus) || (
            payload matches Payload::Datum(d)) ==> final(self).world.consensus@ == old(self).world.consensus@,
            old(self).protocols@.no_duplicates() && old(self).protocols@.contains(
                ProtocolKind::NakamotoConsensus,
            ) && old(self).world.is_node(envelope.dest) && (
            payload matches Payload::BlockPayload(b)) ==> final(self).world.consensus@[
                envelope.dest.id
            ]@ == spec_register(
                old(self).world.consensus@[envelope.dest.id]@,
                payload->BlockPayload_0,
            ).0 && (forall|k: u64|
                #[trigger] old(self).world.consensus@.dom().contains(k) && k != envelope.dest.id
                    ==> final(self).world.consensus@[k] == old(self).world.consensus@[k]),
            old(self).protocols@.contains(ProtocolKind::SimpleFlooding) && old(self).world.is_node(envelope.dest) && (payload matches Payload::Datum(d)) ==> final(self).world.flooding@[envelope.dest.id].haves().contains(payload),
    {
        let n = self.protocols.len();
        let mut i: usize = 0;
        while i < n
            invariant
                0 <= i <= n,
                self.wf(),
                n == self.protocols@.len(),
                tips_advance(old(self).world, self.world),
                no_message_revival(old(self).world, self.world),
                self.time_now == old(self).time_now,
                self.protocols == old(self).protocols,
                self.world.node_ids@ == old(self).world.node_ids@,
                (payload matches Payload::Datum(d)) ==> self.world.consensus@ == old(self).world.consensus@,
                (forall|j: int|
                    0 <= j < i ==> self.protocols@[j] != ProtocolKind::NakamotoConsensus)
                    ==> self.world.consensus@ == old(self).world.consensus@,
                old(self).protocols@.no_duplicates() && old(self).world.is_node(envelope.dest)
                    && (payload matches Payload::BlockPayload(b)) && (exists|j: int|
                    0 <= j < i && self.protocols@[j] == ProtocolKind::NakamotoConsensus)
                    ==> self.world.consensus@[envelope.dest.id]@ == spec_register(
                    old(self).world.consensus@[envelope.dest.id]@,
                    payload->BlockPayload_0,
                ).0 && (forall|k: u64|
                    #[trigger] old(self).world.consensus@.dom().contains(k) && k
                        != envelope.dest.id ==> self.world.consensus@[k] == old(self).world.consensus@[k]),
                old(self).world.is_node(envelope.dest) && (payload matches Payload::Datum(d)) && (
                exists|j: int|
                    0 <= j < i && self.protocols@[j] == ProtocolKind::SimpleFlooding)
                    ==> self.world.flooding@[envelope.dest.id].haves().contains(payload),
            decreases n - i,
        {
            let p = self.protocols[i];
            let ghost wmid = self.world;
            match (p, payload) {
                (ProtocolKind::NakamotoConsensus, Payload::BlockPayload(b)) => {
                    self.nakamoto_message(envelope.dest, envelope, b)
                },
                (ProtocolKind::SimpleFlooding, Payload::Datum(_)) => {
                    self.flooding_message(envelope.dest, envelope, payload)
                },
                _ => (),
            }
            proof {
                lemma_tips_trans(old(self).world, wmid, self.world);
                lemma_revival_trans(old(self).world, wmid, self.world);
                if p == ProtocolKind::NakamotoConsensus && (payload matches Payload::BlockPayload(
                    b,
                )) {
                    assert(self.protocols@[i as int] == ProtocolKind::NakamotoConsensus);
                    if old(self).protocols@.no_duplicates() && old(self).world.is_node(
                        envelope.dest,
                    ) {
                        assert(wmid.consensus@ == old(self).world.consensus@) by {
                            assert forall|j: int|
                                0 <= j < i implies self.protocols@[j]
                                != ProtocolKind::NakamotoConsensus by {
                                crate::nakamoto_consensus::lemma_no_dup_at(
                                    self.protocols@,
                                    j,
                                    i as int,
                                );
                            }
                        }
                    }
                }
                if p == ProtocolKind::SimpleFlooding && (payload matches Payload::Datum(d)) {
                    assert(self.protocols@[i as int] == ProtocolKind::SimpleFlooding);
                }
            }
            i += 1;
        }
        proof {
            if old(self).protocols@.contains(ProtocolKind::NakamotoConsensus) {
                let j = choose|j: int|
                    0 <= j < self.protocols@.len() && self.protocols@[j]
                        == ProtocolKind::NakamotoConsensus;
            }
            if old(self).protocols@.contains(ProtocolKind::SimpleFlooding) {
                let j = choose|j: int|
                    0 <= j < self.protocols@.len() && self.protocols@[j]
                        == ProtocolKind::SimpleFlooding;
            }
        }
    }

    /// Route a peer-set change to every installed protocol.
    pub fn dispatch_peer_update(&mut self, node: Entity, update: PeerSetUpdate)
        requires
            old(self).wf(),
        ensures
            Simulation::event_frame(*old(self), *final(self)),
            final(self).world.node_ids@ == old(self).world.node_ids@,
            final(self).world.consensus@ == old(self).world.consensus@,
            old(self).protocols@.contains(ProtocolKind::NakamotoConsensus) && old(self).world.is_node(node) && (update matches PeerSetUpdate::PeerAdded(peer)) && old(self).world.is_node(update->PeerAdded_0) ==> forall|
                id: crate::nakamoto_consensus::BlockId,
            |
                #[trigger] old(self).world.consensus@[node.id]@.blocks.dom().contains(id)
                    ==> final(self).world.flooding@[node.id].spec_knows(
                    update->PeerAdded_0.id,
                    Payload::BlockPayload(
                        Block {
                            hash: id,
                            hash_prev: old(self).world.consensus@[node.id]@.blocks[id].1,
                        },
                    ),
                ),
            (old(self).protocols@.contains(ProtocolKind::NakamotoConsensus) || old(self).protocols@.contains(ProtocolKind::SimpleFlooding)) && old(self).world.is_node(node)
                && (update matches PeerSetUpdate::PeerRemoved(peer)) ==> final(self).world.flooding@[node.id].ledger() =~= old(self).world.flooding@[node.id].ledger().remove(
                update->PeerRemoved_0.id,
            ),
    {
        let n = self.protocols.len();
        let mut i: usize = 0;
        while i < n
            invariant
                0 <= i <= n,
                self.wf(),
                n == self.protocols@.len(),
                tips_advance(old(self).world, self.world),
                no_message_revival(old(self).world, self.world),
                self.time_now == old(self).time_now,
                self.protocols == old(self).protocols,
                self.world.node_ids@ == old(self).world.node_ids@,
                self.world.consensus@ == old(self).world.consensus@,
                old(self).world.is_node(node) && (update matches PeerSetUpdate::PeerAdded(peer))
                    && old(self).world.is_node(update->PeerAdded_0) && (exists|j: int|
                    0 <= j < i && self.protocols@[j] == ProtocolKind::NakamotoConsensus)
                    ==> forall|id: crate::nakamoto_consensus::BlockId|
                    #[trigger] old(self).world.consensus@[node.id]@.blocks.dom().contains(id)
                        ==> self.world.flooding@[node.id].spec_knows(
                        update->PeerAdded_0.id,
                        Payload::BlockPayload(
                            Block {
                                hash: id,
                                hash_prev: old(self).world.consensus@[node.id]@.blocks[id].1,
                            },
                        ),
                    ),
                old(self).world.is_node(node) && (update matches PeerSetUpdate::PeerRemoved(peer))
                    ==> self.world.flooding@[node.id].ledger() == old(self).world.flooding@[
                    node.id
                ].ledger() || self.world.flooding@[node.id].ledger() =~= old(self).world.flooding@[node.id].ledger().remove(update->PeerRemoved_0.id),
                old(self).world.is_node(node) && (update matches PeerSetUpdate::PeerRemoved(peer))
                    && (exists|j: int|
                    0 <= j < i && (self.protocols@[j] == ProtocolKind::NakamotoConsensus
                        || self.protocols@[j] == ProtocolKind::SimpleFlooding))
                    ==> self.world.flooding@[node.id].ledger() =~= old(self).world.flooding@[
                    node.id
                ].ledger().remove(update->PeerRemoved_0.id),
            decreases n - i,
        {
            let p = self.protocols[i];
            let ghost wmid = self.world;
            match p {
                ProtocolKind::NakamotoConsensus => self.nakamoto_peer_update(node, update),
                ProtocolKind::SimpleFlooding => {
                    match update {
                        PeerSetUpdate::PeerAdded(peer) => {
                            let items = match self.world.flooding.get(node.id) {
                                Some(fs) => fs.haves_vec(),
                                None => Vec::new(),
                            };
                            self.flood_peer_with(node, peer, items);
                        },
                        PeerSetUpdate::PeerRemoved(peer) => {
                            if self.world.node_ids.contains(node.id) {
                                let fs_opt = self.world.flooding.remove(node.id);
                                match fs_opt {
                                    Some(mut fs) => {
                                        fs.forget_peer(peer.id);
                                        self.world.flooding.set(node.id, fs);
                                        proof {
                                            assert(self.world.flooding@.dom() =~= wmid.flooding@.dom());
                                            assert(self.world.wf());
                                            assert(self.world.flooding@[node.id].ledger()
                                                =~= wmid.flooding@[node.id].ledger().remove(
                                                peer.id,
                                            ));
                                        }
                                    },
                                    None => {
                                        proof {
                                            assert(false);
                                        }
                                    },
                                }
                            }
                        },
                    }
                },
            }
            proof {
                lemma_tips_trans(old(self).world, wmid, self.world);
                lemma_revival_trans(old(self).world, wmid, self.world);
                if update matches PeerSetUpdate::PeerRemoved(peer) {
                    if p == ProtocolKind::NakamotoConsensus || p == ProtocolKind::SimpleFlooding {
                        assert(self.protocols@[i as int] == p);
                    }
                }
                if update matches PeerSetUpdate::PeerAdded(peer) {
                    if p == ProtocolKind::NakamotoConsensus {
                        assert(self.protocols@[i as int] == ProtocolKind::NakamotoConsensus);
                    }
                }
            }
            i += 1;
        }
        proof {
            if old(self).protocols@.contains(ProtocolKind::NakamotoConsensus) {
                let j = choose|j: int|
                    0 <= j < self.protocols@.len() && self.protocols@[j]
                        == ProtocolKind::NakamotoConsensus;
            }
            if old(self).protocols@.contains(ProtocolKind::SimpleFlooding) {
                let j = choose|j: int|
                    0 <= j < self.protocols@.len() && self.protocols@[j]
                        == ProtocolKind::SimpleFlooding;
            }
        }
    }

    /// Handle one due event. An event aimed at an entity that is gone is
    /// a silent no-op; a failing command is logged and the simulation
    /// goes on.
    pub fn apply_event(&mut self, event: SimEvent)
        requires
            old(self).wf(),
        ensures
            Simulation::event_frame(*old(self), *final(self)),
            // an arrived message entity is destroyed, for good
            (event matches SimEvent::MessageArrived(ent)) ==> !final(self).world.messages@.dom().contains(event->MessageArrived_0.id),
            // a delivered block is registered at its destination by the
            // longest-chain rule
            (event matches SimEvent::MessageArrived(ent)) && old(self).world.messages@.dom().contains(
                event->MessageArrived_0.id,
            ) && (old(self).world.messages@[event->MessageArrived_0.id].payload matches Payload::BlockPayload(b))
                && old(self).protocols@.no_duplicates() && old(self).protocols@.contains(
                ProtocolKind::NakamotoConsensus,
            ) && old(self).world.is_node(
                old(self).world.messages@[event->MessageArrived_0.id].msg.dest,
            ) ==> final(self).world.consensus@[old(self).world.messages@[event->MessageArrived_0.id].msg.dest.id]@
                == spec_register(
                old(self).world.consensus@[old(self).world.messages@[event->MessageArrived_0.id].msg.dest.id]@,
                old(self).world.messages@[event->MessageArrived_0.id].payload->BlockPayload_0,
            ).0,
            // a poke makes the poked node mine a fresh block on its tip
            (event matches SimEvent::Node(n, ev) && ev == NodeEvent::Poke) && old(self).protocols@.no_duplicates() && old(self).protocols@.contains(
                ProtocolKind::NakamotoConsensus,
            ) && old(self).world.is_node(event->Node_0) ==> exists|b: Block|
                b.hash_prev == old(self).world.consensus@[event->Node_0.id]@.tip && b.hash
                    != crate::nakamoto_consensus::genesis_id() && final(self).world.consensus@[
                    event->Node_0.id
                ]@ == spec_register(old(self).world.consensus@[event->Node_0.id]@, b).0,
    {
        match event {
            SimEvent::MessageArrived(ent) => {
                let rec_opt = self.world.despawn_message(ent);
                match rec_opt {
                    None => (),
                    Some(rec) => {
                        proof {
                            assert(ent.id < old(self).world.next_id);
                        }
                        let t = self.time_now;
                        self.log(t, LogEntry::Received(rec.msg.source, rec.msg.dest));
                        self.dispatch_message(rec.msg, rec.payload);
                    },
                }
            },
            SimEvent::Node(node, node_event) => {
                match node_event {
                    NodeEvent::Poke => self.dispatch_poke(node),
                    NodeEvent::PeerSetChanged(update) => self.dispatch_peer_update(node, update),
                }
            },
            SimEvent::Command(cmd) => self.apply_command(cmd),
        }
    }

    fn apply_command(&mut self, cmd: Command)
        requires
            old(self).wf(),
        ensures
            Simulation::event_frame(*old(self), *final(self)),
            // poking a node mines a fresh block on its current tip
            (cmd matches Command::PokeNode(n)) && old(self).protocols@.no_duplicates() && old(self).protocols@.contains(ProtocolKind::NakamotoConsensus) && old(self).world.is_node(
                cmd->PokeNode_0,
            ) ==> exists|b: Block|
                b.hash_prev == old(self).world.consensus@[cmd->PokeNode_0.id]@.tip && b.hash
                    != crate::nakamoto_consensus::genesis_id() && final(self).world.consensus@[
                    cmd->PokeNode_0.id
                ]@ == spec_register(old(self).world.consensus@[cmd->PokeNode_0.id]@, b).0,
            // an injected block is registered by the longest-chain rule
            (cmd matches Command::MineBlock(n, b)) && old(self).world.is_node(cmd->MineBlock_0)
                ==> final(self).world.consensus@[cmd->MineBlock_0.id]@ == spec_register(
                old(self).world.consensus@[cmd->MineBlock_0.id]@,
                cmd->MineBlock_1,
            ).0,
            // an injected datum is noted as seen at its node
            (cmd matches Command::InjectDatum(n, d)) && old(self).world.is_node(cmd->InjectDatum_0)
                ==> final(self).world.flooding@[cmd->InjectDatum_0.id].haves().contains(
                Payload::Datum(cmd->InjectDatum_1),
            ),
            // a peering command takes effect on the named node's peer set
            (cmd matches Command::AddPeer(c)) && old(self).world.is_node(cmd->AddPeer_0.0) && old(self).world.is_node(cmd->AddPeer_0.1) ==> final(self).world.peer_sets@[
                cmd->AddPeer_0.0.id
            ].peer_ids() =~= old(self).world.peer_sets@[cmd->AddPeer_0.0.id].peer_ids().insert(
                cmd->AddPeer_0.1.id,
            ),
            (cmd matches Command::RemovePeer(c)) && old(self).world.is_node(cmd->RemovePeer_0.0)
                ==> final(self).world.peer_sets@[cmd->RemovePeer_0.0.id].peer_ids() =~= old(self).world.peer_sets@[cmd->RemovePeer_0.0.id].peer_ids().remove(cmd->RemovePeer_0.1.id),
    {
        match cmd {
            Command::PokeNode(node) => self.dispatch_poke(node),
            Command::PokeMultipleRandomNodes(n) => {
                let nodes = self.world.node_entities();
                let chosen = crate::rng::choose_entities(&mut self.rng, &nodes, n as usize);
                let m = chosen.len();
                let mut i: usize = 0;
                while i < m
                    invariant
                        0 <= i <= m,
                        m == chosen@.len(),
                        self.wf(),
                        tips_advance(old(self).world, self.world),
                no_message_revival(old(self).world, self.world),
                        self.time_now == old(self).time_now,
                        self.protocols == old(self).protocols,
                    decreases m - i,
                {
                    let ghost wmid = self.world;
                    let node = chosen[i];
                    self.dispatch_poke(node);
                    proof {
                        lemma_tips_trans(old(self).world, wmid, self.world);
                lemma_revival_trans(old(self).world, wmid, self.world);
                    }
                    i += 1;
                }
            },
            Command::SpawnRandomNodes(n) => {
                let mut i: u32 = 0;
                while i < n
                    invariant
                        self.wf(),
                        tips_advance(old(self).world, self.world),
                no_message_revival(old(self).world, self.world),
                        self.time_now == old(self).time_now,
                        self.protocols == old(self).protocols,
                    decreases n - i,
                {
                    let ghost wmid = self.world;
                    if self.world.next_id < u64::MAX {
                        self.spawn_random_node();
                    }
                    proof {
                        lemma_tips_trans(old(self).world, wmid, self.world);
                lemma_revival_trans(old(self).world, wmid, self.world);
                    }
                    i += 1;
                }
            },
            Command::SpawnRandomMessages(n) => {
                let mut i: u32 = 0;
                while i < n
                    invariant
                        self.wf(),
                        tips_advance(old(self).world, self.world),
                no_message_revival(old(self).world, self.world),
                        self.time_now == old(self).time_now,
                        self.protocols == old(self).protocols,
                    decreases n - i,
                {
                    let ghost wmid = self.world;
                    self.spawn_message_between_random_nodes();
                    proof {
                        lemma_tips_trans(old(self).world, wmid, self.world);
                lemma_revival_trans(old(self).world, wmid, self.world);
                    }
                    i += 1;
                }
            },
            Command::AddPeer(c) => crate::peers::add_peer(self, c.0, c.1),
            Command::RemovePeer(c) => crate::peers::remove_peer(self, c.0, c.1),
            Command::MakeDelaunayNetwork(_) => {
                let r = crate::peers::make_delaunay_network(self);
                match r {
                    Ok(_) => (),
                    Err(_) => {
                        let t = self.time_now;
                        self.log(t, LogEntry::CommandFailed);
                    },
                }
            },
            Command::InjectDatum(node, d) => self.inject_item(node, Payload::Datum(d)),
            Command::MineBlock(node, b) => self.register_and_flood(node, b),
        }
    }

    /// Repeatedly pop the earliest pending event while it is due no later
    /// than `sim_time`, advance the clock to its due time, and handle it;
    /// then advance the clock to `sim_time` itself. Returns whether the
    /// queue was drained down to events past `sim_time`; only a run that
    /// exhausts the generous step budget reports otherwise, and then the
    /// clock stops at the last handled event.
    pub fn work_until(&mut self, sim_time: SimSeconds) -> (drained: bool)
        requires
            old(self).wf(),
        ensures
            final(self).wf(),
            tips_advance(old(self).world, final(self).world),
            final(self).protocols == old(self).protocols,
            final(self).time_now >= old(self).time_now,
            drained ==> final(self).time_now == (if sim_time > old(self).time_now {
                sim_time
            } else {
                old(self).time_now
            }),
            drained <==> forall|i: int|
                0 <= i < final(self).queue.view_seq().len() ==> (#[trigger] final(self).queue.view_seq()[i]).time > sim_time,
    {
        let mut fuel: u64 = STEP_BUDGET;
        let mut drained = false;
        while fuel > 0
            invariant_except_break
                !drained,
            invariant
                self.wf(),
                tips_advance(old(self).world, self.world),
                no_message_revival(old(self).world, self.world),
                self.protocols == old(self).protocols,
                self.time_now >= old(self).time_now,
                self.time_now == old(self).time_now || self.time_now <= sim_time,
            ensures
                self.wf(),
                tips_advance(old(self).world, self.world),
                no_message_revival(old(self).world, self.world),
                self.protocols == old(self).protocols,
                self.time_now >= old(self).time_now,
                self.time_now == old(self).time_now || self.time_now <= sim_time,
                drained ==> forall|i: int|
                    0 <= i < self.queue.view_seq().len() ==> (#[trigger] self.queue.view_seq()[i]).time
                        > sim_time,
            decreases fuel,
        {
            let popped = self.queue.pop_due(sim_time);
            match popped {
                None => {
                    drained = true;
                    proof {
                        if self.queue.view_seq().len() > 0 {
                            self.queue.lemma_head_min();
                        }
                    }
                    break ;
                },
                Some(ev) => {
                    if ev.time > self.time_now {
                        self.time_now = ev.time;
                    }
                    proof {
                        assert(self.wf());
                    }
                    let ghost wmid = self.world;
                    self.apply_event(ev.event);
                    proof {
                        lemma_tips_trans(old(self).world, wmid, self.world);
                lemma_revival_trans(old(self).world, wmid, self.world);
                    }
                },
            }
            fuel = fuel - 1;
        }
        if !drained {
            // the budget ran out; report honestly whether anything due
            // is in fact left
            if !self.queue.has_due(sim_time) {
                drained = true;
                proof {
                    if self.queue.view_seq().len() > 0 {
                        self.queue.lemma_head_min();
                    }
                }
            }
        }
        if drained && sim_time > self.time_now {
            self.time_now = sim_time;
        }
        proof {
            if !drained {
                assert(self.queue.view_seq()[0].time <= sim_time);
            }
        }
        drained
    }

    /// Advance the simulation by `duration` virtual seconds, saturating
    /// at the end of representable time. Returns whether the queue was
    /// drained of everything due within the advanced span.
    pub fn catch_up(&mut self, duration: SimSeconds) -> (drained: bool)
        requires
            old(self).wf(),
        ensures
            final(self).wf(),
            tips_advance(old(self).world, final(self).world),
            final(self).protocols == old(self).protocols,
            final(self).time_now >= old(self).time_now,
            drained ==> final(self).time_now == (if old(self).time_now <= u64::MAX - duration {
                old(self).time_now + duration
            } else {
                u64::MAX as int
            }),
            drained <==> forall|i: int|
                0 <= i < final(self).queue.view_seq().len() ==> (#[trigger] final(self).queue.view_seq()[i]).time > (if old(self).time_now <= u64::MAX
                    - duration {
                    old(self).time_now + duration
                } else {
                    u64::MAX as int
                }),
    {
        let target = if self.time_now <= u64::MAX - duration {
            self.time_now + duration
        } else {
            u64::MAX
        };
        self.work_until(target)
    }
}

} // verus!
