use vstd::prelude::*;

use crate::nakamoto_consensus::Block;
use crate::peers::{AddPeer, MakeDelaunayNetwork, NodeEvent, RemovePeer};
use crate::underlay::SimSeconds;
use crate::Entity;

verus! {

/// A command issued from outside the simulation, executed at the virtual
/// instant it is scheduled for.
#[derive(Clone, Copy, PartialEq, Eq, Structural, Debug)]
pub enum Command {
    PokeNode(Entity),
    PokeMultipleRandomNodes(u32),
    SpawnRandomNodes(u32),
    SpawnRandomMessages(u32),
    AddPeer(AddPeer),
    RemovePeer(RemovePeer),
    MakeDelaunayNetwork(MakeDelaunayNetwork),
    InjectDatum(Entity, u64),
    MineBlock(Entity, Block),
}

/// A pending occurrence in the simulated world.
#[derive(Clone, Copy, PartialEq, Eq, Structural, Debug)]
pub enum SimEvent {
    MessageArrived(Entity),
    Node(Entity, NodeEvent),
    Command(Command),
}

/// An event with its due time and its scheduling rank: events due at the
/// same instant are served in scheduling order.
#[derive(Clone, Copy, PartialEq, Eq, Structural, Debug)]
pub struct TimedEvent {
    pub time: SimSeconds,
    pub seq: u64,
    pub event: SimEvent,
}

/// The due-time-ordered queue of pending events. Ordering is by due time
/// with a stable first-in-first-out tie-break, which keeps runs
/// reproducible.
pub struct EventQueue {
    items: Vec<TimedEvent>,
    next_seq: u64,
}

impl EventQueue {
    /// Items ascend by due time; among equal due times, by scheduling
    /// rank; and every rank is below the next one to be handed out.
    pub closed spec fn wf(self) -> bool {
        &&& forall|i: int, j: int|
            0 <= i < j < self.items@.len() ==> (#[trigger] self.items@[i]).time
                < (#[trigger] self.items@[j]).time || (self.items@[i].time == self.items@[j].time
                && self.items@[i].seq < self.items@[j].seq)
        &&& forall|i: int|
            0 <= i < self.items@.len() ==> (#[trigger] self.items@[i]).seq < self.next_seq
    }

    pub closed spec fn view_seq(self) -> Seq<TimedEvent> {
        self.items@
    }

    pub closed spec fn spec_next_seq(self) -> u64 {
        self.next_seq
    }

    pub fn new() -> (r: EventQueue)
        ensures
            r.wf(),
            r.view_seq() =~= Seq::<TimedEvent>::empty(),
            r.spec_next_seq() == 0,
    {
        EventQueue { items: Vec::new(), next_seq: 0 }
    }

    pub fn len(&self) -> (r: usize)
        ensures
            r == self.view_seq().len(),
    {
        self.items.len()
    }

    /// How many scheduling ranks have been handed out so far.
    pub fn ranks_used(&self) -> (r: u64)
        ensures
            r == self.spec_next_seq(),
    {
        self.next_seq
    }

    /// Enqueue an event for `time`: it takes the next scheduling rank and
    /// slots in after every event due no later than it, so equal due
    /// times are served first-in-first-out.
    pub fn push(&mut self, time: SimSeconds, event: SimEvent)
        requires
            old(self).wf(),
            old(self).spec_next_seq() < u64::MAX,
        ensures
            final(self).wf(),
            final(self).spec_next_seq() == old(self).spec_next_seq() + 1,
            exists|i: int|
                0 <= i <= old(self).view_seq().len() && final(self).view_seq() == old(
                    self,
                ).view_seq().insert(
                    i,
                    TimedEvent { time, seq: old(self).spec_next_seq(), event },
                ) && (forall|j: int| 0 <= j < i ==> old(self).view_seq()[j].time <= time) && (
                forall|j: int|
                    i <= j < old(self).view_seq().len() ==> old(self).view_seq()[j].time > time),
    {
        let ev = TimedEvent { time, seq: self.next_seq, event };
        self.next_seq = self.next_seq + 1;
        let n = self.items.len();
        let mut i: usize = 0;
        while i < n
            invariant
                self.items@ == old(self).view_seq(),
                self.next_seq == old(self).spec_next_seq() + 1,
                ev == (TimedEvent { time, seq: old(self).spec_next_seq(), event }),
                old(self).wf(),
                n == self.items@.len(),
                0 <= i <= n,
                forall|j: int| 0 <= j < i ==> (#[trigger] self.items@[j]).time <= time,
            decreases n - i,
        {
            if self.items[i].time > time {
                let ghost s = self.items@;
                self.items.insert(i, ev);
                proof {
                    s.insert_ensures(i as int, ev);
                    assert forall|a: int, b: int|
                        0 <= a < b < self.items@.len() implies (#[trigger] self.items@[a]).time
                        < (#[trigger] self.items@[b]).time || (self.items@[a].time
                        == self.items@[b].time && self.items@[a].seq < self.items@[b].seq) by {
                        if b < i {
                        } else if a < i && b == i {
                        } else if a < i && b > i {
                            let jb = b - 1;
                            assert(s.insert(i as int, ev)[jb + 1] == s[jb]);
                        } else if a == i {
                            let jb = b - 1;
                            assert(s.insert(i as int, ev)[jb + 1] == s[jb]);
                        } else {
                            let ja = a - 1;
                            let jb = b - 1;
                            assert(s.insert(i as int, ev)[ja + 1] == s[ja]);
                            assert(s.insert(i as int, ev)[jb + 1] == s[jb]);
                        }
                    }
                    assert forall|a: int| 0 <= a < self.items@.len() implies (
                    #[trigger] self.items@[a]).seq < self.next_seq by {
                        if a < i {
                        } else if a == i {
                        } else {
                            let ja = a - 1;
                            assert(s.insert(i as int, ev)[ja + 1] == s[ja]);
                        }
                    }
                }
                return ;
            }
            i += 1;
        }
        let ghost s = self.items@;
        self.items.push(ev);
        proof {
            assert(self.items@ =~= s.insert(s.len() as int, ev));
            s.insert_ensures(s.len() as int, ev);
        }
    }

    /// The head of a well-formed queue is due no later than anything
    /// behind it.
    pub proof fn lemma_head_min(self)
        requires
            self.wf(),
            self.view_seq().len() > 0,
        ensures
            forall|j: int|
                0 <= j < self.view_seq().len() ==> (#[trigger] self.view_seq()[j]).time
                    >= self.view_seq()[0].time,
    {
        assert forall|j: int|
            0 <= j < self.view_seq().len() implies (#[trigger] self.view_seq()[j]).time
            >= self.view_seq()[0].time by {
            if j > 0 {
                assert(self.items@[0].time < self.items@[j].time || (self.items@[0].time
                    == self.items@[j].time && self.items@[0].seq < self.items@[j].seq));
            }
        }
    }

    /// Whether anything is pending that is due no later than `bound`.
    pub fn has_due(&self, bound: SimSeconds) -> (r: bool)
        ensures
            r == (self.view_seq().len() > 0 && self.view_seq()[0].time <= bound),
    {
        if self.items.len() == 0 {
            false
        } else {
            self.items[0].time <= bound
        }
    }

    /// Pop the earliest-due event if it is due no later than `bound`.
    pub fn pop_due(&mut self, bound: SimSeconds) -> (r: Option<TimedEvent>)
        requires
            old(self).wf(),
        ensures
            final(self).wf(),
            final(self).spec_next_seq() == old(self).spec_next_seq(),
            match r {
                Some(ev) => old(self).view_seq().len() > 0 && ev == old(self).view_seq()[0]
                    && ev.time <= bound && final(self).view_seq() == old(self).view_seq().drop_first()
                    && (forall|j: int|
                    0 <= j < old(self).view_seq().len() ==> ev.time <= old(
                        self,
                    ).view_seq()[j].time),
                None => *final(self) == *old(self) && (old(self).view_seq().len() == 0 || old(
                    self,
                ).view_seq()[0].time > bound),
            },
    {
        if self.items.len() == 0 {
            return None;
        }
        if self.items[0].time > bound {
            return None;
        }
        let ghost s = self.items@;
        let ev = self.items.remove(0);
        proof {
            assert(self.items@ =~= s.drop_first());
            assert forall|j: int| 0 <= j < s.len() implies ev.time <= (#[trigger] s[j]).time by {
                if j > 0 {
                    assert(s[0].time < s[j].time || (s[0].time == s[j].time && s[0].seq
                        < s[j].seq));
                }
            }
            assert forall|a: int, b: int|
                0 <= a < b < self.items@.len() implies (#[trigger] self.items@[a]).time
                < (#[trigger] self.items@[b]).time || (self.items@[a].time == self.items@[b].time
                && self.items@[a].seq < self.items@[b].seq) by {
                assert(self.items@[a] == s[a + 1]);
                assert(self.items@[b] == s[b + 1]);
            }
            assert forall|a: int| 0 <= a < self.items@.len() implies (
            #[trigger] self.items@[a]).seq < self.next_seq by {
                assert(self.items@[a] == s[a + 1]);
            }
        }
        Some(ev)
    }
}

} // verus!
