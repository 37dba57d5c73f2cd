use vstd::prelude::*;

use crate::scheduler::SimEvent;
use crate::sim::{peers_rel, symmetric_topology, SimError, Simulation};
use crate::table::Table;
use crate::underlay::{SimSeconds, UnderlayPosition};
use crate::world::World;
use crate::Entity;

verus! {

/// What changed about a node's peer set, as reported to its protocols.
#[derive(Clone, Copy, PartialEq, Eq, Structural, Debug)]
pub enum PeerSetUpdate {
    PeerAdded(Entity),
    PeerRemoved(Entity),
}

/// What a scheduled peer-set notification tells a node's protocols.
#[derive(Clone, Copy, PartialEq, Eq, Structural, Debug)]
pub enum NodeEvent {
    Poke,
    PeerSetChanged(PeerSetUpdate),
}

/// Command: insert the second entity into the first one's peer set and
/// notify the first one's protocols at the same virtual instant.
#[derive(Clone, Copy, PartialEq, Eq, Structural, Debug)]
pub struct AddPeer(pub Entity, pub Entity);

/// Command: the symmetric removal.
#[derive(Clone, Copy, PartialEq, Eq, Structural, Debug)]
pub struct RemovePeer(pub Entity, pub Entity);

/// Command: rebuild the whole topology as a Delaunay triangulation over
/// the node positions.
#[derive(Clone, Copy, PartialEq, Eq, Structural, Debug, Default)]
pub struct MakeDelaunayNetwork;

/// Per-node set of unique peers, with the virtual time of the last
/// successful change so that observers can detect staleness.
pub struct PeerSet {
    members: Table<()>,
    last_update: SimSeconds,
}

impl PeerSet {
    /// The peer entity ids this set holds.
    pub closed spec fn peer_ids(self) -> Set<u64> {
        self.members@.dom()
    }

    pub closed spec fn spec_last_update(self) -> SimSeconds {
        self.last_update
    }

    pub closed spec fn wf(self) -> bool {
        self.members.wf()
    }

    /// The ids, ascending: the iteration order of the set.
    pub closed spec fn id_seq(self) -> Seq<u64> {
        self.members.key_seq()
    }

    pub proof fn lemma_id_seq(self)
        requires
            self.wf(),
        ensures
            self.id_seq().no_duplicates(),
            self.id_seq().to_set() =~= self.peer_ids(),
            self.peer_ids().finite(),
            forall|i: int, j: int|
                0 <= i < j < self.id_seq().len() ==> self.id_seq()[i] < self.id_seq()[j],
    {
        self.members.lemma_keys_no_duplicates();
    }

    pub fn new() -> (r: PeerSet)
        ensures
            r.wf(),
            r.peer_ids() =~= Set::<u64>::empty(),
            r.spec_last_update() == 0,
    {
        PeerSet { members: Table::new(), last_update: 0 }
    }

    /// A set prefilled with the given peers, with the timestamp left at
    /// its default; mostly useful for tests.
    pub fn default_from(peers: Vec<Entity>) -> (r: PeerSet)
        ensures
            r.wf(),
            forall|e: Entity| r.peer_ids().contains(e.id) <==> peers@.map_values(
                |p: Entity| p.id,
            ).contains(e.id),
            r.spec_last_update() == 0,
    {
        let mut r = PeerSet::new();
        let n = peers.len();
        let mut i: usize = 0;
        while i < n
            invariant
                n == peers@.len(),
                0 <= i <= n,
                r.wf(),
                r.spec_last_update() == 0,
                forall|k: u64|
                    r.peer_ids().contains(k) <==> peers@.subrange(0, i as int).map_values(
                        |p: Entity| p.id,
                    ).contains(k),
            decreases n - i,
        {
            let ghost before = r;
            let present = r.contains(&peers[i]);
            if !present {
                r.insert(peers[i], 0);
            }
            proof {
                let pre = peers@.subrange(0, i as int).map_values(|p: Entity| p.id);
                let cur = peers@.subrange(0, i as int + 1).map_values(|p: Entity| p.id);
                assert forall|k: u64| r.peer_ids().contains(k) <==> cur.contains(k) by {
                    assert(cur.len() == pre.len() + 1);
                    assert forall|j: int| 0 <= j < pre.len() implies cur[j] == pre[j] by {
                        assert(peers@.subrange(0, i as int)[j] == peers@[j]);
                        assert(peers@.subrange(0, i as int + 1)[j] == peers@[j]);
                    }
                    assert(cur[pre.len() as int] == peers@[i as int].id);
                    if r.peer_ids().contains(k) {
                        if k == peers@[i as int].id {
                            assert(cur.contains(k));
                        } else {
                            assert(before.peer_ids().contains(k));
                            let j = choose|j: int| 0 <= j < pre.len() && pre[j] == k;
                            assert(cur[j] == k);
                            assert(cur.contains(k));
                        }
                    }
                    if cur.contains(k) {
                        let j = choose|j: int| 0 <= j < cur.len() && cur[j] == k;
                        if j < pre.len() {
                            assert(pre[j] == k);
                            assert(before.peer_ids().contains(k));
                        }
                        assert(r.peer_ids().contains(k));
                    }
                }
            }
            i += 1;
        }
        proof {
            assert(peers@.subrange(0, n as int) =~= peers@);
        }
        r
    }

    /// Insert a peer; on success the timestamp is bumped to `now`.
    /// Returns whether the set changed.
    pub fn insert(&mut self, peer: Entity, now: SimSeconds) -> (r: bool)
        requires
            old(self).wf(),
        ensures
            final(self).wf(),
            r == !old(self).peer_ids().contains(peer.id),
            final(self).peer_ids() =~= old(self).peer_ids().insert(peer.id),
            final(self).spec_last_update() == (if r {
                now
            } else {
                old(self).spec_last_update()
            }),
    {
        if self.members.contains(peer.id) {
            proof {
                assert(self.peer_ids() =~= self.peer_ids().insert(peer.id));
            }
            false
        } else {
            self.members.set(peer.id, ());
            self.last_update = now;
            true
        }
    }

    /// Remove a peer; on success the timestamp is bumped to `now`.
    /// Returns whether the set changed.
    pub fn remove(&mut self, peer: &Entity, now: SimSeconds) -> (r: bool)
        requires
            old(self).wf(),
        ensures
            final(self).wf(),
            r == old(self).peer_ids().contains(peer.id),
            final(self).peer_ids() =~= old(self).peer_ids().remove(peer.id),
            final(self).spec_last_update() == (if r {
                now
            } else {
                old(self).spec_last_update()
            }),
    {
        if self.members.contains(peer.id) {
            self.members.remove(peer.id);
            self.last_update = now;
            true
        } else {
            proof {
                assert(self.peer_ids() =~= self.peer_ids().remove(peer.id));
            }
            false
        }
    }

    pub fn contains(&self, peer: &Entity) -> (r: bool)
        requires
            self.wf(),
        ensures
            r == self.peer_ids().contains(peer.id),
    {
        self.members.contains(peer.id)
    }

    pub fn len(&self) -> (r: usize)
        requires
            self.wf(),
        ensures
            r == self.peer_ids().len(),
    {
        self.members.len()
    }

    pub fn last_update(&self) -> (r: SimSeconds)
        ensures
            r == self.spec_last_update(),
    {
        self.last_update
    }

    /// The peers as a vector, ascending by entity id.
    pub fn iter(&self) -> (r: Vec<Entity>)
        requires
            self.wf(),
        ensures
            r@.map_values(|e: Entity| e.id) =~= self.id_seq(),
            r@.len() == self.peer_ids().len(),
            forall|i: int| 0 <= i < r@.len() ==> self.peer_ids().contains(#[trigger] r@[i].id),
            r@.no_duplicates(),
    {
        proof {
            self.lemma_id_seq();
            self.id_seq().unique_seq_to_set();
        }
        let n = self.members.len();
        let mut r: Vec<Entity> = Vec::new();
        let mut i: usize = 0;
        while i < n
            invariant
                self.wf(),
                n == self.id_seq().len(),
                0 <= i <= n,
                r@.len() == i,
                forall|j: int| 0 <= j < i ==> (#[trigger] r@[j]).id == self.id_seq()[j],
            decreases n - i,
        {
            let id = self.members.key_at(i);
            r.push(Entity { id });
            i += 1;
        }
        proof {
            self.lemma_id_seq();
            assert(r@.map_values(|e: Entity| e.id) =~= self.id_seq());
            assert forall|i2: int| 0 <= i2 < r@.len() implies self.peer_ids().contains(
                #[trigger] r@[i2].id,
            ) by {
                assert(r@[i2].id == self.id_seq()[i2]);
                assert(self.id_seq().to_set().contains(self.id_seq()[i2]));
            }
            assert forall|a: int, b: int| 0 <= a < b < r@.len() implies r@[a] != r@[b] by {
                assert(r@[a].id == self.id_seq()[a]);
                assert(r@[b].id == self.id_seq()[b]);
            }
        }
        r
    }
}


/// Insert `peer` into `node`'s peer set at the current virtual time and
/// notify `node`'s protocols at the same instant with a "peer added"
/// event. Symmetric linking takes a second call with the roles swapped.
/// Both entities must name live nodes; otherwise nothing happens.
pub fn add_peer(sim: &mut Simulation, node: Entity, peer: Entity)
    requires
        old(sim).wf(),
    ensures
        final(sim).wf(),
        final(sim).world.node_ids@ == old(sim).world.node_ids@,
        final(sim).world.next_id == old(sim).world.next_id,
        final(sim).world.consensus@ == old(sim).world.consensus@,
        final(sim).world.flooding@ == old(sim).world.flooding@,
        final(sim).world.messages@ == old(sim).world.messages@,
        final(sim).time_now == old(sim).time_now,
        final(sim).protocols == old(sim).protocols,
        final(sim).world.peer_sets@.dom() == old(sim).world.peer_sets@.dom(),
        old(sim).world.is_node(node) && old(sim).world.is_node(peer) ==> final(sim).world.peer_sets@[node.id].peer_ids() =~= old(sim).world.peer_sets@[node.id].peer_ids().insert(peer.id),
        forall|k: u64|
            #[trigger] old(sim).world.peer_sets@.dom().contains(k) && k != node.id ==> final(sim).world.peer_sets@[k] == old(sim).world.peer_sets@[k],
        !(old(sim).world.is_node(node) && old(sim).world.is_node(peer)) ==> final(sim).world.peer_sets@ == old(sim).world.peer_sets@,
{
    if !sim.world.node_ids.contains(node.id) || !sim.world.node_ids.contains(peer.id) {
        return ;
    }
    let now = sim.now();
    let ps_opt = sim.world.peer_sets.remove(node.id);
    let mut ps = match ps_opt {
        Some(p) => p,
        None => {
            proof {
                assert(false);
            }
            return ;
        },
    };
    ps.insert(peer, now);
    sim.world.peer_sets.set(node.id, ps);
    proof {
        assert(sim.world.peer_sets@.dom() =~= old(sim).world.peer_sets@.dom());
        assert(sim.world.wf()) by {
            assert forall|k: u64| #[trigger] sim.world.node_ids@.dom().contains(k) implies
                sim.world.peer_sets@[k].wf() && sim.world.peer_sets@[k].peer_ids().subset_of(
                sim.world.node_ids@.dom(),
            ) by {
                if k != node.id {
                    assert(sim.world.peer_sets@[k] == old(sim).world.peer_sets@[k]);
                }
            }
        }
    }
    sim.schedule(
        now,
        SimEvent::Node(
            node,
            crate::peers::NodeEvent::PeerSetChanged(PeerSetUpdate::PeerAdded(peer)),
        ),
    );
}

/// Remove `peer` from `node`'s peer set at the current virtual time and
/// notify `node`'s protocols with a "peer removed" event.
pub fn remove_peer(sim: &mut Simulation, node: Entity, peer: Entity)
    requires
        old(sim).wf(),
    ensures
        final(sim).wf(),
        final(sim).world.node_ids@ == old(sim).world.node_ids@,
        final(sim).world.next_id == old(sim).world.next_id,
        final(sim).world.consensus@ == old(sim).world.consensus@,
        final(sim).world.flooding@ == old(sim).world.flooding@,
        final(sim).world.messages@ == old(sim).world.messages@,
        final(sim).time_now == old(sim).time_now,
        final(sim).protocols == old(sim).protocols,
        final(sim).world.peer_sets@.dom() == old(sim).world.peer_sets@.dom(),
        old(sim).world.is_node(node) ==> final(sim).world.peer_sets@[node.id].peer_ids() =~= old(sim).world.peer_sets@[node.id].peer_ids().remove(peer.id),
        forall|k: u64|
            #[trigger] old(sim).world.peer_sets@.dom().contains(k) && k != node.id ==> final(sim).world.peer_sets@[k] == old(sim).world.peer_sets@[k],
        !old(sim).world.is_node(node) ==> final(sim).world.peer_sets@ == old(sim).world.peer_sets@,
{
    if !sim.world.node_ids.contains(node.id) {
        return ;
    }
    let now = sim.now();
    let ps_opt = sim.world.peer_sets.remove(node.id);
    let mut ps = match ps_opt {
        Some(p) => p,
        None => {
            proof {
                assert(false);
            }
            return ;
        },
    };
    ps.remove(&peer, now);
    sim.world.peer_sets.set(node.id, ps);
    proof {
        assert(sim.world.peer_sets@.dom() =~= old(sim).world.peer_sets@.dom());
        assert(sim.world.wf()) by {
            assert forall|k: u64| #[trigger] sim.world.node_ids@.dom().contains(k) implies
                sim.world.peer_sets@[k].wf() && sim.world.peer_sets@[k].peer_ids().subset_of(
                sim.world.node_ids@.dom(),
            ) by {
                if k != node.id {
                    assert(sim.world.peer_sets@[k] == old(sim).world.peer_sets@[k]);
                }
            }
        }
    }
    sim.schedule(
        now,
        SimEvent::Node(
            node,
            crate::peers::NodeEvent::PeerSetChanged(PeerSetUpdate::PeerRemoved(peer)),
        ),
    );
}

/// Add both directions of a peer edge; a symmetric relation stays
/// symmetric.
fn add_peer_pair(sim: &mut Simulation, a: Entity, b: Entity)
    requires
        old(sim).wf(),
        old(sim).world.is_node(a),
        old(sim).world.is_node(b),
        symmetric_topology(old(sim).world),
    ensures
        final(sim).wf(),
        symmetric_topology(final(sim).world),
        final(sim).world.node_ids@ == old(sim).world.node_ids@,
        final(sim).world.next_id == old(sim).world.next_id,
        final(sim).world.consensus@ == old(sim).world.consensus@,
        final(sim).world.flooding@ == old(sim).world.flooding@,
        final(sim).world.messages@ == old(sim).world.messages@,
        final(sim).time_now == old(sim).time_now,
        final(sim).protocols == old(sim).protocols,
        final(sim).world.peer_sets@.dom() == old(sim).world.peer_sets@.dom(),
        forall|x: u64, y: u64|
            #[trigger] peers_rel(final(sim).world, x, y) <==> peers_rel(old(sim).world, x, y) || (
            x == a.id && y == b.id) || (x == b.id && y == a.id),
{
    let ghost w0 = sim.world;
    add_peer(sim, a, b);
    let ghost w1 = sim.world;
    add_peer(sim, b, a);
    proof {
        assert forall|x: u64, y: u64|
            #[trigger] peers_rel(sim.world, x, y) <==> peers_rel(w0, x, y) || (x == a.id && y
            == b.id) || (x == b.id && y == a.id) by {
            if x != a.id && x != b.id {
                if w0.peer_sets@.dom().contains(x) {
                    assert(w1.peer_sets@[x] == w0.peer_sets@[x]);
                    assert(sim.world.peer_sets@[x] == w1.peer_sets@[x]);
                }
            } else if x == a.id && x != b.id {
                assert(w1.peer_sets@[a.id].peer_ids() =~= w0.peer_sets@[a.id].peer_ids().insert(
                    b.id,
                ));
                assert(sim.world.peer_sets@[a.id] == w1.peer_sets@[a.id]);
            } else if x == b.id {
                assert(sim.world.peer_sets@[b.id].peer_ids() =~= w1.peer_sets@[b.id].peer_ids().insert(
                    a.id,
                ));
            }
        }
        assert forall|x: u64, y: u64| #[trigger] peers_rel(sim.world, x, y) implies peers_rel(
            sim.world,
            y,
            x,
        ) by {
            if peers_rel(w0, x, y) {
                assert(peers_rel(w0, y, x));
            }
        }
    }
}

/// The triangle list delaunator computes for these point coordinates: a
/// pure function of the coordinates alone.
pub uninterp spec fn delaunay_triangles(xs: Seq<u32>, ys: Seq<u32>) -> Seq<usize>;

/// The x coordinates of the live nodes, ascending by entity id: the
/// point list handed to the triangulation.
pub open spec fn node_xs(w: World) -> Seq<u32> {
    w.node_ids.key_seq().map_values(|k: u64| w.positions@[k].x)
}

/// The matching y coordinates.
pub open spec fn node_ys(w: World) -> Seq<u32> {
    w.node_ids.key_seq().map_values(|k: u64| w.positions@[k].y)
}

/// Two of the corners of triangle `t` of the triangulation are the node
/// ids `x` and `y`.
pub open spec fn triangle_pair(w: World, x: u64, y: u64, t: int) -> bool {
    let tri = delaunay_triangles(node_xs(w), node_ys(w));
    let ks = w.node_ids.key_seq();
    t >= 0 && 3 * t + 2 < tri.len() && {
        let a = ks[tri[3 * t] as int];
        let b = ks[tri[3 * t + 1] as int];
        let c = ks[tri[3 * t + 2] as int];
        ||| (x == a && y == b)
        ||| (x == b && y == a)
        ||| (x == a && y == c)
        ||| (x == c && y == a)
        ||| (x == b && y == c)
        ||| (x == c && y == b)
    }
}

/// `x` and `y` are joined by an edge of one of the first `tmax`
/// triangles.
pub open spec fn delaunay_edge_upto(w: World, x: u64, y: u64, tmax: int) -> bool {
    exists|t: int| 0 <= t < tmax && #[trigger] triangle_pair(w, x, y, t)
}

/// `x` and `y` are joined by an edge of the Delaunay triangulation over
/// the node positions.
pub open spec fn delaunay_edge(w: World, x: u64, y: u64) -> bool {
    exists|t: int| #[trigger] triangle_pair(w, x, y, t)
}

/// Relies on delaunator::triangulate: the result is a function of the
/// point coordinates alone; the returned triangle list holds three point
/// indices per Delaunay triangle, each an index into the input point
/// list; it is empty when no triangulation exists.
#[verifier::external_body]
fn triangulate_coords(xs: &Vec<u32>, ys: &Vec<u32>) -> (t: Vec<usize>)
    requires
        xs@.len() == ys@.len(),
    ensures
        t@ == delaunay_triangles(xs@, ys@),
        t@.len() % 3 == 0,
        forall|i: int| 0 <= i < t@.len() ==> t@[i] < xs@.len(),
{
    let points: Vec<delaunator::Point> = xs
        .iter()
        .zip(ys.iter())
        .map(|(x, y)| delaunator::Point { x: (*x).into(), y: (*y).into() })
        .collect();
    delaunator::triangulate(&points).triangles
}

/// Rebuild the whole topology as a Delaunay triangulation over the node
/// positions: compute the triangulation, reset every node's peer set,
/// then add both directions of every triangulation edge. When no
/// triangulation exists the command fails atomically, leaving the
/// simulation untouched; on success the peer relation is symmetric.
pub fn make_delaunay_network(sim: &mut Simulation) -> (r: Result<(), SimError>)
    requires
        old(sim).wf(),
    ensures
        final(sim).wf(),
        final(sim).world.node_ids@ == old(sim).world.node_ids@,
        final(sim).world.next_id == old(sim).world.next_id,
        final(sim).world.consensus@ == old(sim).world.consensus@,
        final(sim).world.flooding@ == old(sim).world.flooding@,
        final(sim).world.messages@ == old(sim).world.messages@,
        final(sim).time_now == old(sim).time_now,
        final(sim).protocols == old(sim).protocols,
        r is Err ==> final(sim).world == old(sim).world && final(sim).queue == old(sim).queue,
        r is Ok <==> delaunay_triangles(node_xs(old(sim).world), node_ys(old(sim).world)).len()
            > 0,
        r is Ok ==> symmetric_topology(final(sim).world),
        // on success, the peer relation is exactly the triangulation's
        // edge relation: each node's peer set holds its triangulation
        // neighbours, and nothing else
        r is Ok ==> forall|x: u64, y: u64|
            #[trigger] peers_rel(final(sim).world, x, y) <==> delaunay_edge(
                old(sim).world,
                x,
                y,
            ),
        r is Ok ==> forall|x: u64, y: u64|
            #[trigger] delaunay_edge(old(sim).world, x, y) ==> peers_rel(final(sim).world, x, y),
{
    let nodes = sim.world.node_entities();
    let n = nodes.len();
    let mut xs: Vec<u32> = Vec::new();
    let mut ys: Vec<u32> = Vec::new();
    let mut i: usize = 0;
    while i < n
        invariant
            sim.wf(),
            sim == old(sim),
            n == nodes@.len(),
            n == node_xs(old(sim).world).len(),
            n == node_ys(old(sim).world).len(),
            0 <= i <= n,
            xs@.len() == i,
            ys@.len() == i,
            forall|j: int| 0 <= j < n ==> old(sim).world.is_node(#[trigger] nodes@[j]),
            forall|j: int|
                0 <= j < n ==> (#[trigger] nodes@[j]).id == old(sim).world.node_ids.key_seq()[j],
            forall|j: int| 0 <= j < i ==> xs@[j] == node_xs(old(sim).world)[j],
            forall|j: int| 0 <= j < i ==> ys@[j] == node_ys(old(sim).world)[j],
        decreases n - i,
    {
        let pos = match sim.world.positions.get(nodes[i].id) {
            Some(p) => *p,
            None => {
                proof {
                    assert(sim.world.positions@.dom().contains(nodes@[i as int].id));
                    assert(false);
                }
                UnderlayPosition { x: 0, y: 0 }
            },
        };
        xs.push(pos.x);
        ys.push(pos.y);
        proof {
            assert(xs@[i as int] == node_xs(old(sim).world)[i as int]);
            assert(ys@[i as int] == node_ys(old(sim).world)[i as int]);
        }
        i += 1;
    }
    proof {
        assert(xs@ =~= node_xs(old(sim).world));
        assert(ys@ =~= node_ys(old(sim).world));
    }
    let tri = triangulate_coords(&xs, &ys);
    if tri.len() == 0 {
        return Err(SimError::NoTriangulation);
    }
    // reset every peer set; the relation becomes empty, hence symmetric
    let mut i2: usize = 0;
    while i2 < n
        invariant
            sim.wf(),
            n == nodes@.len(),
            0 <= i2 <= n,
            sim.world.node_ids@ == old(sim).world.node_ids@,
            sim.world.next_id == old(sim).world.next_id,
            sim.world.consensus@ == old(sim).world.consensus@,
            sim.world.flooding@ == old(sim).world.flooding@,
            sim.world.messages@ == old(sim).world.messages@,
            sim.time_now == old(sim).time_now,
            sim.protocols == old(sim).protocols,
            sim.queue == old(sim).queue,
            forall|j: int| 0 <= j < n ==> old(sim).world.is_node(#[trigger] nodes@[j]),
            nodes@.no_duplicates(),
            forall|e: Entity| old(sim).world.is_node(e) ==> nodes@.contains(e),
            forall|j: int|
                0 <= j < i2 ==> sim.world.peer_sets@[(#[trigger] nodes@[j]).id].peer_ids()
                    =~= Set::<u64>::empty(),
        decreases n - i2,
    {
        let node = nodes[i2];
        let ghost before = sim.world.peer_sets@;
        sim.world.peer_sets.set(node.id, PeerSet::new());
        proof {
            assert(sim.world.peer_sets@.dom() =~= before.dom()) by {
                assert(sim.world.node_ids@.dom().contains(node.id));
                assert(before.dom().contains(node.id));
            }
            assert(sim.world.wf()) by {
                assert forall|k: u64| #[trigger] sim.world.node_ids@.dom().contains(k) implies
                    sim.world.peer_sets@[k].wf() && sim.world.peer_sets@[k].peer_ids().subset_of(
                    sim.world.node_ids@.dom(),
                ) by {}
            }
            assert forall|j: int|
                0 <= j < i2 + 1 implies sim.world.peer_sets@[(#[trigger] nodes@[j]).id].peer_ids()
                =~= Set::<u64>::empty() by {}
        }
        i2 += 1;
    }
    proof {
        assert forall|a: u64, b: u64| !(#[trigger] peers_rel(sim.world, a, b)) by {
            if peers_rel(sim.world, a, b) {
                assert(sim.world.node_ids@.dom().contains(a));
                assert(old(sim).world.is_node(Entity { id: a }));
                assert(nodes@.contains(Entity { id: a }));
                let j = choose|j: int| 0 <= j < nodes@.len() && nodes@[j] == (Entity { id: a });
                assert(sim.world.peer_sets@[(nodes@[j]).id].peer_ids() =~= Set::<u64>::empty());
            }
        }
        assert(symmetric_topology(sim.world));
    }
    // add both directions of every triangulation edge
    let m = tri.len();
    let mut idx: usize = 0;
    let mut tcount: usize = 0;
    while m - idx >= 3
        invariant
            sim.wf(),
            symmetric_topology(sim.world),
            m == tri@.len(),
            m % 3 == 0,
            0 <= idx <= m,
            idx == 3 * tcount,
            n == nodes@.len(),
            n == old(sim).world.node_ids.key_seq().len(),
            tri@ == delaunay_triangles(node_xs(old(sim).world), node_ys(old(sim).world)),
            forall|j: int| 0 <= j < m ==> (#[trigger] tri@[j]) < n,
            forall|j: int| 0 <= j < n ==> old(sim).world.is_node(#[trigger] nodes@[j]),
            forall|j: int|
                0 <= j < n ==> (#[trigger] nodes@[j]).id == old(
                    sim,
                ).world.node_ids.key_seq()[j],
            forall|x: u64, y: u64|
                #[trigger] peers_rel(sim.world, x, y) <==> delaunay_edge_upto(
                    old(sim).world,
                    x,
                    y,
                    tcount as int,
                ),
            sim.world.node_ids@ == old(sim).world.node_ids@,
            sim.world.next_id == old(sim).world.next_id,
            sim.world.consensus@ == old(sim).world.consensus@,
            sim.world.flooding@ == old(sim).world.flooding@,
            sim.world.messages@ == old(sim).world.messages@,
            sim.time_now == old(sim).time_now,
            sim.protocols == old(sim).protocols,
        decreases m - idx,
    {
        let n1 = nodes[tri[idx]];
        let n2 = nodes[tri[idx + 1]];
        let n3 = nodes[tri[idx + 2]];
        let ghost w0 = sim.world;
        add_peer_pair(sim, n1, n2);
        let ghost w1 = sim.world;
        add_peer_pair(sim, n1, n3);
        let ghost w2 = sim.world;
        add_peer_pair(sim, n2, n3);
        proof {
            let tc = tcount as int;
            assert(triangle_pair(old(sim).world, n1.id, n2.id, tc) && triangle_pair(
                old(sim).world,
                n2.id,
                n1.id,
                tc,
            ) && triangle_pair(old(sim).world, n1.id, n3.id, tc) && triangle_pair(
                old(sim).world,
                n3.id,
                n1.id,
                tc,
            ) && triangle_pair(old(sim).world, n2.id, n3.id, tc) && triangle_pair(
                old(sim).world,
                n3.id,
                n2.id,
                tc,
            )) by {
                assert(n1.id == old(sim).world.node_ids.key_seq()[tri@[3 * tc] as int]);
                assert(n2.id == old(sim).world.node_ids.key_seq()[tri@[3 * tc + 1] as int]);
                assert(n3.id == old(sim).world.node_ids.key_seq()[tri@[3 * tc + 2] as int]);
            }
            assert forall|x: u64, y: u64|
                #[trigger] peers_rel(sim.world, x, y) <==> delaunay_edge_upto(
                old(sim).world,
                x,
                y,
                tc + 1,
            ) by {
                if peers_rel(sim.world, x, y) {
                    if peers_rel(w0, x, y) {
                        let t0 = choose|t0: int|
                            0 <= t0 < tc && #[trigger] triangle_pair(old(sim).world, x, y, t0);
                        assert(delaunay_edge_upto(old(sim).world, x, y, tc + 1));
                    } else {
                        assert(triangle_pair(old(sim).world, x, y, tc));
                        assert(delaunay_edge_upto(old(sim).world, x, y, tc + 1));
                    }
                }
                if delaunay_edge_upto(old(sim).world, x, y, tc + 1) {
                    let t0 = choose|t0: int|
                        0 <= t0 < tc + 1 && #[trigger] triangle_pair(old(sim).world, x, y, t0);
                    if t0 < tc {
                        assert(delaunay_edge_upto(old(sim).world, x, y, tc));
                        assert(peers_rel(w0, x, y));
                        assert(peers_rel(sim.world, x, y));
                    } else {
                        assert(peers_rel(sim.world, x, y));
                    }
                }
            }
        }
        idx += 3;
        tcount += 1;
    }
    proof {
        // the loop consumed the whole list, so the prefix is everything
        assert(idx == m);
        assert forall|x: u64, y: u64|
            #[trigger] peers_rel(sim.world, x, y) <==> delaunay_edge(old(sim).world, x, y) by {
            if peers_rel(sim.world, x, y) {
                let t0 = choose|t0: int|
                    0 <= t0 < tcount && #[trigger] triangle_pair(old(sim).world, x, y, t0);
                assert(delaunay_edge(old(sim).world, x, y));
            }
            if delaunay_edge(old(sim).world, x, y) {
                let t0 = choose|t0: int| #[trigger] triangle_pair(old(sim).world, x, y, t0);
                assert(3 * t0 + 2 < m);
                assert(3 * t0 <= m - 3);
                assert(t0 < tcount);
                assert(delaunay_edge_upto(old(sim).world, x, y, tcount as int));
            }
        }
    }
    Ok(())
}

/// Pick a random number of fresh peers for `node`, between the two
/// bounds (each clamped to the number of available non-peer, non-self
/// candidates), and add them one-directionally.
/// The nodes that could still become peers of `node`: every other live
/// node not already in its peer set.
pub open spec fn peer_candidates(w: World, node: Entity) -> Set<u64> {
    w.node_ids@.dom().remove(node.id).difference(w.peer_sets@[node.id].peer_ids())
}

/// Pick a random number of fresh peers for `node`, between the two
/// bounds (each clamped to the number of available non-peer, non-self
/// candidates), and add them one-directionally.
pub fn add_random_nodes_as_peers(
    sim: &mut Simulation,
    node: Entity,
    new_peers_min: usize,
    new_peers_max: usize,
)
    requires
        old(sim).wf(),
    ensures
        final(sim).wf(),
        final(sim).world.node_ids@ == old(sim).world.node_ids@,
        final(sim).world.next_id == old(sim).world.next_id,
        final(sim).world.messages@ == old(sim).world.messages@,
        final(sim).world.consensus@ == old(sim).world.consensus@,
        final(sim).time_now == old(sim).time_now,
        final(sim).protocols == old(sim).protocols,
        // the peer set only grows, and only by fresh other nodes
        old(sim).world.is_node(node) ==> {
            &&& old(sim).world.peer_sets@[node.id].peer_ids().subset_of(
                final(sim).world.peer_sets@[node.id].peer_ids(),
            )
            &&& forall|p: u64|
                #[trigger] final(sim).world.peer_sets@[node.id].peer_ids().contains(p) ==> old(sim).world.peer_sets@[node.id].peer_ids().contains(p) || (old(sim).world.node_ids@.dom().contains(p) && p != node.id)
        },
        // however the count was drawn, it lies between the clamped bounds
        old(sim).world.is_node(node) ==> {
            let cand = peer_candidates(old(sim).world, node);
            let lo: int = if new_peers_min <= cand.len() {
                new_peers_min as int
            } else {
                cand.len() as int
            };
            let hi: int = if new_peers_max <= cand.len() {
                new_peers_max as int
            } else {
                cand.len() as int
            };
            &&& (lo < hi ==> old(sim).world.peer_sets@[node.id].peer_ids().len() + lo <= final(sim).world.peer_sets@[node.id].peer_ids().len() < old(sim).world.peer_sets@[
                node.id
            ].peer_ids().len() + hi)
            &&& (lo >= hi ==> final(sim).world.peer_sets@[node.id].peer_ids().len() == old(sim).world.peer_sets@[node.id].peer_ids().len() + lo)
        },
        forall|k: u64|
            #[trigger] old(sim).world.peer_sets@.dom().contains(k) && k != node.id ==> final(sim).world.peer_sets@[k] == old(sim).world.peer_sets@[k],
{
    broadcast use vstd::set::axiom_set_insert_len;

    if !sim.world.node_ids.contains(node.id) {
        return ;
    }
    let nodes = sim.world.node_entities();
    let mut candidates: Vec<Entity> = Vec::new();
    let n = nodes.len();
    let mut i: usize = 0;
    while i < n
        invariant
            sim.wf(),
            sim == old(sim),
            sim.world.is_node(node),
            n == nodes@.len(),
            n == sim.world.node_ids.key_seq().len(),
            0 <= i <= n,
            forall|j: int| 0 <= j < n ==> sim.world.is_node(#[trigger] nodes@[j]),
            forall|j: int|
                0 <= j < n ==> (#[trigger] nodes@[j]).id == sim.world.node_ids.key_seq()[j],
            forall|x: int, y: int|
                0 <= x < y < candidates@.len() ==> (#[trigger] candidates@[x]).id
                    < (#[trigger] candidates@[y]).id,
            forall|x: int|
                0 <= x < candidates@.len() ==> sim.world.is_node(#[trigger] candidates@[x])
                    && candidates@[x].id != node.id && !sim.world.peer_sets@[
                    node.id
                ].peer_ids().contains(candidates@[x].id) && (exists|idx: int|
                    0 <= idx < i && candidates@[x] == nodes@[idx]),
            forall|idx: int|
                0 <= idx < i && (#[trigger] nodes@[idx]).id != node.id && !sim.world.peer_sets@[
                    node.id
                ].peer_ids().contains(nodes@[idx].id) ==> candidates@.contains(nodes@[idx]),
        decreases n - i,
    {
        let cand = nodes[i];
        if cand.id != node.id {
            let is_peer = match sim.world.peer_sets.get(node.id) {
                Some(ps) => ps.contains(&cand),
                None => {
                    proof {
                        assert(sim.world.peer_sets@.dom().contains(node.id));
                        assert(false);
                    }
                    false
                },
            };
            if !is_peer {
                let ghost c0 = candidates@;
                candidates.push(cand);
                proof {
                    sim.world.node_ids.lemma_keys_no_duplicates();
                    assert(candidates@[c0.len() as int] == nodes@[i as int]);
                    assert forall|x: int, y: int|
                        0 <= x < y < candidates@.len() implies (#[trigger] candidates@[x]).id
                        < (#[trigger] candidates@[y]).id by {
                        if y == c0.len() as int {
                            assert(candidates@[x] == c0[x]);
                            let idx = choose|idx: int| 0 <= idx < i && c0[x] == nodes@[idx];
                            assert(sim.world.node_ids.key_seq()[idx]
                                < sim.world.node_ids.key_seq()[i as int]);
                        }
                    }
                    assert forall|x: int|
                        0 <= x < candidates@.len() implies sim.world.is_node(
                        #[trigger] candidates@[x],
                    ) && candidates@[x].id != node.id && !sim.world.peer_sets@[
                        node.id
                    ].peer_ids().contains(candidates@[x].id) && (exists|idx: int|
                        0 <= idx < i + 1 && candidates@[x] == nodes@[idx]) by {
                        if x < c0.len() {
                            assert(candidates@[x] == c0[x]);
                            let idx = choose|idx: int| 0 <= idx < i && c0[x] == nodes@[idx];
                            assert(candidates@[x] == nodes@[idx]);
                        } else {
                            assert(candidates@[x] == nodes@[i as int]);
                        }
                    }
                    assert forall|idx: int|
                        0 <= idx < i + 1 && (#[trigger] nodes@[idx]).id != node.id
                            && !sim.world.peer_sets@[node.id].peer_ids().contains(nodes@[idx].id)
                            implies candidates@.contains(nodes@[idx]) by {
                        if idx < i {
                            let x = choose|x: int| 0 <= x < c0.len() && c0[x] == nodes@[idx];
                            assert(candidates@[x] == nodes@[idx]);
                        } else {
                            assert(candidates@[c0.len() as int] == nodes@[idx]);
                        }
                    }
                }
            }
        }
        i += 1;
    }
    proof {
        // the candidate vector carries exactly the candidate set
        let ghost cidset = candidates@.map_values(|e: Entity| e.id);
        assert forall|a: int, b: int| 0 <= a < b < cidset.len() implies cidset[a] != cidset[b] by {
            assert(candidates@[a].id < candidates@[b].id);
        }
        assert(cidset.no_duplicates());
        cidset.unique_seq_to_set();
        assert(cidset.to_set() =~= peer_candidates(old(sim).world, node)) by {
            assert forall|y: u64| cidset.to_set().contains(y) implies peer_candidates(
                old(sim).world,
                node,
            ).contains(y) by {
                let x = choose|x: int| 0 <= x < cidset.len() && cidset[x] == y;
                assert(candidates@[x].id == y);
            }
            assert forall|y: u64| peer_candidates(old(sim).world, node).contains(y) implies
                cidset.to_set().contains(y) by {
                assert(old(sim).world.is_node(Entity { id: y }));
                assert(nodes@.contains(Entity { id: y }));
                let idx = choose|idx: int| 0 <= idx < n && nodes@[idx] == (Entity { id: y });
                assert(candidates@.contains(nodes@[idx]));
                let x = choose|x: int| 0 <= x < candidates@.len() && candidates@[x] == nodes@[idx];
                assert(cidset[x] == y);
                assert(cidset.contains(y));
            }
        }
        assert(candidates@.len() == peer_candidates(old(sim).world, node).len());
    }
    let cmin = if new_peers_min < candidates.len() {
        new_peers_min
    } else {
        candidates.len()
    };
    let cmax = if new_peers_max < candidates.len() {
        new_peers_max
    } else {
        candidates.len()
    };
    let count = if cmin < cmax {
        crate::rng::rng_range(&mut sim.rng, cmin as u64, cmax as u64) as usize
    } else {
        cmin
    };
    let chosen = crate::rng::choose_entities(&mut sim.rng, &candidates, count);
    let m = chosen.len();
    let mut j: usize = 0;
    while j < m
        invariant
            sim.wf(),
            m == chosen@.len(),
            0 <= j <= m,
            sim.world.node_ids@ == old(sim).world.node_ids@,
            sim.world.next_id == old(sim).world.next_id,
            sim.world.messages@ == old(sim).world.messages@,
            sim.world.consensus@ == old(sim).world.consensus@,
            sim.time_now == old(sim).time_now,
            sim.protocols == old(sim).protocols,
            sim.world.is_node(node),
            old(sim).world.is_node(node),
            chosen@.no_duplicates(),
            forall|x: int| 0 <= x < chosen@.len() ==> candidates@.contains(#[trigger] chosen@[x]),
            forall|x: int|
                0 <= x < candidates@.len() ==> old(sim).world.is_node(#[trigger] candidates@[x])
                    && candidates@[x].id != node.id && !old(sim).world.peer_sets@[
                    node.id
                ].peer_ids().contains(candidates@[x].id),
            sim.world.peer_sets@.dom() == old(sim).world.peer_sets@.dom(),
            sim.world.peer_sets@[node.id].peer_ids().len() == old(sim).world.peer_sets@[
                node.id
            ].peer_ids().len() + j,
            forall|p: u64|
                #[trigger] sim.world.peer_sets@[node.id].peer_ids().contains(p) <==> old(sim).world.peer_sets@[node.id].peer_ids().contains(p) || (exists|jj: int|
                    0 <= jj < j && (#[trigger] chosen@[jj]).id == p),
            forall|k: u64|
                #[trigger] old(sim).world.peer_sets@.dom().contains(k) && k != node.id
                    ==> sim.world.peer_sets@[k] == old(sim).world.peer_sets@[k],
        decreases m - j,
    {
        let peer = chosen[j];
        proof {
            assert(candidates@.contains(peer));
            let x = choose|x: int| 0 <= x < candidates@.len() && candidates@[x] == peer;
            assert(sim.world.is_node(peer));
            assert(peer.id != node.id);
            // the peer is fresh: not peered before this call, and not
            // among the ones already added
            assert(!sim.world.peer_sets@[node.id].peer_ids().contains(peer.id)) by {
                if sim.world.peer_sets@[node.id].peer_ids().contains(peer.id) {
                    if !old(sim).world.peer_sets@[node.id].peer_ids().contains(peer.id) {
                        let jj = choose|jj: int|
                            0 <= jj < j && (#[trigger] chosen@[jj]).id == peer.id;
                        crate::nakamoto_consensus::lemma_no_dup_at(chosen@, jj, j as int);
                        assert(chosen@[jj] != chosen@[j as int]);
                        assert(chosen@[jj].id == chosen@[j as int].id);
                    }
                }
            }
        }
        let ghost pre = sim.world.peer_sets@[node.id].peer_ids();
        proof {
            sim.world.peer_sets@[node.id].lemma_id_seq();
            assert(pre.finite());
        }
        add_peer(sim, node, peer);
        proof {
            assert(sim.world.peer_sets@[node.id].peer_ids() =~= pre.insert(peer.id));
            assert(sim.world.peer_sets@[node.id].peer_ids().len() == pre.len() + 1);
            assert forall|p: u64|
                #[trigger] sim.world.peer_sets@[node.id].peer_ids().contains(p) <==> old(sim).world.peer_sets@[node.id].peer_ids().contains(p) || (exists|jj: int|
                0 <= jj < j + 1 && (#[trigger] chosen@[jj]).id == p) by {
                if p == peer.id {
                    assert(chosen@[j as int].id == p);
                } else {
                    if exists|jj: int| 0 <= jj < j + 1 && (#[trigger] chosen@[jj]).id == p {
                        let jj = choose|jj: int|
                            0 <= jj < j + 1 && (#[trigger] chosen@[jj]).id == p;
                        assert(jj < j);
                    }
                }
            }
        }
        j += 1;
    }
}

} // verus!
