use vstd::prelude::*;

use crate::nakamoto_consensus::{genesis_id, BlockId, NakamotoNodeState};
use crate::sim::peers_rel;
use crate::table::{
    entries_map, entry_keys, lemma_entries_map_dom, lemma_entries_map_index,
    lemma_entries_map_insert_at, lemma_entries_map_update_at,
};
use crate::underlay::{SimSeconds, UnderlayLine, UnderlayPosition};
use crate::world::World;
use crate::Entity;

verus! {

/// The two endpoints of a drawn link, ordered so that one undirected
/// edge has exactly one key.
#[derive(Clone, Copy, PartialEq, Eq, Structural, Debug)]
pub struct EdgeEndpoints {
    pub left: Entity,
    pub right: Entity,
}

impl EdgeEndpoints {
    pub fn new(node1: Entity, node2: Entity) -> (r: EdgeEndpoints)
        ensures
            r.left.id <= r.right.id,
            (r.left == node1 && r.right == node2) || (r.left == node2 && r.right == node1),
    {
        if node1.id <= node2.id {
            EdgeEndpoints { left: node1, right: node2 }
        } else {
            EdgeEndpoints { left: node2, right: node1 }
        }
    }

    pub fn left(&self) -> (r: Entity)
        ensures
            r == self.left,
    {
        self.left
    }

    pub fn right(&self) -> (r: Entity)
        ensures
            r == self.right,
    {
        self.right
    }
}

/// How a drawn link relates to the live peer sets: kept in both
/// directions, in one, or only remembered from an earlier topology.
#[derive(Clone, Copy, PartialEq, Eq, Structural, Debug)]
pub enum EdgeType {
    Undirected,
    LeftRight,
    RightLeft,
    Phantom,
}

impl EdgeType {
    pub fn is_phantom(&self) -> (r: bool)
        ensures
            r == (*self == EdgeType::Phantom),
    {
        *self == EdgeType::Phantom
    }
}

/// The edge type the current peer sets induce for a key.
pub open spec fn expected_edge_type(w: World, e: EdgeEndpoints) -> EdgeType {
    {
        let lr = peers_rel(w, e.left.id, e.right.id);
        let rl = peers_rel(w, e.right.id, e.left.id);
        if lr && rl {
            EdgeType::Undirected
        } else if lr {
            EdgeType::LeftRight
        } else if rl {
            EdgeType::RightLeft
        } else {
            EdgeType::Phantom
        }
    }
}

/// A cached layout of the drawn links, rebuilt only when some peer set
/// changed after the last rebuild.
pub struct EdgeMap {
    entries: Vec<(EdgeEndpoints, (EdgeType, UnderlayLine))>,
    last_update: SimSeconds,
}

impl EdgeMap {
    pub closed spec fn edges(self) -> Map<EdgeEndpoints, (EdgeType, UnderlayLine)> {
        entries_map(self.entries@)
    }

    pub closed spec fn wf(self) -> bool {
        entry_keys(self.entries@).no_duplicates()
    }

    pub closed spec fn spec_last_update(self) -> SimSeconds {
        self.last_update
    }

    pub fn new() -> (r: EdgeMap)
        ensures
            r.wf(),
            r.edges() =~= Map::<EdgeEndpoints, (EdgeType, UnderlayLine)>::empty(),
            r.spec_last_update() == 0,
    {
        let r = EdgeMap { entries: Vec::new(), last_update: 0 };
        proof {
            lemma_entries_map_dom(r.entries@);
        }
        r
    }

    pub fn edge_type(&self, endpoint1: Entity, endpoint2: Entity) -> (r: Option<EdgeType>)
        requires
            self.wf(),
        ensures
            match r {
                Some(t) => exists|e: EdgeEndpoints|
                    ((e.left == endpoint1 && e.right == endpoint2) || (e.left == endpoint2
                        && e.right == endpoint1)) && #[trigger] self.edges().dom().contains(e)
                        && self.edges()[e].0 == t,
                None => forall|e: EdgeEndpoints|
                    #[trigger] self.edges().dom().contains(e) && e.left.id <= e.right.id ==> !((
                    e.left == endpoint1 && e.right == endpoint2) || (e.left == endpoint2
                        && e.right == endpoint1)),
            },
    {
        let key = EdgeEndpoints::new(endpoint1, endpoint2);
        let n = self.entries.len();
        let mut i: usize = 0;
        while i < n
            invariant
                n == self.entries@.len(),
                0 <= i <= n,
                self.wf(),
                (key.left == endpoint1 && key.right == endpoint2) || (key.left == endpoint2
                    && key.right == endpoint1),
                key.left.id <= key.right.id,
                forall|j: int| 0 <= j < i ==> (#[trigger] self.entries@[j]).0 != key,
            decreases n - i,
        {
            if self.entries[i].0 == key {
                proof {
                    lemma_entries_map_index(self.entries@, i as int);
                    assert(((key.left == endpoint1 && key.right == endpoint2) || (key.left
                        == endpoint2 && key.right == endpoint1)) && self.edges().dom().contains(
                        key,
                    ) && self.edges()[key] == self.entries@[i as int].1);
                }
                return Some(self.entries[i].1.0);
            }
            proof {
                assert(self.entries@[i as int].0 != key);
            }
            i += 1;
        }
        proof {
            lemma_entries_map_dom(self.entries@);
            assert forall|e: EdgeEndpoints|
                #[trigger] self.edges().dom().contains(e) && e.left.id <= e.right.id implies !((
            e.left == endpoint1 && e.right == endpoint2) || (e.left == endpoint2 && e.right
                == endpoint1)) by {
            // the only normalized key with these endpoints is the one the
            // scan compared against, and the scan found it nowhere
                if (e.left == endpoint1 && e.right == endpoint2) || (e.left == endpoint2
                    && e.right == endpoint1) {
                    assert(e == key);
                    assert(entry_keys(self.entries@).to_set().contains(e));
                    let j = choose|j: int|
                        0 <= j < entry_keys(self.entries@).len() && entry_keys(self.entries@)[j]
                            == e;
                    assert(self.entries@[j].0 == e);
                }
            }
        }
        None
    }

    fn set_edge(&mut self, key: EdgeEndpoints, value: (EdgeType, UnderlayLine))
        requires
            old(self).wf(),
        ensures
            final(self).wf(),
            final(self).edges() =~= old(self).edges().insert(key, value),
            final(self).spec_last_update() == old(self).spec_last_update(),
    {
        proof {
            lemma_entries_map_dom(self.entries@);
        }
        let n = self.entries.len();
        let mut i: usize = 0;
        while i < n
            invariant
                self == old(self),
                n == self.entries@.len(),
                0 <= i <= n,
                self.wf(),
                forall|j: int| 0 <= j < i ==> (#[trigger] self.entries@[j]).0 != key,
            decreases n - i,
        {
            if self.entries[i].0 == key {
                let ghost s = self.entries@;
                self.entries.remove(i);
                self.entries.insert(i, (key, value));
                proof {
                    assert(self.entries@ =~= s.update(i as int, (key, value)));
                    lemma_entries_map_update_at(s, i as int, value);
                    assert(entry_keys(self.entries@) =~= entry_keys(s));
                }
                return ;
            }
            i += 1;
        }
        let ghost s = self.entries@;
        self.entries.push((key, value));
        proof {
            assert(self.entries@ =~= s.insert(s.len() as int, (key, value)));
            assert(!entry_keys(s).contains(key)) by {
                if entry_keys(s).contains(key) {
                    let j = choose|j: int| 0 <= j < entry_keys(s).len() && entry_keys(s)[j] == key;
                    assert(s[j].0 == key);
                }
            }
            lemma_entries_map_insert_at(s, s.len() as int, key, value);
            s.insert_ensures(s.len() as int, (key, value));
            assert(entry_keys(self.entries@).no_duplicates()) by {
                let ks = entry_keys(s);
                let ks2 = entry_keys(self.entries@);
                assert(ks2 =~= ks.push(key));
                assert forall|a: int, b: int| 0 <= a < b < ks2.len() implies ks2[a] != ks2[b] by {
                    if b == ks.len() as int {
                        assert(ks[a] == s[a].0);
                    }
                }
            }
        }
    }

    /// The number of remembered edges.
    pub fn len(&self) -> (r: usize)
        requires
            self.wf(),
        ensures
            r == self.edges().dom().len(),
    {
        proof {
            lemma_entries_map_dom(self.entries@);
            entry_keys(self.entries@).unique_seq_to_set();
        }
        self.entries.len()
    }

    /// Whether some peer set changed after this map was last rebuilt.
    pub fn needs_rebuild(&self, world: &World) -> (r: bool)
        requires
            world.wf(),
        ensures
            r == exists|k: u64|
                #[trigger] world.peer_sets@.dom().contains(k)
                    && world.peer_sets@[k].spec_last_update() > self.spec_last_update(),
    {
        let n = world.peer_sets.len();
        let mut i: usize = 0;
        while i < n
            invariant
                world.wf(),
                n == world.peer_sets.key_seq().len(),
                0 <= i <= n,
                forall|j: int|
                    0 <= j < i ==> world.peer_sets@[#[trigger] world.peer_sets.key_seq()[j]].spec_last_update()
                        <= self.spec_last_update(),
            decreases n - i,
        {
            let k = world.peer_sets.key_at(i);
            let ps = world.peer_sets.val_at(i);
            if ps.last_update() > self.last_update {
                return true;
            }
            i += 1;
        }
        proof {
            world.peer_sets.lemma_keys_no_duplicates();
            if exists|k: u64|
                #[trigger] world.peer_sets@.dom().contains(k)
                    && world.peer_sets@[k].spec_last_update() > self.spec_last_update() {
                let k = choose|k: u64|
                    #[trigger] world.peer_sets@.dom().contains(k)
                        && world.peer_sets@[k].spec_last_update() > self.spec_last_update();
                assert(world.peer_sets.key_seq().to_set().contains(k));
                let j = choose|j: int|
                    0 <= j < world.peer_sets.key_seq().len() && world.peer_sets.key_seq()[j] == k;
                assert(false);
            }
        }
        false
    }

    /// Rebuild the cached layout from the current peer sets: every held
    /// peer edge gets its induced type and line, and every key remembered
    /// from before stays, as a phantom if no direction holds any more.
    pub fn rebuild(&mut self, world: &World, simtime_now: SimSeconds)
        requires
            old(self).wf(),
            world.wf(),
        ensures
            final(self).wf(),
            final(self).spec_last_update() == simtime_now,
            forall|e: EdgeEndpoints|
                #[trigger] final(self).edges().dom().contains(e) ==> final(self).edges()[e].0
                    == expected_edge_type(*world, e),
            forall|a: u64, b: u64|
                #[trigger] peers_rel(*world, a, b) ==> exists|e: EdgeEndpoints|
                    #[trigger] final(self).edges().dom().contains(e) && ((e.left.id == a
                        && e.right.id == b) || (e.left.id == b && e.right.id == a)),
            forall|e: EdgeEndpoints|
                #[trigger] old(self).edges().dom().contains(e) ==> final(self).edges().dom().contains(e),
    {
        let mut fresh = EdgeMap::new();
        let n = world.peer_sets.len();
        let mut i: usize = 0;
        proof {
            world.peer_sets.lemma_keys_no_duplicates();
        }
        while i < n
            invariant
                world.wf(),
                n == world.peer_sets.key_seq().len(),
                0 <= i <= n,
                fresh.wf(),
                forall|e: EdgeEndpoints|
                    #[trigger] fresh.edges().dom().contains(e) ==> fresh.edges()[e].0
                        == expected_edge_type(*world, e),
                forall|jj: int, b: u64|
                    0 <= jj < i && #[trigger] world.peer_sets@[world.peer_sets.key_seq()[jj]].peer_ids().contains(
                        b,
                    ) ==> exists|e: EdgeEndpoints|
                        #[trigger] fresh.edges().dom().contains(e) && ((e.left.id
                            == world.peer_sets.key_seq()[jj] && e.right.id == b) || (e.left.id
                            == b && e.right.id == world.peer_sets.key_seq()[jj])),
            decreases n - i,
        {
            let a_id = world.peer_sets.key_at(i);
            let peers_vec = world.peer_sets.val_at(i).iter();
            let a = Entity { id: a_id };
            let m = peers_vec.len();
            let mut j: usize = 0;
            while j < m
                invariant
                    world.wf(),
                    n == world.peer_sets.key_seq().len(),
                    0 <= i < n,
                    a_id == world.peer_sets.key_seq()[i as int],
                    a == (Entity { id: a_id }),
                    world.peer_sets@.dom().contains(a_id),
                    m == peers_vec@.len(),
                    0 <= j <= m,
                    forall|jj: int|
                        0 <= jj < m ==> world.peer_sets@[a_id].peer_ids().contains(
                            (#[trigger] peers_vec@[jj]).id,
                        ),
                    peers_vec@.map_values(|e: Entity| e.id) =~= world.peer_sets@[a_id].id_seq(),
                    fresh.wf(),
                    forall|e: EdgeEndpoints|
                        #[trigger] fresh.edges().dom().contains(e) ==> fresh.edges()[e].0
                            == expected_edge_type(*world, e),
                    forall|jj: int, b: u64|
                        0 <= jj < i && #[trigger] world.peer_sets@[world.peer_sets.key_seq()[jj]].peer_ids().contains(
                            b,
                        ) ==> exists|e: EdgeEndpoints|
                            #[trigger] fresh.edges().dom().contains(e) && ((e.left.id
                                == world.peer_sets.key_seq()[jj] && e.right.id == b) || (e.left.id
                                == b && e.right.id == world.peer_sets.key_seq()[jj])),
                    forall|jj: int|
                        0 <= jj < j ==> exists|e: EdgeEndpoints|
                            #[trigger] fresh.edges().dom().contains(e) && ((e.left.id == a_id
                                && e.right.id == (#[trigger] peers_vec@[jj]).id) || (e.left.id
                                == peers_vec@[jj].id && e.right.id == a_id)),
                decreases m - j,
            {
                let b = peers_vec[j];
                let key = EdgeEndpoints::new(a, b);
                // decide the type from the live relation: the direction
                // a -> b holds by construction, the reverse is looked up
                let ba = match world.peer_sets.get(b.id) {
                    Some(ps) => ps.contains(&a),
                    None => false,
                };
                let lr = if key.left().id == a_id {
                    true
                } else {
                    ba
                };
                let rl = if key.left().id == a_id {
                    ba
                } else {
                    true
                };
                let t = if lr && rl {
                    EdgeType::Undirected
                } else if lr {
                    EdgeType::LeftRight
                } else {
                    EdgeType::RightLeft
                };
                let line = UnderlayLine {
                    start: match world.positions.get(key.left().id) {
                        Some(p) => *p,
                        None => UnderlayPosition { x: 0, y: 0 },
                    },
                    end: match world.positions.get(key.right().id) {
                        Some(p) => *p,
                        None => UnderlayPosition { x: 0, y: 0 },
                    },
                };
                proof {
                    assert(peers_rel(*world, a_id, b.id));
                    if key.left.id == a_id && key.right.id == a_id {
                        assert(key.left == key.right);
                    }
                    assert(t == expected_edge_type(*world, key));
                }
                let ghost fpre = fresh;
                fresh.set_edge(key, (t, line));
                proof {
                    assert(fresh.edges().dom().contains(key));
                    assert forall|jj: int, b2: u64|
                        0 <= jj < i && #[trigger] world.peer_sets@[world.peer_sets.key_seq()[jj]].peer_ids().contains(
                        b2,
                    ) implies exists|e: EdgeEndpoints|
                        #[trigger] fresh.edges().dom().contains(e) && ((e.left.id
                            == world.peer_sets.key_seq()[jj] && e.right.id == b2) || (e.left.id
                            == b2 && e.right.id == world.peer_sets.key_seq()[jj])) by {
                        let e = choose|e: EdgeEndpoints|
                            #[trigger] fpre.edges().dom().contains(e) && ((e.left.id
                                == world.peer_sets.key_seq()[jj] && e.right.id == b2) || (
                            e.left.id == b2 && e.right.id == world.peer_sets.key_seq()[jj]));
                        assert(fresh.edges().dom().contains(e));
                    }
                    assert forall|jj: int| 0 <= jj <= j implies exists|e: EdgeEndpoints|
                        #[trigger] fresh.edges().dom().contains(e) && ((e.left.id == a_id
                            && e.right.id == (#[trigger] peers_vec@[jj]).id) || (e.left.id
                            == peers_vec@[jj].id && e.right.id == a_id)) by {
                        if jj == j {
                            assert(fresh.edges().dom().contains(key));
                        } else {
                            let e = choose|e: EdgeEndpoints|
                                #[trigger] fpre.edges().dom().contains(e) && ((e.left.id == a_id
                                    && e.right.id == peers_vec@[jj].id) || (e.left.id
                                    == peers_vec@[jj].id && e.right.id == a_id));
                            assert(fresh.edges().dom().contains(e));
                        }
                    }
                }
                j += 1;
            }
            proof {
                assert forall|jj: int, b2: u64|
                    0 <= jj < i + 1 && #[trigger] world.peer_sets@[world.peer_sets.key_seq()[jj]].peer_ids().contains(
                    b2,
                ) implies exists|e: EdgeEndpoints|
                    #[trigger] fresh.edges().dom().contains(e) && ((e.left.id
                        == world.peer_sets.key_seq()[jj] && e.right.id == b2) || (e.left.id == b2
                        && e.right.id == world.peer_sets.key_seq()[jj])) by {
                    if jj == i {
                        let ps = world.peer_sets@[a_id];
                        ps.lemma_id_seq();
                        assert(ps.id_seq().to_set().contains(b2));
                        let x = choose|x: int| 0 <= x < ps.id_seq().len() && ps.id_seq()[x] == b2;
                        assert(peers_vec@.map_values(|e: Entity| e.id)[x] == b2);
                        assert(peers_vec@[x].id == b2);
                    }
                }
            }
            i += 1;
        }
        proof {
            world.peer_sets.lemma_keys_no_duplicates();
            assert forall|a: u64, b: u64| #[trigger] peers_rel(*world, a, b) implies exists|
                e: EdgeEndpoints,
            |
                #[trigger] fresh.edges().dom().contains(e) && ((e.left.id == a && e.right.id == b)
                    || (e.left.id == b && e.right.id == a)) by {
                assert(world.peer_sets.key_seq().to_set().contains(a));
                let jj = choose|jj: int|
                    0 <= jj < world.peer_sets.key_seq().len() && world.peer_sets.key_seq()[jj]
                        == a;
                assert(world.peer_sets@[world.peer_sets.key_seq()[jj]].peer_ids().contains(b));
            }
        }
        // keep keys remembered from before; with no live direction they
        // are phantoms
        let old_len = self.entries.len();
        let mut k: usize = 0;
        proof {
            lemma_entries_map_dom(self.entries@);
        }
        while k < old_len
            invariant
                world.wf(),
                self == old(self),
                old_len == self.entries@.len(),
                0 <= k <= old_len,
                self.wf(),
                fresh.wf(),
                forall|e: EdgeEndpoints|
                    #[trigger] fresh.edges().dom().contains(e) ==> fresh.edges()[e].0
                        == expected_edge_type(*world, e),
                forall|a: u64, b: u64|
                    #[trigger] peers_rel(*world, a, b) ==> exists|e: EdgeEndpoints|
                        #[trigger] fresh.edges().dom().contains(e) && ((e.left.id == a
                            && e.right.id == b) || (e.left.id == b && e.right.id == a)),
                forall|j: int|
                    0 <= j < k ==> fresh.edges().dom().contains(
                        (#[trigger] self.entries@[j]).0,
                    ),
            decreases old_len - k,
        {
            let key = self.entries[k].0;
            let line = self.entries[k].1.1;
            let already = fresh.edge_contains(&key);
            if !already {
                let lr = match world.peer_sets.get(key.left.id) {
                    Some(ps) => ps.contains(&key.right),
                    None => false,
                };
                let rl = match world.peer_sets.get(key.right.id) {
                    Some(ps) => ps.contains(&key.left),
                    None => false,
                };
                let t = if lr && rl {
                    EdgeType::Undirected
                } else if lr {
                    EdgeType::LeftRight
                } else if rl {
                    EdgeType::RightLeft
                } else {
                    EdgeType::Phantom
                };
                proof {
                    assert(t == expected_edge_type(*world, key));
                }
                let ghost fpre = fresh;
                fresh.set_edge(key, (t, line));
                proof {
                    assert forall|a: u64, b2: u64|
                        #[trigger] peers_rel(*world, a, b2) implies exists|e: EdgeEndpoints|
                        #[trigger] fresh.edges().dom().contains(e) && ((e.left.id == a
                            && e.right.id == b2) || (e.left.id == b2 && e.right.id == a)) by {
                        let e = choose|e: EdgeEndpoints|
                            #[trigger] fpre.edges().dom().contains(e) && ((e.left.id == a
                                && e.right.id == b2) || (e.left.id == b2 && e.right.id == a));
                        assert(fresh.edges().dom().contains(e));
                    }
                }
            }
            proof {
                assert(fresh.edges().dom().contains(key));
            }
            k += 1;
        }
        proof {
            lemma_entries_map_dom(old(self).entries@);
            assert forall|e: EdgeEndpoints| #[trigger] old(self).edges().dom().contains(
                e,
            ) implies fresh.edges().dom().contains(e) by {
                assert(entry_keys(old(self).entries@).to_set().contains(e));
                let j = choose|j: int|
                    0 <= j < entry_keys(old(self).entries@).len() && entry_keys(
                        old(self).entries@,
                    )[j] == e;
                assert(old(self).entries@[j].0 == e);
            }
        }
        fresh.last_update = simtime_now;
        *self = fresh;
    }

    fn edge_contains(&self, key: &EdgeEndpoints) -> (r: bool)
        requires
            self.wf(),
        ensures
            r == self.edges().dom().contains(*key),
    {
        proof {
            lemma_entries_map_dom(self.entries@);
        }
        let n = self.entries.len();
        let mut i: usize = 0;
        while i < n
            invariant
                n == self.entries@.len(),
                0 <= i <= n,
                self.wf(),
                forall|j: int| 0 <= j < i ==> (#[trigger] self.entries@[j]).0 != *key,
            decreases n - i,
        {
            if self.entries[i].0 == *key {
                proof {
                    lemma_entries_map_index(self.entries@, i as int);
                }
                return true;
            }
            i += 1;
        }
        proof {
            if self.edges().dom().contains(*key) {
                assert(entry_keys(self.entries@).to_set().contains(*key));
                let j = choose|j: int|
                    0 <= j < entry_keys(self.entries@).len() && entry_keys(self.entries@)[j]
                        == *key;
                assert(self.entries@[j].0 == *key);
                assert(false);
            }
        }
        false
    }

    /// Rebuild only when a peer set changed since the last rebuild;
    /// reports whether a rebuild happened.
    pub fn rebuild_if_needed(&mut self, world: &World, simtime_now: SimSeconds) -> (r: bool)
        requires
            old(self).wf(),
            world.wf(),
        ensures
            final(self).wf(),
            r == exists|k: u64|
                #[trigger] world.peer_sets@.dom().contains(k)
                    && world.peer_sets@[k].spec_last_update() > old(self).spec_last_update(),
            !r ==> *final(self) == *old(self),
            r ==> final(self).spec_last_update() == simtime_now && (forall|e: EdgeEndpoints|
                #[trigger] final(self).edges().dom().contains(e) ==> final(self).edges()[e].0
                    == expected_edge_type(*world, e)) && (forall|a: u64, b: u64|
                #[trigger] peers_rel(*world, a, b) ==> exists|e: EdgeEndpoints|
                    #[trigger] final(self).edges().dom().contains(e) && ((e.left.id == a
                        && e.right.id == b) || (e.left.id == b && e.right.id == a))),
    {
        if self.needs_rebuild(world) {
            self.rebuild(world, simtime_now);
            true
        } else {
            false
        }
    }
}

/// Spread a block identity over the color palette: a fixed odd multiplier
/// scrambles the number, wrapping at 32 bits.
pub fn pseudorandomize(number: u32) -> (r: u32)
    ensures
        r == (0x7fff_ffff * number) % 0x1_0000_0000,
{
    let wide: u64 = 0x7fff_ffffu64 * (number as u64);
    (wide % 0x1_0000_0000) as u32
}

/// A fixed palette of display colors, addressed pseudorandomly by a
/// block's numeric tag so that the same block always draws in the same
/// color.
pub struct PseudorandomColors {
    full_palette: Vec<String>,
}

impl PseudorandomColors {
    pub closed spec fn palette(self) -> Seq<String> {
        self.full_palette@
    }

    /// Wrap an already computed palette; the gradient interpolation that
    /// fills it is display work and stays outside the simulation core.
    pub fn from_palette(full_palette: Vec<String>) -> (r: PseudorandomColors)
        requires
            full_palette@.len() > 0,
        ensures
            r.palette() == full_palette@,
    {
        PseudorandomColors { full_palette }
    }

    pub fn get(&self, number: u32) -> (r: &String)
        requires
            self.palette().len() > 0,
        ensures
            *r == self.palette()[pseudorandomize_spec(number) % (self.palette().len() as int)],
    {
        let index = pseudorandomize(number) as usize % self.full_palette.len();
        &self.full_palette[index]
    }

    pub fn all(&self) -> (r: &Vec<String>)
        ensures
            r@ == self.palette(),
    {
        &self.full_palette
    }
}

/// The scramble `pseudorandomize` computes, as a mathematical function.
pub open spec fn pseudorandomize_spec(number: u32) -> int {
    (0x7fff_ffff * number) % 0x1_0000_0000
}

/// Walk `k` predecessor links down from `from`; the height guard makes
/// the recursion well-founded.
pub open spec fn spec_walk(m: Map<BlockId, (nat, BlockId)>, from: BlockId, k: nat) -> BlockId
    decreases k,
{
    if k == 0 {
        from
    } else if m.dom().contains(from) {
        spec_walk(m, m[from].1, (k - 1) as nat)
    } else {
        from
    }
}

/// A cutout of a node's block tree for drawing: the first row is the
/// best chain walked down from the tip, newest first, at most
/// `max_depth` blocks; every further row belongs to one fork tip whose
/// height lies less than `max_depth` below the tip, padded with `None`
/// by the height difference.
pub fn blocks_cutout(state: &NakamotoNodeState, max_depth: usize) -> (r: Vec<
    Vec<Option<BlockId>>,
>)
    requires
        state.inv(),
    ensures
        r@.len() >= 1,
        r@[0]@.len() <= max_depth,
        forall|j: int|
            0 <= j < r@[0]@.len() ==> r@[0]@[j] == Some(
                spec_walk(state@.blocks, state@.tip, j as nat),
            ),
        max_depth > 0 && state@.tip != genesis_id() ==> r@[0]@.len() > 0,
{
    let mut main_chain: Vec<Option<BlockId>> = Vec::new();
    let mut cur = state.tip();
    let mut d: usize = 0;
    while d < max_depth && !cur.is_genesis()
        invariant
            state.inv(),
            0 <= d <= max_depth,
            main_chain@.len() == d,
            cur == spec_walk(state@.blocks, state@.tip, d as nat),
            forall|j: int|
                0 <= j < d ==> main_chain@[j] == Some(
                    spec_walk(state@.blocks, state@.tip, j as nat),
                ),
        decreases max_depth - d,
    {
        main_chain.push(Some(cur));
        proof {
            state.lemma_inv_wf();
            lemma_walk_stays_stored(state@.blocks, state@.tip, d as nat, state@);
            assert(state@.blocks.dom().contains(cur));
            lemma_walk_step(state@.blocks, state@.tip, d as nat);
            assert(spec_walk(state@.blocks, state@.blocks[cur].1, 0) == state@.blocks[cur].1);
            assert(spec_walk(state@.blocks, cur, 1) == state@.blocks[cur].1);
            assert(spec_walk(state@.blocks, state@.tip, (d + 1) as nat) == state@.blocks[cur].1);
        }
        let nxt = match state.hash_prev(cur) {
            Some(p) => p,
            None => BlockId::genesis(),
        };
        cur = nxt;
        d += 1;
    }
    let mut r: Vec<Vec<Option<BlockId>>> = Vec::new();
    r.push(main_chain);
    // one row per fork tip close enough to the tip
    proof {
        state.lemma_inv_wf();
    }
    let fork_tips = state.fork_tips();
    let tip_h = state.height(state.tip());
    let nf = fork_tips.len();
    let mut f: usize = 0;
    while f < nf
        invariant
            state.inv(),
            nf == fork_tips@.len(),
            0 <= f <= nf,
            r@.len() >= 1,
            forall|ft: BlockId| fork_tips@.contains(ft) ==> state@.forks.contains(ft),
            tip_h == crate::nakamoto_consensus::chain_height(state@, state@.tip),
            forall|j: int| 0 <= j < r@[0]@.len() ==> r@[0]@[j] == Some(
                spec_walk(state@.blocks, state@.tip, j as nat),
            ),
            r@[0]@.len() <= max_depth,
            max_depth > 0 && state@.tip != genesis_id() ==> r@[0]@.len() > 0,
        decreases nf - f,
    {
        let ft = fork_tips[f];
        proof {
            assert(fork_tips@.contains(ft));
            assert(fork_tips@.to_set().contains(ft));
            state.lemma_inv_wf();
            assert(state@.blocks.dom().contains(ft));
        }
        let fh = state.height(ft);
        if fh < tip_h || tip_h == 0 {
            let diff = if tip_h >= fh {
                tip_h - fh
            } else {
                0
            };
            if diff < max_depth {
                let mut row: Vec<Option<BlockId>> = Vec::new();
                let mut p: usize = 0;
                while p < diff
                    invariant
                        0 <= p <= diff,
                        row@.len() == p,
                    decreases diff - p,
                {
                    row.push(None);
                    p += 1;
                }
                let mut cur2 = ft;
                let mut d2 = diff;
                while d2 < max_depth && !cur2.is_genesis()
                    invariant
                        state.inv(),
                        diff <= d2 <= max_depth,
                        row@.len() == d2,
                    decreases max_depth - d2,
                {
                    row.push(Some(cur2));
                    let nxt2 = match state.hash_prev(cur2) {
                        Some(pp) => pp,
                        None => BlockId::genesis(),
                    };
                    cur2 = nxt2;
                    d2 += 1;
                }
                let ghost r_before = r@;
                r.push(row);
                proof {
                    assert(r@[0] == r_before[0]);
                }
            }
        }
        f += 1;
    }
    r
}

/// One predecessor step commutes with the walk.
proof fn lemma_walk_step(m: Map<BlockId, (nat, BlockId)>, from: BlockId, k: nat)
    ensures
        spec_walk(m, from, k + 1) == spec_walk(m, spec_walk(m, from, k), 1),
    decreases k,
{
    if k == 0 {
    } else if m.dom().contains(from) {
        lemma_walk_step(m, m[from].1, (k - 1) as nat);
    } else {
        assert(spec_walk(m, from, k) == from);
        assert(spec_walk(m, from, k + 1) == from);
        assert(spec_walk(m, from, 1) == from);
    }
}

/// On a well-formed state, a walk from the tip stays on stored blocks or
/// reaches genesis.
proof fn lemma_walk_stays_stored(
    m: Map<BlockId, (nat, BlockId)>,
    from: BlockId,
    k: nat,
    v: crate::nakamoto_consensus::ChainView,
)
    requires
        crate::nakamoto_consensus::wf_chain(v),
        m == v.blocks,
        from == genesis_id() || m.dom().contains(from),
    ensures
        spec_walk(m, from, k) == genesis_id() || m.dom().contains(spec_walk(m, from, k)),
    decreases k,
{
    if k == 0 {
    } else if m.dom().contains(from) {
        assert(crate::nakamoto_consensus::parent_ok(v, from));
        lemma_walk_stays_stored(m, m[from].1, (k - 1) as nat, v);
    }
}

} // verus!
