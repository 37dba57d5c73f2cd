use isds::nakamoto_consensus::{Block, BlockId, NakamotoNodeState};
use isds::net_view::{blocks_cutout, pseudorandomize, EdgeMap, EdgeType, PseudorandomColors};
use isds::peers::{add_peer, remove_peer};
use isds::sim::Simulation;
use isds::underlay::{abs_diff, isqrt, UnderlayPosition};

fn bid(n: u64) -> BlockId {
    BlockId { w0: n, w1: 0, w2: 0, w3: 0 }
}

fn block(id: u64, prev: u64) -> Block {
    Block { hash: bid(id), hash_prev: bid(prev) }
}

#[test]
fn rebuild_builds_edges() {
    let mut sim = Simulation::new();
    let node1 = sim.spawn_random_node();
    let node2 = sim.spawn_random_node();
    add_peer(&mut sim, node2, node1);

    let mut edges = EdgeMap::new();
    edges.rebuild(&sim.world, 0);

    assert!(edges.edge_type(node1, node2).is_some());
    assert_eq!(edges.len(), 1);
}

#[test]
fn rebuild_sets_direction() {
    let mut sim = Simulation::new();
    let node1 = sim.spawn_random_node();
    let node2 = sim.spawn_random_node();
    add_peer(&mut sim, node2, node1);

    let mut edges = EdgeMap::new();
    edges.rebuild(&sim.world, 0);

    let t = edges.edge_type(node1, node2).unwrap();
    assert_ne!(t, EdgeType::Undirected);
    assert_ne!(t, EdgeType::Phantom);

    add_peer(&mut sim, node1, node2);
    edges.rebuild(&sim.world, 1);
    assert_eq!(edges.edge_type(node1, node2).unwrap(), EdgeType::Undirected);
}

#[test]
fn rebuild_stores_removed_edges_as_phantom_edges() {
    let mut sim = Simulation::new();
    let node1 = sim.spawn_random_node();
    let node2 = sim.spawn_random_node();
    add_peer(&mut sim, node2, node1);

    let mut edges = EdgeMap::new();
    edges.rebuild(&sim.world, 0);

    remove_peer(&mut sim, node2, node1);
    edges.rebuild(&sim.world, 1);

    assert_eq!(edges.edge_type(node1, node2).unwrap(), EdgeType::Phantom);
}

#[test]
fn rebuild_happens_only_after_peer_changes() {
    let mut sim = Simulation::new();
    let node1 = sim.spawn_random_node();
    let node2 = sim.spawn_random_node();
    let mut edges = EdgeMap::new();
    assert!(!edges.rebuild_if_needed(&sim.world, 5));

    sim.catch_up(3);
    add_peer(&mut sim, node1, node2);
    assert!(edges.rebuild_if_needed(&sim.world, 6));
    assert!(!edges.rebuild_if_needed(&sim.world, 7));
}

#[test]
fn pseudorandom_is_random_but_deterministic() {
    let palette: Vec<String> = (0..1024).map(|i| format!("#{:06x}", i)).collect();
    let colors = PseudorandomColors::from_palette(palette);
    assert_eq!(colors.get(42), colors.get(42));
    assert_ne!(colors.get(23), colors.get(42));
    assert_eq!(colors.all().len(), 1024);
}

#[test]
fn pseudorandomize_scrambles_by_the_mersenne_multiplier() {
    assert_eq!(pseudorandomize(0), 0);
    assert_eq!(pseudorandomize(1), 0x7fff_ffff);
    assert_eq!(pseudorandomize(2), 0xffff_fffe);
    assert_eq!(pseudorandomize(3), (3u64 * 0x7fff_ffff % 0x1_0000_0000) as u32);
}

#[test]
fn blocks_cutout_walks_the_main_chain() {
    let mut state = NakamotoNodeState::new();
    state.register_block(block(1, 0));
    state.register_block(block(2, 1));
    state.register_block(block(3, 2));
    let cutout = blocks_cutout(&state, 5);
    assert_eq!(cutout[0], vec![Some(bid(3)), Some(bid(2)), Some(bid(1))]);
}

#[test]
fn blocks_cutout_pads_forks_by_height_difference() {
    let mut state = NakamotoNodeState::new();
    state.register_block(block(1, 0));
    state.register_block(block(2, 1));
    state.register_block(block(3, 2));
    state.register_block(block(7, 1));
    let cutout = blocks_cutout(&state, 5);
    assert_eq!(cutout.len(), 2);
    assert_eq!(cutout[1], vec![None, Some(bid(7)), Some(bid(1))]);
}

#[test]
fn blocks_cutout_respects_max_depth() {
    let mut state = NakamotoNodeState::new();
    state.register_block(block(1, 0));
    state.register_block(block(2, 1));
    state.register_block(block(3, 2));
    let cutout = blocks_cutout(&state, 2);
    assert_eq!(cutout[0], vec![Some(bid(3)), Some(bid(2))]);
}

#[test]
fn isqrt_rounds_down() {
    assert_eq!(isqrt(0), 0);
    assert_eq!(isqrt(1), 1);
    assert_eq!(isqrt(8), 2);
    assert_eq!(isqrt(9), 3);
    assert_eq!(isqrt(10), 3);
    assert_eq!(isqrt(0xffff_ffff), 0xffff);
}

#[test]
fn distance_is_euclidean_rounded_down() {
    let a = UnderlayPosition::new(0, 0);
    let b = UnderlayPosition::new(3, 4);
    assert_eq!(UnderlayPosition::distance(a, b), 5);
    let c = UnderlayPosition::new(1, 1);
    assert_eq!(UnderlayPosition::distance(a, c), 1);
    assert_eq!(abs_diff(3, 10), 7);
    assert_eq!(abs_diff(10, 3), 7);
}
