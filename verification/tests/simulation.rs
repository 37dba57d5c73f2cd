use isds::nakamoto_consensus::{Block, BlockId, NakamotoNodeState};
use isds::peers::{add_peer, add_random_nodes_as_peers, AddPeer, MakeDelaunayNetwork};
use isds::scheduler::Command;
use isds::sim::{LogEntry, ProtocolKind, Simulation};
use isds::Entity;

fn consensus_of(sim: &Simulation, node: Entity) -> NakamotoNodeState {
    sim.world.consensus.get(node.id).expect("no consensus state stored").clone()
}

fn three_node_line() -> (Simulation, Entity, Entity, Entity) {
    let mut sim = Simulation::new();
    sim.install_protocol(ProtocolKind::NakamotoConsensus);
    let node1 = sim.spawn_random_node();
    let node2 = sim.spawn_random_node();
    let node3 = sim.spawn_random_node();
    add_peer(&mut sim, node1, node2);
    add_peer(&mut sim, node2, node1);
    add_peer(&mut sim, node2, node3);
    add_peer(&mut sim, node3, node2);
    (sim, node1, node2, node3)
}

#[test]
fn blocks_get_distributed() {
    let (mut sim, node1, node2, node3) = three_node_line();
    sim.do_now(Command::PokeNode(node1));
    sim.catch_up(100);

    let state1 = consensus_of(&sim, node1);
    let state2 = consensus_of(&sim, node2);
    let state3 = consensus_of(&sim, node3);
    assert_eq!(state1.tip(), state2.tip());
    assert_eq!(state1.tip(), state3.tip());
    assert_eq!(state1.height(state1.tip()), 1);
}

#[test]
fn forks_get_registered() {
    let (mut sim, node1, _node2, node3) = three_node_line();
    sim.do_now(Command::PokeNode(node1));
    sim.catch_up(100);

    sim.do_now(Command::PokeNode(node1));
    sim.do_now(Command::PokeNode(node3));
    sim.catch_up(100);

    let state1 = consensus_of(&sim, node1);
    let state3 = consensus_of(&sim, node3);
    assert_ne!(state1.tip(), state3.tip());
    let fork_tip_1 = *state1.fork_tips().first().expect("no forks registered");
    assert_eq!(fork_tip_1, state3.tip());
}

#[test]
fn forks_get_resolved() {
    let (mut sim, node1, _node2, node3) = three_node_line();
    sim.do_now(Command::PokeNode(node1));
    sim.catch_up(100);

    sim.do_now(Command::PokeNode(node1));
    sim.do_now(Command::PokeNode(node3));
    sim.catch_up(100);

    sim.do_now(Command::PokeNode(node1));
    sim.catch_up(100);

    let state1 = consensus_of(&sim, node1);
    let state3 = consensus_of(&sim, node3);
    assert_eq!(state1.tip(), state3.tip());
}

#[test]
fn nakamoto_consensus_recovers_from_splits() {
    let mut sim = Simulation::new();
    sim.install_protocol(ProtocolKind::NakamotoConsensus);
    let node1 = sim.spawn_random_node();
    let node2 = sim.spawn_random_node();

    sim.do_now(Command::PokeNode(node1));
    sim.do_now(Command::PokeNode(node1));
    sim.do_now(Command::PokeNode(node1));

    sim.do_now(Command::PokeNode(node2));
    sim.do_now(Command::PokeNode(node2));

    sim.catch_up(10);

    add_peer(&mut sim, node1, node2);
    add_peer(&mut sim, node2, node1);

    sim.catch_up(10);

    let state1 = consensus_of(&sim, node1);
    let state2 = consensus_of(&sim, node2);
    assert_eq!(state1.height(state1.tip()), state2.height(state2.tip()));
    assert_eq!(state1.tip(), state2.tip());
    assert_eq!(state1.height(state1.tip()), 3);
}

#[test]
fn in_perfect_case_all_stored_blocks_are_connected_to_genesis() {
    let mut sim = Simulation::new();
    sim.install_protocol(ProtocolKind::NakamotoConsensus);
    sim.do_now(Command::SpawnRandomNodes(8));
    sim.do_now(Command::MakeDelaunayNetwork(MakeDelaunayNetwork));
    sim.catch_up(1);

    for _ in 0..20 {
        sim.do_now(Command::PokeMultipleRandomNodes(1));
        sim.catch_up(100);
    }

    let nodes = sim.world.node_entities();
    let tested_node = *nodes.first().expect("no nodes spawned");
    let state = consensus_of(&sim, tested_node);

    let mut remaining: Vec<_> = state.all_blocks_sorted().iter().map(|b| b.hash()).collect();
    let mut queue = vec![state.tip()];
    queue.extend(state.fork_tips().iter().cloned());
    while let Some(id) = queue.pop() {
        if id.is_genesis() {
            continue;
        }
        let prev = state.hash_prev(id).expect("block not connected to genesis");
        if let Some(pos) = remaining.iter().position(|r| *r == id) {
            remaining.remove(pos);
            queue.push(prev);
        }
    }
    assert!(remaining.is_empty());
}

#[test]
fn tip_height_never_regresses() {
    let (mut sim, node1, node2, node3) = three_node_line();
    let mut last = [0usize; 3];
    for round in 0..6 {
        let poked = [node1, node3, node2][round % 3];
        sim.do_now(Command::PokeNode(poked));
        sim.catch_up(50);
        for (i, n) in [node1, node2, node3].iter().enumerate() {
            let st = consensus_of(&sim, *n);
            let h = st.height(st.tip());
            assert!(h >= last[i]);
            last[i] = h;
        }
    }
}

#[test]
fn flooding_carries_each_item_once_per_edge() {
    let mut sim = Simulation::new();
    sim.install_protocol(ProtocolKind::SimpleFlooding);
    let node1 = sim.spawn_random_node();
    let node2 = sim.spawn_random_node();
    let node3 = sim.spawn_random_node();
    add_peer(&mut sim, node1, node2);
    add_peer(&mut sim, node2, node1);
    add_peer(&mut sim, node2, node3);
    add_peer(&mut sim, node3, node2);

    sim.do_now(Command::InjectDatum(node1, 42));
    sim.catch_up(100);

    // every connected node has received the item
    for n in [node1, node2, node3] {
        let fs = sim.world.flooding.get(n.id).expect("no flooding state");
        assert!(fs.has_seen(isds::simple_flooding::Payload::Datum(42)));
    }
    // and each peer edge carried at most one send: one hop 1->2, one 2->3
    let sends = sim
        .message_log
        .iter()
        .filter(|(_, e)| matches!(e, LogEntry::Sent(_, _)))
        .count();
    assert_eq!(sends, 2);
}

#[test]
fn delaunay_peering_is_symmetric() {
    let mut sim = Simulation::new();
    sim.do_now(Command::SpawnRandomNodes(7));
    sim.do_now(Command::MakeDelaunayNetwork(MakeDelaunayNetwork));
    sim.catch_up(1);

    let nodes = sim.world.node_entities();
    assert_eq!(nodes.len(), 7);
    let mut any_edge = false;
    for a in &nodes {
        let ps_a = sim.world.peer_sets.get(a.id).expect("no peer set");
        for b in ps_a.iter() {
            any_edge = true;
            let ps_b = sim.world.peer_sets.get(b.id).expect("no peer set");
            assert!(ps_b.contains(a));
        }
    }
    assert!(any_edge);
}

#[test]
fn delaunay_fails_atomically_without_nodes() {
    let mut sim = Simulation::new();
    let r = isds::peers::make_delaunay_network(&mut sim);
    assert!(r.is_err());
}

#[test]
fn add_peer_adds_peer() {
    let mut sim = Simulation::new();
    let node1 = sim.spawn_random_node();
    let node2 = sim.spawn_random_node();
    add_peer(&mut sim, node1, node2);

    let actual = sim.world.peer_sets.get(node1.id).expect("no peer set");
    assert!(actual.contains(&node2));
    assert_eq!(actual.len(), 1);
    assert!(!actual.contains(&node1));
    assert_eq!(actual.last_update(), sim.now());
}

#[test]
fn add_random_other_nodes_as_peers_adds_peers() {
    let mut sim = Simulation::new();
    let node1 = sim.spawn_random_node();
    sim.spawn_random_node();
    sim.spawn_random_node();
    sim.spawn_random_node();
    sim.spawn_random_node();

    add_random_nodes_as_peers(&mut sim, node1, 2, 3);

    let peers = sim.world.peer_sets.get(node1.id).expect("no peer set");
    let actual = peers.len();
    assert!(2 <= actual);
    assert!(actual <= 3);
    assert!(!peers.contains(&node1));
}

#[test]
fn peer_commands_run_via_the_queue() {
    let mut sim = Simulation::new();
    sim.install_protocol(ProtocolKind::NakamotoConsensus);
    let node1 = sim.spawn_random_node();
    let node2 = sim.spawn_random_node();
    sim.do_now(Command::AddPeer(AddPeer(node1, node2)));
    sim.catch_up(1);
    let ps = sim.world.peer_sets.get(node1.id).expect("no peer set");
    assert!(ps.contains(&node2));
}

#[test]
fn events_at_equal_times_fire_in_scheduling_order() {
    // two pokes of the same node at the same instant: the chain grows by
    // two, which requires the first block to be registered before the
    // second one is mined
    let mut sim = Simulation::new();
    sim.install_protocol(ProtocolKind::NakamotoConsensus);
    let node1 = sim.spawn_random_node();
    sim.do_now(Command::PokeNode(node1));
    sim.do_now(Command::PokeNode(node1));
    sim.do_now(Command::PokeNode(node1));
    sim.catch_up(1);
    let st = consensus_of(&sim, node1);
    assert_eq!(st.height(st.tip()), 3);
    assert!(st.fork_tips().is_empty());
}

#[test]
fn clock_advances_to_the_target() {
    let mut sim = Simulation::new();
    assert_eq!(sim.now(), 0);
    sim.catch_up(25);
    assert_eq!(sim.now(), 25);
    sim.catch_up(5);
    assert_eq!(sim.now(), 30);
}

#[test]
fn random_messages_fly_between_nodes() {
    let mut sim = Simulation::new();
    sim.spawn_random_node();
    sim.spawn_random_node();
    sim.spawn_random_node();
    sim.do_now(Command::SpawnRandomMessages(2));
    sim.catch_up(0);
    // both messages exist as entities until their arrival time
    let in_flight = sim
        .message_log
        .iter()
        .filter(|(_, e)| matches!(e, LogEntry::Sent(_, _)))
        .count();
    assert_eq!(in_flight, 2);
    sim.catch_up(100);
    // arrived messages are despawned again
    let mut remaining = 0;
    for e in 0..sim.world.next_id {
        if sim.world.messages.get(e).is_some() {
            remaining += 1;
        }
    }
    assert_eq!(remaining, 0);
}

#[test]
fn injected_blocks_register_and_propagate() {
    let (mut sim, node1, node2, node3) = three_node_line();
    let b1 = Block { hash: BlockId { w0: 9, w1: 9, w2: 9, w3: 9 }, hash_prev: BlockId::genesis() };
    sim.do_now(Command::MineBlock(node1, b1));
    sim.catch_up(100);
    for n in [node1, node2, node3] {
        let st = consensus_of(&sim, n);
        assert_eq!(st.tip(), b1.hash());
        assert_eq!(st.height(st.tip()), 1);
    }
}

#[test]
fn messages_to_random_nodes_need_a_partner() {
    let mut sim = Simulation::new();
    let lonely = sim.spawn_random_node();
    sim.spawn_message_to_random_node(lonely);
    let sends = sim
        .message_log
        .iter()
        .filter(|(_, e)| matches!(e, LogEntry::Sent(_, _)))
        .count();
    assert_eq!(sends, 0);
    sim.spawn_random_node();
    sim.spawn_message_to_random_node(lonely);
    let sends = sim
        .message_log
        .iter()
        .filter(|(_, e)| matches!(e, LogEntry::Sent(_, _)))
        .count();
    assert_eq!(sends, 1);
}
