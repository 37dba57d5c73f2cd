use isds::nakamoto_consensus::{to_number, Block, BlockId, NakamotoNodeState};

fn bid(n: u64) -> BlockId {
    BlockId { w0: n, w1: 0, w2: 0, w3: 0 }
}

fn block(id: u64, prev: u64) -> Block {
    Block { hash: bid(id), hash_prev: bid(prev) }
}

#[test]
fn genesis_is_all_zero() {
    assert_eq!(BlockId::genesis(), bid(0));
    assert!(BlockId::genesis().is_genesis());
    assert!(!bid(7).is_genesis());
}

#[test]
fn fresh_state_sits_on_genesis() {
    let state = NakamotoNodeState::new();
    assert_eq!(state.tip(), BlockId::genesis());
    assert!(state.fork_tips().is_empty());
    assert_eq!(state.height(BlockId::genesis()), 0);
    assert!(state.all_blocks_sorted().is_empty());
}

#[test]
fn extending_the_tip_advances_it() {
    let mut state = NakamotoNodeState::new();
    assert!(state.register_block(block(1, 0)));
    assert_eq!(state.tip(), bid(1));
    assert_eq!(state.height(bid(1)), 1);
    assert!(state.register_block(block(2, 1)));
    assert_eq!(state.tip(), bid(2));
    assert_eq!(state.height(bid(2)), 2);
    assert!(state.fork_tips().is_empty());
}

#[test]
fn registering_twice_changes_nothing() {
    let mut state = NakamotoNodeState::new();
    assert!(state.register_block(block(1, 0)));
    assert!(state.register_block(block(2, 1)));
    let tip_before = state.tip();
    let forks_before = state.fork_tips().clone();
    let blocks_before = state.all_blocks_sorted();
    assert!(!state.register_block(block(2, 1)));
    assert_eq!(state.tip(), tip_before);
    assert_eq!(state.fork_tips(), &forks_before);
    assert_eq!(state.all_blocks_sorted(), blocks_before);
    assert_eq!(state.height(bid(2)), 2);
}

#[test]
fn orphans_are_dropped_silently() {
    let mut state = NakamotoNodeState::new();
    assert!(!state.register_block(block(5, 4)));
    assert_eq!(state.tip(), BlockId::genesis());
    assert!(state.all_blocks_sorted().is_empty());
    assert_eq!(state.hash_prev(bid(5)), None);
}

#[test]
fn equal_height_fork_never_displaces_the_tip() {
    let mut state = NakamotoNodeState::new();
    assert!(state.register_block(block(1, 0)));
    // a competing chain of equal height becomes a fork tip only
    assert!(!state.register_block(block(2, 0)));
    assert_eq!(state.tip(), bid(1));
    assert_eq!(state.fork_tips(), &vec![bid(2)]);
    assert_eq!(state.height(bid(2)), 1);
}

#[test]
fn a_longer_fork_reorganizes_the_tip() {
    let mut state = NakamotoNodeState::new();
    assert!(state.register_block(block(1, 0)));
    assert!(!state.register_block(block(2, 0)));
    // the fork grows past the tip: longest chain wins
    assert!(state.register_block(block(3, 2)));
    assert_eq!(state.tip(), bid(3));
    assert_eq!(state.fork_tips(), &vec![bid(1)]);
    assert_eq!(state.height(bid(3)), 2);
    assert_eq!(state.height(state.tip()), 2);
}

#[test]
fn fork_tip_moves_along_its_chain() {
    let mut state = NakamotoNodeState::new();
    assert!(state.register_block(block(1, 0)));
    assert!(state.register_block(block(2, 1)));
    assert!(state.register_block(block(3, 2)));
    assert!(!state.register_block(block(10, 0)));
    assert!(!state.register_block(block(11, 10)));
    // the fork tip is the head of the alternative chain, not its tail
    assert_eq!(state.fork_tips(), &vec![bid(11)]);
    assert_eq!(state.tip(), bid(3));
}

#[test]
fn hash_prev_reports_the_predecessor() {
    let mut state = NakamotoNodeState::new();
    state.register_block(block(1, 0));
    state.register_block(block(2, 1));
    assert_eq!(state.hash_prev(bid(2)), Some(bid(1)));
    assert_eq!(state.hash_prev(bid(1)), Some(BlockId::genesis()));
    assert_eq!(state.hash_prev(bid(9)), None);
}

#[test]
fn all_blocks_sorted_ascends_by_height() {
    let mut state = NakamotoNodeState::new();
    state.register_block(block(1, 0));
    state.register_block(block(2, 1));
    state.register_block(block(3, 2));
    state.register_block(block(10, 0));
    let sorted = state.all_blocks_sorted();
    assert_eq!(sorted.len(), 4);
    let mut last_height = 0;
    for b in &sorted {
        let h = state.height(b.hash());
        assert!(h >= last_height);
        last_height = h;
    }
    // every stored block appears exactly once
    let mut ids: Vec<BlockId> = sorted.iter().map(|b| b.hash()).collect();
    ids.sort_by_key(|i| i.w0);
    assert_eq!(ids, vec![bid(1), bid(2), bid(3), bid(10)]);
}

#[test]
fn replaying_sorted_blocks_rebuilds_the_same_tree() {
    let mut state = NakamotoNodeState::new();
    state.register_block(block(1, 0));
    state.register_block(block(2, 1));
    state.register_block(block(7, 0));
    state.register_block(block(3, 2));
    let mut other = NakamotoNodeState::new();
    for b in state.all_blocks_sorted() {
        other.register_block(b);
    }
    assert_eq!(other.tip(), state.tip());
    assert_eq!(other.height(other.tip()), state.height(state.tip()));
}

#[test]
fn genesis_connectivity_walk() {
    let mut state = NakamotoNodeState::new();
    state.register_block(block(1, 0));
    state.register_block(block(2, 1));
    state.register_block(block(7, 0));
    state.register_block(block(8, 7));
    state.register_block(block(9, 8));
    // walk predecessor links from the tip and every fork tip; every
    // stored block must be visited and each walk must end at genesis
    let mut remaining: Vec<BlockId> = state.all_blocks_sorted().iter().map(|b| b.hash()).collect();
    let mut queue = vec![state.tip()];
    queue.extend(state.fork_tips().iter().cloned());
    while let Some(id) = queue.pop() {
        if id.is_genesis() {
            continue;
        }
        let prev = state.hash_prev(id).expect("block not connected to genesis");
        if let Some(pos) = remaining.iter().position(|r| *r == id) {
            remaining.remove(pos);
            queue.push(prev);
        }
    }
    assert!(remaining.is_empty());
}

#[test]
fn to_number_folds_the_low_byte() {
    assert_eq!(to_number(bid(0)), 0);
    assert_eq!(to_number(bid(1)), 15);
    assert_eq!(to_number(bid(0x1_02)), 2 * 15);
    assert_eq!(to_number(bid(255)), 255 * 15);
}

#[test]
fn minted_blocks_sit_on_the_given_predecessor() {
    let mut rng = rand::thread_rng();
    let b = Block::new(bid(3), &mut rng);
    assert_eq!(b.hash_prev, bid(3));
    assert!(!b.hash.is_genesis());
    let c = Block::new(b.hash(), &mut rng);
    assert_eq!(c.hash_prev, b.hash());
}
