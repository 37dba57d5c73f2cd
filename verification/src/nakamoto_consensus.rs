use vstd::prelude::*;

use crate::table::{entries_map, entry_keys, lemma_entries_map_dom, lemma_entries_map_index};

verus! {

/// A block's identity tag: an opaque 256-bit value, held as four words.
/// The all-zero tag is the reserved genesis sentinel and never names a
/// stored block.
#[derive(Clone, Copy, PartialEq, Eq, Structural, Debug)]
pub struct BlockId {
    pub w0: u64,
    pub w1: u64,
    pub w2: u64,
    pub w3: u64,
}

/// The genesis sentinel: the all-zero identity tag.
pub open spec fn genesis_id() -> BlockId {
    BlockId { w0: 0, w1: 0, w2: 0, w3: 0 }
}

impl BlockId {
    pub fn genesis() -> (r: BlockId)
        ensures
            r == genesis_id(),
    {
        BlockId { w0: 0, w1: 0, w2: 0, w3: 0 }
    }

    pub fn is_genesis(&self) -> (r: bool)
        ensures
            r == (*self == genesis_id()),
    {
        self.w0 == 0 && self.w1 == 0 && self.w2 == 0 && self.w3 == 0
    }
}

/// A block: its own identity tag and the tag of its predecessor.
/// Identity is an independently drawn random value, standing in for a
/// hash; it is not a digest of the block's content.
#[derive(Clone, Copy, PartialEq, Eq, Structural, Debug)]
pub struct Block {
    pub hash: BlockId,
    pub hash_prev: BlockId,
}

impl Block {
    /// Mint a block on the given predecessor with a freshly drawn random
    /// identity tag; the reserved all-zero tag is never produced.
    pub fn new(hash_prev: BlockId, rng: &mut rand::rngs::ThreadRng) -> (r: Block)
        ensures
            r.hash_prev == hash_prev,
            r.hash != genesis_id(),
    {
        let w0 = crate::rng::rng_next_u64(rng);
        let w1 = crate::rng::rng_next_u64(rng);
        let w2 = crate::rng::rng_next_u64(rng);
        let w3 = crate::rng::rng_next_u64(rng);
        let drawn = BlockId { w0, w1, w2, w3 };
        let hash = if drawn.is_genesis() {
            BlockId { w0: 1, w1: 0, w2: 0, w3: 0 }
        } else {
            drawn
        };
        Block { hash, hash_prev }
    }

    pub fn hash(&self) -> (r: BlockId)
        ensures
            r == self.hash,
    {
        self.hash
    }
}

/// A small numeric digest of an identity tag, for picking display colors:
/// the lowest byte summed under the first four powers of two.
pub fn to_number(hash: BlockId) -> (r: u32)
    ensures
        r == 15 * (hash.w0 % 256),
{
    let b = (hash.w0 % 256) as u32;
    b + 2 * b + 4 * b + 8 * b
}

/// The mathematical model of one node's consensus state: which blocks it
/// stores (identity to height and predecessor), its current best tip, and
/// the heads of the alternative chains it knows.
#[verifier::ext_equal]
pub struct ChainView {
    pub blocks: Map<BlockId, (nat, BlockId)>,
    pub tip: BlockId,
    pub forks: Set<BlockId>,
}

/// Height of a block in the model: genesis is 0, a stored block reports
/// its stored height.
pub open spec fn chain_height(v: ChainView, id: BlockId) -> nat {
    if id == genesis_id() {
        0
    } else if v.blocks.dom().contains(id) {
        v.blocks[id].0
    } else {
        0
    }
}

/// A stored block's predecessor link is sound: the predecessor is genesis
/// or stored, and the height is the predecessor's plus one.
pub open spec fn parent_ok(v: ChainView, id: BlockId) -> bool {
    {
        let h = v.blocks[id].0;
        let p = v.blocks[id].1;
        &&& p != id
        &&& if p == genesis_id() {
            h == 1
        } else {
            v.blocks.dom().contains(p) && h == v.blocks[p].0 + 1
        }
    }
}

/// Whether `t` is a chain head the node tracks: the best tip or a fork tip.
pub open spec fn is_tip(v: ChainView, t: BlockId) -> bool {
    t == v.tip || v.forks.contains(t)
}

/// `id` lies on the predecessor chain of `from` (inclusive). The height
/// guard makes the recursion well-founded; on a well-formed state it is
/// always satisfied along real chains.
pub open spec fn on_chain(m: Map<BlockId, (nat, BlockId)>, from: BlockId, id: BlockId) -> bool
    decreases (if m.dom().contains(from) { m[from].0 } else { 0 }),
{
    from == id || {
        &&& m.dom().contains(from)
        &&& (if m.dom().contains(m[from].1) {
            m[m[from].1].0
        } else {
            0
        }) < m[from].0
        &&& on_chain(m, m[from].1, id)
    }
}

/// Walking predecessor links from `id` ends at the genesis sentinel.
pub open spec fn reaches_genesis(m: Map<BlockId, (nat, BlockId)>, id: BlockId) -> bool
    decreases (if m.dom().contains(id) { m[id].0 } else { 0 }),
{
    id == genesis_id() || {
        &&& m.dom().contains(id)
        &&& (if m.dom().contains(m[id].1) {
            m[m[id].1].0
        } else {
            0
        }) < m[id].0
        &&& reaches_genesis(m, m[id].1)
    }
}

/// `id` is on the chain of the tip or of some fork tip: no stored block is
/// left unreachable from the tracked heads.
pub open spec fn covered(v: ChainView, id: BlockId) -> bool {
    exists|t: BlockId| is_tip(v, t) && on_chain(v.blocks, t, id)
}

/// Well-formedness of a node's consensus state.
pub open spec fn wf_chain(v: ChainView) -> bool {
    &&& !v.blocks.dom().contains(genesis_id())
    &&& v.blocks.dom().finite()
    &&& forall|id: BlockId| #[trigger] v.blocks.dom().contains(id) ==> parent_ok(v, id)
    &&& (v.tip == genesis_id() || v.blocks.dom().contains(v.tip))
    &&& (forall|f: BlockId| #[trigger] v.forks.contains(f) ==> v.blocks.dom().contains(f))
    &&& !v.forks.contains(v.tip)
    &&& (forall|id: BlockId| #[trigger] v.blocks.dom().contains(id) ==> v.blocks[id].0
        <= chain_height(v, v.tip))
    &&& chain_height(v, v.tip) <= v.blocks.dom().len()
    &&& (forall|id: BlockId| #[trigger] v.blocks.dom().contains(id) ==> covered(v, id))
}

/// The longest-chain registration rule, as a function of the model.
///
/// A block whose tag is the genesis sentinel, or that is already stored,
/// or whose predecessor is unknown (an orphan), leaves the state unchanged.
/// A block extending the current tip advances the tip. Any other block
/// whose predecessor is known starts or extends a fork; if that fork
/// becomes strictly higher than the tip, the tip is reorganised onto it,
/// and a tie never displaces the tip (first seen wins). The boolean tells
/// whether the best tip moved.
pub open spec fn spec_register(v: ChainView, b: Block) -> (ChainView, bool) {
    if b.hash == genesis_id() {
        (v, false)
    } else if v.blocks.dom().contains(b.hash) {
        (v, false)
    } else if v.blocks.dom().len() >= usize::MAX as nat {
        (v, false)
    } else if b.hash_prev == v.tip {
        (
            ChainView {
                blocks: v.blocks.insert(b.hash, (chain_height(v, v.tip) + 1, b.hash_prev)),
                tip: b.hash,
                forks: v.forks,
            },
            true,
        )
    } else if b.hash_prev == genesis_id() || v.blocks.dom().contains(b.hash_prev) {
        let h = chain_height(v, b.hash_prev) + 1;
        let blocks2 = v.blocks.insert(b.hash, (h, b.hash_prev));
        if h > chain_height(v, v.tip) {
            (
                ChainView { blocks: blocks2, tip: b.hash, forks: v.forks.remove(b.hash_prev).insert(v.tip) },
                true,
            )
        } else {
            (
                ChainView { blocks: blocks2, tip: v.tip, forks: v.forks.remove(b.hash_prev).insert(b.hash) },
                false,
            )
        }
    } else {
        (v, false)
    }
}

/// The state a node starts from: nothing stored, the tip is genesis, and
/// there are no fork tips.
pub open spec fn initial_chain() -> ChainView {
    ChainView { blocks: Map::empty(), tip: genesis_id(), forks: Set::empty() }
}

/// Chains are preserved when the block map grows by a fresh, non-genesis
/// key, provided every stored predecessor was itself stored or genesis.
proof fn lemma_on_chain_mono(
    m: Map<BlockId, (nat, BlockId)>,
    m2: Map<BlockId, (nat, BlockId)>,
    t: BlockId,
    id: BlockId,
    newk: BlockId,
)
    requires
        on_chain(m, t, id),
        !m.dom().contains(newk),
        newk != genesis_id(),
        forall|k: BlockId| #[trigger] m.dom().contains(k) ==> (m[k].1 == genesis_id()
            || m.dom().contains(m[k].1)),
        !m.dom().contains(genesis_id()),
        m2.dom() == m.dom().insert(newk),
        forall|k: BlockId| #[trigger] m.dom().contains(k) ==> m2[k] == m[k],
    ensures
        on_chain(m2, t, id),
    decreases (if m.dom().contains(t) { m[t].0 } else { 0 }),
{
    if t == id {
    } else {
        assert(m.dom().contains(t));
        let p = m[t].1;
        lemma_on_chain_mono(m, m2, p, id, newk);
        assert(p == genesis_id() || m.dom().contains(p));
        assert(p != newk);
    }
}

/// Registration preserves well-formedness: the state stays anchored, its
/// heights stay consistent, and every stored block stays covered by the
/// tip or a fork tip.
pub proof fn lemma_register_preserves_wf(v: ChainView, b: Block)
    requires
        wf_chain(v),
    ensures
        wf_chain(spec_register(v, b).0),
{
    broadcast use vstd::set::axiom_set_insert_len;

    let (v2, moved) = spec_register(v, b);
    let g = genesis_id();
    if b.hash == g || v.blocks.dom().contains(b.hash) || v.blocks.dom().len() >= usize::MAX
        as nat {
    } else if b.hash_prev == v.tip || b.hash_prev == g || v.blocks.dom().contains(b.hash_prev) {
        let prev = b.hash_prev;
        let h = chain_height(v, prev) + 1;
        let m = v.blocks;
        let m2 = v2.blocks;
        assert(m2.dom() =~= m.dom().insert(b.hash));
        assert(m2.dom().len() == m.dom().len() + 1);

        // parent links stay sound
        assert forall|id: BlockId| #[trigger] m2.dom().contains(id) implies parent_ok(v2, id) by {
            if id == b.hash {
                assert(prev != b.hash);
            } else {
                assert(m.dom().contains(id));
                assert(parent_ok(v, id));
                assert(m[id].1 != b.hash);
            }
        }
        // heights stay below the tip's, and the tip's below the block count
        assert(chain_height(v2, v2.tip) >= chain_height(v, v.tip));
        assert forall|id: BlockId| #[trigger] m2.dom().contains(id) implies m2[id].0
            <= chain_height(v2, v2.tip) by {
            if id == b.hash {
                if b.hash_prev == v.tip {
                    assert(v2.tip == b.hash);
                } else if h > chain_height(v, v.tip) {
                    assert(v2.tip == b.hash);
                } else {
                    assert(v2.tip == v.tip);
                    assert(chain_height(v2, v2.tip) == chain_height(v, v.tip));
                }
            }
        }
        // every stored block stays covered
        assert forall|id: BlockId| #[trigger] m2.dom().contains(id) implies covered(v2, id) by {
            if id == b.hash {
                assert(is_tip(v2, b.hash));
                assert(on_chain(m2, b.hash, b.hash));
            } else {
                assert(m.dom().contains(id));
                let t = choose|t: BlockId| is_tip(v, t) && on_chain(v.blocks, t, id);
                if b.hash_prev == v.tip {
                    // the new tip's chain passes through the old tip
                    if t == v.tip {
                        lemma_on_chain_mono(m, m2, t, id, b.hash);
                        assert(chain_height(v, v.tip) < m2[b.hash].0);
                        assert(on_chain(m2, b.hash, id));
                        assert(is_tip(v2, b.hash));
                    } else {
                        lemma_on_chain_mono(m, m2, t, id, b.hash);
                        assert(is_tip(v2, t));
                    }
                } else {
                    // fork registration: chains through the predecessor now
                    // pass through the new block
                    if t == prev {
                        lemma_on_chain_mono(m, m2, t, id, b.hash);
                        assert(on_chain(m2, b.hash, id));
                        assert(is_tip(v2, b.hash) || v2.forks.contains(b.hash));
                        assert(is_tip(v2, b.hash));
                    } else if t == v.tip {
                        lemma_on_chain_mono(m, m2, t, id, b.hash);
                        assert(is_tip(v2, t));
                    } else {
                        lemma_on_chain_mono(m, m2, t, id, b.hash);
                        assert(v2.forks.contains(t));
                        assert(is_tip(v2, t));
                    }
                }
            }
        }
    }
}

/// Registering a block a node already processed never changes anything:
/// the second call returns the state untouched and reports no tip change.
pub proof fn lemma_register_idempotent(v: ChainView, b: Block)
    ensures
        spec_register(spec_register(v, b).0, b).0 == spec_register(v, b).0,
        spec_register(spec_register(v, b).0, b).1 == false,
{
    broadcast use vstd::set::axiom_set_insert_len;

    let v1 = spec_register(v, b).0;
    if b.hash == genesis_id() {
    } else if v.blocks.dom().contains(b.hash) {
    } else if v.blocks.dom().len() >= usize::MAX as nat {
    } else {
        if b.hash_prev == v.tip || b.hash_prev == genesis_id() || v.blocks.dom().contains(
            b.hash_prev,
        ) {
            assert(v1.blocks.dom().contains(b.hash));
        }
    }
}

/// A block whose predecessor the node knows (or which sits directly on
/// genesis) is never dropped: registration stores it. Dissemination can
/// therefore reconcile any two nodes by replaying blocks parents-first;
/// only a block whose ancestor is still in flight is dropped, and it is
/// re-delivered by flooding once the ancestor has arrived.
pub proof fn lemma_register_accepts_known_parent(v: ChainView, b: Block)
    requires
        wf_chain(v),
        b.hash != genesis_id(),
        !v.blocks.dom().contains(b.hash),
        v.blocks.dom().len() < usize::MAX as nat,
        b.hash_prev == genesis_id() || v.blocks.dom().contains(b.hash_prev),
    ensures
        spec_register(v, b).0.blocks.dom().contains(b.hash),
        spec_register(v, b).0.blocks[b.hash] == (
            (chain_height(v, b.hash_prev) + 1) as nat,
            b.hash_prev,
        ),
{
}

/// The tip's height never regresses under registration.
pub proof fn lemma_register_tip_monotone(v: ChainView, b: Block)
    requires
        wf_chain(v),
    ensures
        chain_height(spec_register(v, b).0, spec_register(v, b).0.tip) >= chain_height(v, v.tip),
{
}

/// On a well-formed state, walking predecessor links from any stored
/// block terminates at the genesis sentinel.
pub proof fn lemma_wf_reaches_genesis(v: ChainView, id: BlockId)
    requires
        wf_chain(v),
        v.blocks.dom().contains(id) || id == genesis_id(),
    ensures
        reaches_genesis(v.blocks, id),
    decreases (if v.blocks.dom().contains(id) { v.blocks[id].0 } else { 0 }),
{
    if id == genesis_id() {
    } else {
        let p = v.blocks[id].1;
        assert(parent_ok(v, id));
        lemma_wf_reaches_genesis(v, p);
    }
}

/// Genesis connectivity, stated over a whole state: every stored block is
/// covered by the tip or a fork tip, and every tracked head's predecessor
/// walk ends at genesis with consistent heights along the way.
pub proof fn lemma_genesis_connectivity(v: ChainView)
    requires
        wf_chain(v),
    ensures
        forall|id: BlockId| #[trigger] v.blocks.dom().contains(id) ==> covered(v, id),
        forall|id: BlockId|
            #[trigger] v.blocks.dom().contains(id) || id == genesis_id() ==> reaches_genesis(
                v.blocks,
                id,
            ),
        reaches_genesis(v.blocks, v.tip),
        forall|f: BlockId| #[trigger] v.forks.contains(f) ==> reaches_genesis(v.blocks, f),
{
    assert forall|id: BlockId|
        #[trigger] v.blocks.dom().contains(id) || id == genesis_id() implies reaches_genesis(
        v.blocks,
        id,
    ) by {
        lemma_wf_reaches_genesis(v, id);
    }
    lemma_wf_reaches_genesis(v, v.tip);
}

/// Distinct positions of a duplicate-free sequence hold distinct values.
pub proof fn lemma_no_dup_at<A>(s: Seq<A>, x: int, y: int)
    requires
        s.no_duplicates(),
        0 <= x < s.len(),
        0 <= y < s.len(),
        x != y,
    ensures
        s[x] != s[y],
{
}

/// The pair a stored entry denotes in the model: identity to height and
/// predecessor.
pub open spec fn bentry(e: (usize, Block)) -> (BlockId, (nat, BlockId)) {
    (e.1.hash, (e.0 as nat, e.1.hash_prev))
}

/// The model entries of a stored block sequence.
pub open spec fn bentries(s: Seq<(usize, Block)>) -> Seq<(BlockId, (nat, BlockId))> {
    s.map_values(|e: (usize, Block)| bentry(e))
}

/// One node's consensus state: the stored blocks with their heights
/// (keyed by block identity), the current best tip, and the fork tips.
#[derive(Clone, Debug)]
pub struct NakamotoNodeState {
    all_blocks: Vec<(usize, Block)>,
    tip: BlockId,
    fork_tips: Vec<BlockId>,
}

impl View for NakamotoNodeState {
    type V = ChainView;

    closed spec fn view(&self) -> ChainView {
        ChainView {
            blocks: entries_map(bentries(self.all_blocks@)),
            tip: self.tip,
            forks: self.fork_tips@.to_set(),
        }
    }
}

impl NakamotoNodeState {
    /// Representation invariant: distinct stored identities, distinct fork
    /// tips, stored entries matching the model, and a well-formed model.
    pub closed spec fn inv(self) -> bool {
        &&& entry_keys(bentries(self.all_blocks@)).no_duplicates()
        &&& self.fork_tips@.no_duplicates()
        &&& wf_chain(self@)
    }

    proof fn lemma_entry_facts(self)
        requires
            entry_keys(bentries(self.all_blocks@)).no_duplicates(),
        ensures
            self@.blocks.dom() =~= entry_keys(bentries(self.all_blocks@)).to_set(),
            self@.blocks.dom().finite(),
            forall|i: int|
                0 <= i < self.all_blocks@.len() ==> self@.blocks.dom().contains(
                    #[trigger] self.all_blocks@[i].1.hash,
                ) && self@.blocks[self.all_blocks@[i].1.hash] == (
                    self.all_blocks@[i].0 as nat,
                    self.all_blocks@[i].1.hash_prev,
                ),
            forall|id: BlockId|
                #[trigger] self@.blocks.dom().contains(id) ==> exists|i: int|
                    0 <= i < self.all_blocks@.len() && self.all_blocks@[i].1.hash == id,
    {
        let s = bentries(self.all_blocks@);
        lemma_entries_map_dom(s);
        assert forall|i: int| 0 <= i < self.all_blocks@.len() implies self@.blocks.dom().contains(
            #[trigger] self.all_blocks@[i].1.hash,
        ) && self@.blocks[self.all_blocks@[i].1.hash] == (
            self.all_blocks@[i].0 as nat,
            self.all_blocks@[i].1.hash_prev,
        ) by {
            lemma_entries_map_index(s, i);
            assert(s[i] == bentry(self.all_blocks@[i]));
        }
        assert forall|id: BlockId| #[trigger] self@.blocks.dom().contains(id) implies exists|i: int|
            0 <= i < self.all_blocks@.len() && self.all_blocks@[i].1.hash == id by {
            assert(entry_keys(s).to_set().contains(id));
            let i = choose|i: int| 0 <= i < entry_keys(s).len() && entry_keys(s)[i] == id;
            assert(entry_keys(s)[i] == s[i].0);
            assert(s[i] == bentry(self.all_blocks@[i]));
            assert(self.all_blocks@[i].1.hash == id);
        }
    }

    /// The representation invariant guarantees a well-formed model.
    pub proof fn lemma_inv_wf(self)
        requires
            self.inv(),
        ensures
            wf_chain(self@),
    {
    }

    pub fn new() -> (r: NakamotoNodeState)
        ensures
            r.inv(),
            r@ == initial_chain(),
    {
        let r = NakamotoNodeState { all_blocks: Vec::new(), tip: BlockId::genesis(), fork_tips: Vec::new() };
        proof {
            lemma_entries_map_dom(bentries(r.all_blocks@));
            assert(bentries(r.all_blocks@) =~= Seq::<(BlockId, (nat, BlockId))>::empty());
            assert(r@.blocks =~= initial_chain().blocks);
            assert(r@.forks =~= initial_chain().forks);
            assert(r@ =~= initial_chain());
        }
        r
    }

    /// The block the node currently considers the head of its best chain;
    /// the genesis sentinel if it stores nothing.
    pub fn tip(&self) -> (r: BlockId)
        ensures
            r == self@.tip,
    {
        self.tip
    }

    /// The heads of the alternative chains the node knows, best tip excluded.
    pub fn fork_tips(&self) -> (r: &Vec<BlockId>)
        ensures
            r@.to_set() == self@.forks,
            self.inv() ==> r@.no_duplicates(),
    {
        &self.fork_tips
    }

    /// Whether the node stores a block with this identity.
    pub fn contains_block(&self, id: BlockId) -> (r: bool)
        requires
            self.inv(),
        ensures
            r == self@.blocks.dom().contains(id),
    {
        proof {
            self.lemma_entry_facts();
        }
        let n = self.all_blocks.len();
        let mut i: usize = 0;
        while i < n
            invariant
                n == self.all_blocks@.len(),
                0 <= i <= n,
                forall|j: int| 0 <= j < i ==> self.all_blocks@[j].1.hash != id,
                entry_keys(bentries(self.all_blocks@)).no_duplicates(),
            decreases n - i,
        {
            if self.all_blocks[i].1.hash == id {
                proof {
                    self.lemma_entry_facts();
                }
                return true;
            }
            i += 1;
        }
        proof {
            self.lemma_entry_facts();
            if self@.blocks.dom().contains(id) {
                let j = choose|j: int|
                    0 <= j < self.all_blocks@.len() && self.all_blocks@[j].1.hash == id;
                assert(false);
            }
        }
        false
    }

    /// The stored height of a known block; the genesis sentinel reports 0.
    /// Asking about an unknown block is caller misuse and is excluded.
    #[verifier::rlimit(30)]
    pub fn height(&self, block_hash: BlockId) -> (r: usize)
        requires
            self.inv(),
            block_hash == genesis_id() || self@.blocks.dom().contains(block_hash),
        ensures
            r == chain_height(self@, block_hash),
    {
        proof {
            self.lemma_entry_facts();
        }
        if block_hash.is_genesis() {
            return 0;
        }
        let n = self.all_blocks.len();
        let mut i: usize = 0;
        while i < n
            invariant
                n == self.all_blocks@.len(),
                0 <= i <= n,
                forall|j: int| 0 <= j < i ==> self.all_blocks@[j].1.hash != block_hash,
                entry_keys(bentries(self.all_blocks@)).no_duplicates(),
                block_hash != genesis_id(),
                self@.blocks.dom().contains(block_hash),
            decreases n - i,
        {
            if self.all_blocks[i].1.hash == block_hash {
                proof {
                    self.lemma_entry_facts();
                }
                return self.all_blocks[i].0;
            }
            i += 1;
        }
        proof {
            self.lemma_entry_facts();
            let j = choose|j: int|
                0 <= j < self.all_blocks@.len() && self.all_blocks@[j].1.hash == block_hash;
            assert(false);
        }
        0
    }

    /// The predecessor tag of a stored block, if the block is known.
    pub fn hash_prev(&self, block_hash: BlockId) -> (r: Option<BlockId>)
        requires
            self.inv(),
        ensures
            match r {
                Some(p) => self@.blocks.dom().contains(block_hash) && p
                    == self@.blocks[block_hash].1,
                None => !self@.blocks.dom().contains(block_hash),
            },
    {
        proof {
            self.lemma_entry_facts();
        }
        let n = self.all_blocks.len();
        let mut i: usize = 0;
        while i < n
            invariant
                n == self.all_blocks@.len(),
                0 <= i <= n,
                forall|j: int| 0 <= j < i ==> self.all_blocks@[j].1.hash != block_hash,
                entry_keys(bentries(self.all_blocks@)).no_duplicates(),
            decreases n - i,
        {
            if self.all_blocks[i].1.hash == block_hash {
                proof {
                    self.lemma_entry_facts();
                }
                return Some(self.all_blocks[i].1.hash_prev);
            }
            i += 1;
        }
        proof {
            self.lemma_entry_facts();
            if self@.blocks.dom().contains(block_hash) {
                let j = choose|j: int|
                    0 <= j < self.all_blocks@.len() && self.all_blocks@[j].1.hash == block_hash;
                assert(false);
            }
        }
        None
    }

    fn forks_contains(&self, id: BlockId) -> (r: bool)
        ensures
            r == self@.forks.contains(id),
    {
        let n = self.fork_tips.len();
        let mut i: usize = 0;
        while i < n
            invariant
                n == self.fork_tips@.len(),
                0 <= i <= n,
                forall|j: int| 0 <= j < i ==> self.fork_tips@[j] != id,
            decreases n - i,
        {
            if self.fork_tips[i] == id {
                assert(self.fork_tips@.contains(id));
                return true;
            }
            i += 1;
        }
        proof {
            if self.fork_tips@.contains(id) {
                let j = choose|j: int| 0 <= j < self.fork_tips@.len() && self.fork_tips@[j] == id;
                assert(false);
            }
        }
        false
    }

    #[verifier::rlimit(60)]
    fn remove_fork(&mut self, id: BlockId)
        requires
            old(self).fork_tips@.no_duplicates(),
        ensures
            final(self).fork_tips@.no_duplicates(),
            final(self).fork_tips@.to_set() =~= old(self).fork_tips@.to_set().remove(id),
            final(self).all_blocks == old(self).all_blocks,
            final(self).tip == old(self).tip,
    {
        let n = self.fork_tips.len();
        let mut i: usize = 0;
        while i < n
            invariant
                self == old(self),
                self.fork_tips@.no_duplicates(),
                n == self.fork_tips@.len(),
                0 <= i <= n,
                forall|j: int| 0 <= j < i ==> self.fork_tips@[j] != id,
            decreases n - i,
        {
            if self.fork_tips[i] == id {
                let ghost s = self.fork_tips@;
                self.fork_tips.remove(i);
                proof {
                    s.remove_ensures(i as int);
                    assert(self.fork_tips@ == s.remove(i as int));
                    assert(self.fork_tips@.no_duplicates()) by {
                        assert forall|a: int, b: int|
                            0 <= a < b < self.fork_tips@.len() implies self.fork_tips@[a]
                            != self.fork_tips@[b] by {
                            let xa = if a < i { a } else { a + 1 };
                            let xb = if b < i { b } else { b + 1 };
                            assert(s.remove(i as int)[a] == s[xa]);
                            assert(s.remove(i as int)[b] == s[xb]);
                            lemma_no_dup_at(s, xa, xb);
                        }
                    }
                    assert forall|y: BlockId| self.fork_tips@.to_set().contains(y)
                        <==> s.to_set().remove(id).contains(y) by {
                        if self.fork_tips@.contains(y) {
                            let j = choose|j: int|
                                0 <= j < self.fork_tips@.len() && self.fork_tips@[j] == y;
                            let xj = if j < i { j } else { j + 1 };
                            assert(s.remove(i as int)[j] == s[xj]);
                            assert(s[xj] == y);
                            assert(s.contains(y));
                            if y == id {
                                if j < i {
                                    assert(s[xj] != id);
                                } else {
                                    lemma_no_dup_at(s, xj, i as int);
                                }
                            }
                        }
                        if s.contains(y) && y != id {
                            let j = choose|j: int| 0 <= j < s.len() && s[j] == y;
                            if j < i {
                                assert(s.remove(i as int)[j] == s[j]);
                                assert(self.fork_tips@[j] == y);
                            } else {
                                assert(j != i);
                                assert(s.remove(i as int)[j - 1] == s[(j - 1) + 1]);
                                assert(self.fork_tips@[j - 1] == y);
                            }
                            assert(self.fork_tips@.contains(y));
                        }
                    }
                }
                return ;
            }
            i += 1;
        }
        proof {
            if self.fork_tips@.contains(id) {
                let j = choose|j: int| 0 <= j < self.fork_tips@.len() && self.fork_tips@[j] == id;
                assert(false);
            }
            assert(self.fork_tips@.to_set() =~= self.fork_tips@.to_set().remove(id));
        }
    }

    fn push_fork(&mut self, id: BlockId)
        requires
            old(self).fork_tips@.no_duplicates(),
            !old(self).fork_tips@.to_set().contains(id),
        ensures
            final(self).fork_tips@.no_duplicates(),
            final(self).fork_tips@.to_set() =~= old(self).fork_tips@.to_set().insert(id),
            final(self).all_blocks == old(self).all_blocks,
            final(self).tip == old(self).tip,
    {
        let ghost s = self.fork_tips@;
        self.fork_tips.push(id);
        proof {
            assert forall|y: BlockId| self.fork_tips@.to_set().contains(y)
                <==> s.to_set().insert(id).contains(y) by {
                if self.fork_tips@.contains(y) {
                    let j = choose|j: int|
                        0 <= j < self.fork_tips@.len() && self.fork_tips@[j] == y;
                    if j < s.len() {
                        assert(s[j] == y);
                    }
                }
                if s.contains(y) {
                    let j = choose|j: int| 0 <= j < s.len() && s[j] == y;
                    assert(self.fork_tips@[j] == y);
                }
                if y == id {
                    assert(self.fork_tips@[s.len() as int] == id);
                }
            }
            assert(self.fork_tips@.no_duplicates()) by {
                assert forall|a: int, b: int|
                    0 <= a < b < self.fork_tips@.len() implies self.fork_tips@[a]
                    != self.fork_tips@[b] by {
                    if b == s.len() as int {
                        assert(s.contains(s[a]));
                    }
                }
            }
        }
    }

    fn push_block(&mut self, height: usize, block: Block)
        requires
            entry_keys(bentries(old(self).all_blocks@)).no_duplicates(),
            !entries_map(bentries(old(self).all_blocks@)).dom().contains(block.hash),
        ensures
            entry_keys(bentries(final(self).all_blocks@)).no_duplicates(),
            final(self)@.blocks =~= old(self)@.blocks.insert(
                block.hash,
                (height as nat, block.hash_prev),
            ),
            final(self).tip == old(self).tip,
            final(self).fork_tips == old(self).fork_tips,
            final(self).all_blocks@ == old(self).all_blocks@.push((height, block)),
    {
        proof {
            self.lemma_entry_facts();
        }
        let ghost s = self.all_blocks@;
        self.all_blocks.push((height, block));
        proof {
            assert(bentries(self.all_blocks@) =~= bentries(s).push(bentry((height, block))));
            assert(bentries(self.all_blocks@).drop_last() =~= bentries(s));
            assert(entries_map(bentries(self.all_blocks@)) =~= entries_map(bentries(s)).insert(
                block.hash,
                (height as nat, block.hash_prev),
            ));
            lemma_entries_map_dom(bentries(s));
            assert(entry_keys(bentries(self.all_blocks@)).no_duplicates()) by {
                let ks = entry_keys(bentries(s));
                let ks2 = entry_keys(bentries(self.all_blocks@));
                assert(ks2 =~= ks.push(block.hash));
                assert forall|a: int, b: int| 0 <= a < b < ks2.len() implies ks2[a] != ks2[b] by {
                    if b == ks.len() as int {
                        assert(ks.contains(ks[a]));
                        assert(ks.to_set().contains(ks[a]));
                    }
                }
            }
        }
    }

    /// All stored blocks (forks included) sorted by their block height,
    /// smallest heights first: the replay order that lets a fresh peer
    /// rebuild the same tree without orphaning any block.
    #[verifier::rlimit(50)]
    #[verifier::spinoff_prover]
    pub fn all_blocks_sorted(&self) -> (r: Vec<Block>)
        requires
            self.inv(),
        ensures
            r@.len() == self@.blocks.dom().len(),
            forall|i: int|
                0 <= i < r@.len() ==> self@.blocks.dom().contains(#[trigger] r@[i].hash)
                    && self@.blocks[r@[i].hash].1 == r@[i].hash_prev,
            forall|i: int, j: int|
                0 <= i < j < r@.len() ==> self@.blocks[r@[i].hash].0 <= self@.blocks[r@[j].hash].0,
            forall|i: int, j: int| 0 <= i < j < r@.len() ==> r@[i].hash != r@[j].hash,
            forall|id: BlockId|
                #[trigger] self@.blocks.dom().contains(id) ==> exists|i: int|
                    0 <= i < r@.len() && r@[i].hash == id,
    {
        proof {
            self.lemma_entry_facts();
            entry_keys(bentries(self.all_blocks@)).unique_seq_to_set();
        }
        let ghost input = self.all_blocks@;
        let n = self.all_blocks.len();
        proof {
            assert forall|j: int| 0 <= j < n implies 1 <= (#[trigger] input[j]).0 as int
                <= n by {
                assert(self@.blocks.dom().contains(input[j].1.hash));
                assert(parent_ok(self@, input[j].1.hash));
                assert(self@.blocks[input[j].1.hash].0 <= chain_height(self@, self@.tip));
            }
        }
        let mut out: Vec<(usize, Block)> = Vec::new();
        let ghost mut src: Seq<int> = Seq::empty();
        let mut hh: usize = 0;
        while hh < n
            invariant
                self.inv(),
                n == input.len(),
                input == self.all_blocks@,
                0 <= hh <= n,
                forall|j: int| 0 <= j < n ==> 1 <= (#[trigger] input[j]).0 as int <= n,
                src.len() == out@.len(),
                forall|k: int| 0 <= k < src.len() ==> 0 <= #[trigger] src[k] < n,
                forall|k: int| 0 <= k < src.len() ==> out@[k] == input[#[trigger] src[k]],
                forall|k: int| 0 <= k < src.len() ==> input[#[trigger] src[k]].0 as int <= hh,
                forall|k1: int, k2: int|
                    0 <= k1 < k2 < src.len() ==> input[#[trigger] src[k1]].0 <= input[
                        #[trigger] src[k2]
                    ].0,
                forall|k1: int, k2: int|
                    0 <= k1 < k2 < src.len() ==> #[trigger] src[k1] != #[trigger] src[k2],
                forall|j2: int|
                    0 <= j2 < n && (#[trigger] input[j2]).0 as int <= hh ==> exists|k: int|
                        0 <= k < src.len() && #[trigger] src[k] == j2,
            decreases n - hh,
        {
            let h = hh + 1;
            let ghost start_len = src.len() as int;
            let mut j: usize = 0;
            while j < n
                invariant
                    self.inv(),
                    n == input.len(),
                    input == self.all_blocks@,
                    0 <= j <= n,
                    1 <= h <= n,
                    h == hh + 1,
                    forall|j2: int| 0 <= j2 < n ==> 1 <= (#[trigger] input[j2]).0 as int <= n,
                    src.len() == out@.len(),
                    0 <= start_len <= src.len(),
                    forall|k: int| 0 <= k < src.len() ==> 0 <= #[trigger] src[k] < n,
                    forall|k: int| 0 <= k < src.len() ==> out@[k] == input[#[trigger] src[k]],
                    forall|k: int|
                        0 <= k < start_len ==> input[#[trigger] src[k]].0 as int <= hh,
                    forall|k: int|
                        start_len <= k < src.len() ==> input[#[trigger] src[k]].0 as int == h
                            && src[k] < j,
                    forall|k1: int, k2: int|
                        0 <= k1 < k2 < src.len() ==> input[#[trigger] src[k1]].0 <= input[
                            #[trigger] src[k2]
                        ].0,
                    forall|k1: int, k2: int|
                        0 <= k1 < k2 < src.len() ==> #[trigger] src[k1] != #[trigger] src[k2],
                    forall|j2: int|
                        0 <= j2 < n && (#[trigger] input[j2]).0 as int <= hh ==> exists|k: int|
                            0 <= k < src.len() && #[trigger] src[k] == j2,
                    forall|j2: int|
                        0 <= j2 < j && (#[trigger] input[j2]).0 as int == h ==> exists|k: int|
                            0 <= k < src.len() && #[trigger] src[k] == j2,
                decreases n - j,
            {
                if self.all_blocks[j].0 == h {
                    let e = self.all_blocks[j];
                    let ghost old_src = src;
                    out.push(e);
                    proof {
                        src = src.push(j as int);
                        assert(src[src.len() - 1] == j as int);
                        assert(out@[src.len() - 1] == input[j as int]);
                        assert forall|k: int| 0 <= k < src.len() - 1 implies #[trigger] src[k]
                            == old_src[k] by {}
                        assert forall|k: int|
                            start_len <= k < src.len() implies input[#[trigger] src[k]].0 as int
                            == h && src[k] < j + 1 by {
                            if k == src.len() - 1 {
                                assert(src[k] == j as int);
                            } else {
                                assert(0 <= k < old_src.len());
                                assert(old_src.push(j as int)[k] == old_src[k]);
                                assert(input[old_src[k]].0 as int == h && old_src[k] < j);
                            }
                        }
                        assert forall|j2: int|
                            0 <= j2 < n && (#[trigger] input[j2]).0 as int <= hh implies exists|
                            k: int,
                        | 0 <= k < src.len() && #[trigger] src[k] == j2 by {
                            let k = choose|k: int|
                                0 <= k < old_src.len() && #[trigger] old_src[k] == j2;
                            assert(src[k] == j2);
                        }
                        assert forall|j2: int|
                            0 <= j2 <= j && (#[trigger] input[j2]).0 as int == h implies exists|
                            k: int,
                        | 0 <= k < src.len() && #[trigger] src[k] == j2 by {
                            if j2 == j {
                                assert(src[src.len() - 1] == j2);
                            } else {
                                let k = choose|k: int|
                                    0 <= k < old_src.len() && #[trigger] old_src[k] == j2;
                                assert(src[k] == j2);
                            }
                        }
                    }
                }
                j += 1;
            }
            hh = h;
        }
        proof {
            // the output keys form the same set as the stored keys, and
            // both sides are duplicate-free, so the lengths agree
            let ks = entry_keys(bentries(input));
            let okeys = out@.map_values(|e: (usize, Block)| e.1.hash);
            assert forall|k1: int, k2: int|
                0 <= k1 < k2 < okeys.len() implies okeys[k1] != okeys[k2] by {
                assert(out@[k1] == input[src[k1]]);
                assert(out@[k2] == input[src[k2]]);
                assert(ks[src[k1]] == input[src[k1]].1.hash);
                assert(ks[src[k2]] == input[src[k2]].1.hash);
                lemma_no_dup_at(ks, src[k1], src[k2]);
            }
            assert(okeys.no_duplicates());
            okeys.unique_seq_to_set();
            lemma_entries_map_dom(bentries(input));
            ks.unique_seq_to_set();
            assert(okeys.to_set() =~= self@.blocks.dom()) by {
                assert forall|y: BlockId| okeys.to_set().contains(y) implies
                    self@.blocks.dom().contains(y) by {
                    let k = choose|k: int| 0 <= k < okeys.len() && okeys[k] == y;
                    assert(out@[k] == input[src[k]]);
                    assert(self@.blocks.dom().contains(input[src[k]].1.hash));
                }
                assert forall|y: BlockId| self@.blocks.dom().contains(y) implies
                    okeys.to_set().contains(y) by {
                    assert(ks.to_set().contains(y));
                    let jj = choose|jj: int| 0 <= jj < ks.len() && ks[jj] == y;
                    assert(input[jj].1.hash == y);
                    assert(input[jj].0 as int <= n);
                    let k = choose|k: int| 0 <= k < src.len() && src[k] == jj;
                    assert(okeys[k] == y);
                    assert(okeys.contains(y));
                }
            }
            assert(out@.len() == self@.blocks.dom().len());
        }
        let mut r: Vec<Block> = Vec::new();
        let m = out.len();
        let mut k: usize = 0;
        while k < m
            invariant
                m == out@.len(),
                0 <= k <= m,
                r@.len() == k,
                forall|i: int| 0 <= i < k ==> r@[i] == out@[i].1,
            decreases m - k,
        {
            r.push(out[k].1);
            k += 1;
        }
        proof {
            self.lemma_entry_facts();
            assert forall|i: int| 0 <= i < r@.len() implies self@.blocks.dom().contains(
                #[trigger] r@[i].hash,
            ) && self@.blocks[r@[i].hash].1 == r@[i].hash_prev && self@.blocks[r@[i].hash].0
                == out@[i].0 as nat by {
                assert(out@[i] == input[src[i]]);
                assert(self@.blocks.dom().contains(input[src[i]].1.hash));
            }
            assert forall|i: int, j2: int|
                0 <= i < j2 < r@.len() implies self@.blocks[#[trigger] r@[i].hash].0
                <= self@.blocks[#[trigger] r@[j2].hash].0 by {
                assert(out@[i] == input[src[i]]);
                assert(out@[j2] == input[src[j2]]);
                assert(input[src[i]].0 <= input[src[j2]].0);
                assert(self@.blocks.dom().contains(input[src[i]].1.hash));
                assert(self@.blocks.dom().contains(input[src[j2]].1.hash));
            }
            assert forall|i: int, j2: int| 0 <= i < j2 < r@.len() implies r@[i].hash
                != r@[j2].hash by {
                let okeys = out@.map_values(|e: (usize, Block)| e.1.hash);
                assert(okeys[i] == r@[i].hash);
                assert(okeys[j2] == r@[j2].hash);
                lemma_no_dup_at(okeys, i, j2);
            }
            assert forall|id: BlockId| #[trigger] self@.blocks.dom().contains(id) implies exists|
                i: int,
            | 0 <= i < r@.len() && r@[i].hash == id by {
                let ks = entry_keys(bentries(input));
                assert(ks.to_set().contains(id));
                let jj = choose|jj: int| 0 <= jj < ks.len() && ks[jj] == id;
                assert(input[jj].1.hash == id);
                assert(input[jj].0 as int <= n);
                let k2 = choose|k2: int| 0 <= k2 < src.len() && src[k2] == jj;
                assert(out@[k2] == input[jj]);
                assert(r@[k2].hash == id);
            }
        }
        r
    }

    /// Register a delivered or freshly mined block, by the longest-chain
    /// rule with first-seen tie-break; see `spec_register`. Returns whether
    /// the best tip moved.
    pub fn register_block(&mut self, block: Block) -> (r: bool)
        requires
            old(self).inv(),
        ensures
            final(self).inv(),
            final(self)@ == spec_register(old(self)@, block).0,
            r == spec_register(old(self)@, block).1,
    {
        proof {
            lemma_register_preserves_wf(old(self)@, block);
            broadcast use vstd::set::axiom_set_insert_len;
        }
        if block.hash.is_genesis() {
            return false;
        }
        if self.contains_block(block.hash) {
            return false;
        }
        proof {
            self.lemma_entry_facts();
            self.all_blocks@.map_values(|e: (usize, Block)| bentry(e));
            assert(self@.blocks.dom().len() == entry_keys(bentries(self.all_blocks@)).to_set().len());
            entry_keys(bentries(self.all_blocks@)).unique_seq_to_set();
            assert(self@.blocks.dom().len() == self.all_blocks@.len());
        }
        if self.all_blocks.len() == usize::MAX {
            return false;
        }
        let ghost v = self@;
        let tip_height = self.height(self.tip);
        if block.hash_prev == self.tip {
            self.push_block(tip_height + 1, block);
            self.tip = block.hash;
            proof {
                assert(self@ =~= spec_register(v, block).0);
            }
            true
        } else if block.hash_prev.is_genesis() || self.contains_block(block.hash_prev) {
            let h = self.height(block.hash_prev) + 1;
            self.push_block(h, block);
            self.remove_fork(block.hash_prev);
            proof {
                assert(!self.fork_tips@.to_set().contains(block.hash));
            }
            self.push_fork(block.hash);
            if h > tip_height {
                let old_tip = self.tip;
                self.tip = block.hash;
                self.remove_fork(block.hash);
                proof {
                    assert(!self.fork_tips@.to_set().contains(old_tip)) by {
                        assert(!v.forks.contains(v.tip));
                    }
                }
                self.push_fork(old_tip);
                proof {
                    assert(self@.forks =~= v.forks.remove(block.hash_prev).insert(v.tip));
                    assert(self@ =~= spec_register(v, block).0);
                }
                true
            } else {
                proof {
                    assert(self@.forks =~= v.forks.remove(block.hash_prev).insert(block.hash));
                    assert(self@ =~= spec_register(v, block).0);
                }
                false
            }
        } else {
            proof {
                assert(self@ =~= spec_register(v, block).0);
            }
            false
        }
    }
}

} // verus!
