//! The chain a node keeps: its blocks, its difficulty, and the events
//! waiting to be mined into the next block.

use crate::block::{
    block_text, cuts_cleanly, current_timestamp, block_hash, lemma_mined, lemma_mined_successor_valid, meets_difficulty,
    mined, new_block, valid_successor, Block, BlockView, SupplyChainData, SupplyChainDataView,
};
use crate::encoding::{decimal_text, push_decimal_text};
use vstd::prelude::*;
use vstd::string::StringExecFns;

verus! {

/// The blocks of `blocks`, each taken by its view.
pub open spec fn views(blocks: Seq<Block>) -> Seq<BlockView> {
    blocks.map_values(|b: Block| b@)
}

/// The blocks of `blocks` whose index is `index`, in their order there.
pub open spec fn with_index(blocks: Seq<Block>, index: u64) -> Seq<Block> {
    blocks.filter(|b: Block| b.index == index)
}

/// The indexes of `blocks` never go down.
pub open spec fn sorted_by_index(blocks: Seq<Block>) -> bool {
    forall|i: int, j: int| 0 <= i <= j < blocks.len() ==> blocks[i].index <= blocks[j].index
}

/// `sorted` is `blocks` sorted by index, stably: ordered by index, and for
/// each index the blocks that carry it come in the same order as in
/// `blocks`.
pub open spec fn stable_sort_of(sorted: Seq<Block>, blocks: Seq<Block>) -> bool {
    &&& sorted_by_index(sorted)
    &&& forall|index: u64| #[trigger] with_index(sorted, index) == with_index(blocks, index)
}

proof fn lemma_with_index_none(blocks: Seq<Block>, index: u64)
    requires
        forall|i: int| 0 <= i < blocks.len() ==> blocks[i].index != index,
    ensures
        with_index(blocks, index) == Seq::<Block>::empty(),
    decreases blocks.len(),
{
    reveal(Seq::filter);
    if blocks.len() > 0 {
        lemma_with_index_none(blocks.drop_last(), index);
    }
}

proof fn lemma_with_index_push(blocks: Seq<Block>, b: Block, index: u64)
    ensures
        with_index(blocks.push(b), index) == if b.index == index {
            with_index(blocks, index).push(b)
        } else {
            with_index(blocks, index)
        },
{
    reveal(Seq::filter);
    assert(blocks.push(b).drop_last() == blocks);
}

/// Sorts `blocks` by index, keeping blocks of equal index in their order.
pub fn sort_by_index(blocks: Vec<Block>) -> (sorted: Vec<Block>)
    ensures
        stable_sort_of(sorted@, blocks@),
{
    let ghost original = blocks@;
    let mut rest = blocks;
    let mut sorted: Vec<Block> = Vec::new();
    let ghost mut taken: int = 0;
    proof {
        assert(original.take(0) == Seq::<Block>::empty());
    }
    while rest.len() > 0
        invariant
            0 <= taken <= original.len(),
            rest@ == original.skip(taken),
            stable_sort_of(sorted@, original.take(taken)),
        decreases rest@.len(),
    {
        let b = rest.remove(0);
        let mut p = sorted.len();
        while p > 0 && sorted[p - 1].index > b.index
            invariant
                p <= sorted@.len(),
                forall|j: int| p <= j < sorted@.len() ==> sorted@[j].index > b.index,
            decreases p,
        {
            p = p - 1;
        }
        let ghost before = sorted@;
        proof {
            assert forall|j: int| 0 <= j < p implies before[j].index <= b.index by {
                assert(before[j].index <= before[p - 1].index);
            }
        }
        sorted.insert(p, b);
        proof {
            assert(original.take(taken + 1) == original.take(taken).push(b));
            assert(sorted@ == before.take(p as int) + seq![b] + before.skip(p as int));
            assert(before == before.take(p as int) + before.skip(p as int));
            assert forall|index: u64| #[trigger] with_index(sorted@, index) == with_index(
                original.take(taken + 1),
                index,
            ) by {
                assert(with_index(before, index) == with_index(original.take(taken), index));
                let pred = |x: Block| x.index == index;
                Seq::filter_distributes_over_add(
                    before.take(p as int) + seq![b],
                    before.skip(p as int),
                    pred,
                );
                Seq::filter_distributes_over_add(before.take(p as int), seq![b], pred);
                Seq::filter_distributes_over_add(
                    before.take(p as int),
                    before.skip(p as int),
                    pred,
                );
                lemma_with_index_push(original.take(taken), b, index);
                lemma_with_index_push(Seq::empty(), b, index);
                assert(seq![b] == Seq::<Block>::empty().push(b));
                lemma_with_index_none(Seq::empty(), index);
                if b.index == index {
                    lemma_with_index_none(before.skip(p as int), index);
                }
            }
            taken = taken + 1;
        }
    }
    proof {
        assert(original.take(taken) == original);
    }
    sorted
}

/// Mining the next block onto a valid chain keeps it valid exactly when
/// mining reached the difficulty.
pub proof fn lemma_mining_keeps_chain_valid(
    chain: Seq<BlockView>,
    data: SupplyChainDataView,
    miner: Seq<char>,
    timestamp: Seq<char>,
    difficulty: nat,
)
    requires
        chain_valid(chain, difficulty),
        chain.len() > 0,
        chain.last().index < u64::MAX,
    ensures
        ({
            let next = next_mined_block(chain.last(), data, miner, timestamp, difficulty);
            chain_valid(chain.push(next), difficulty) <==> meets_difficulty(next.hash, difficulty)
        }),
{
    let next = next_mined_block(chain.last(), data, miner, timestamp, difficulty);
    let longer = chain.push(next);
    lemma_mined_successor_valid(
        chain.last(),
        SupplyChainDataView { owner: miner, ..data },
        timestamp,
        difficulty,
    );
    assert(longer[chain.len() as int] == next);
    assert(longer[chain.len() - 1] == chain.last());
    if meets_difficulty(next.hash, difficulty) {
        assert forall|i: int| 1 <= i < longer.len() implies #[trigger] valid_successor(
            longer[i],
            longer[i - 1],
            difficulty,
        ) by {
            if i < chain.len() {
                assert(longer[i] == chain[i] && longer[i - 1] == chain[i - 1]);
                assert(valid_successor(chain[i], chain[i - 1], difficulty));
            }
        }
    } else {
        assert(!valid_successor(longer[chain.len() as int], longer[chain.len() - 1], difficulty));
    }
}

/// A chain of at most one block is valid.
pub proof fn lemma_short_chain_valid(chain: Seq<BlockView>, difficulty: nat)
    requires
        chain.len() <= 1,
    ensures
        chain_valid(chain, difficulty),
{
}

/// A chain with one more block is valid exactly when the chain was valid
/// and the new block may follow its newest block.
pub proof fn lemma_chain_valid_push(chain: Seq<BlockView>, b: BlockView, difficulty: nat)
    requires
        chain.len() > 0,
    ensures
        chain_valid(chain.push(b), difficulty) <==> (chain_valid(chain, difficulty)
            && valid_successor(b, chain.last(), difficulty)),
{
    let longer = chain.push(b);
    assert(longer[chain.len() as int] == b);
    assert(longer[chain.len() - 1] == chain.last());
    if chain_valid(longer, difficulty) {
        assert forall|i: int| 1 <= i < chain.len() implies #[trigger] valid_successor(
            chain[i],
            chain[i - 1],
            difficulty,
        ) by {
            assert(longer[i] == chain[i] && longer[i - 1] == chain[i - 1]);
            assert(valid_successor(longer[i], longer[i - 1], difficulty));
        }
        assert(valid_successor(longer[chain.len() as int], longer[chain.len() - 1], difficulty));
    }
    if chain_valid(chain, difficulty) && valid_successor(b, chain.last(), difficulty) {
        assert forall|i: int| 1 <= i < longer.len() implies #[trigger] valid_successor(
            longer[i],
            longer[i - 1],
            difficulty,
        ) by {
            if i < chain.len() {
                assert(longer[i] == chain[i] && longer[i - 1] == chain[i - 1]);
                assert(valid_successor(chain[i], chain[i - 1], difficulty));
            }
        }
    }
}

/// A chain is valid exactly when, at every position `i` from 1 on, the
/// block has the next index after block `i - 1`, names its hash, carries
/// the hash of its own content, and that hash starts with `difficulty`
/// zeros: one bad pair anywhere makes the chain invalid.
pub proof fn lemma_chain_valid_every_pair(chain: Seq<BlockView>, difficulty: nat)
    ensures
        chain_valid(chain, difficulty) <==> forall|i: int|
            1 <= i < chain.len() ==> {
                &&& #[trigger] chain[i].index == chain[i - 1].index + 1
                &&& chain[i].previous_hash == chain[i - 1].hash
                &&& chain[i].hash == block_hash(chain[i])
                &&& difficulty <= chain[i].hash.len()
                &&& forall|j: int| 0 <= j < difficulty ==> chain[i].hash[j] == '0'
            },
{
    if chain_valid(chain, difficulty) {
        assert forall|i: int| 1 <= i < chain.len() implies {
            &&& #[trigger] chain[i].index == chain[i - 1].index + 1
            &&& chain[i].previous_hash == chain[i - 1].hash
            &&& chain[i].hash == block_hash(chain[i])
            &&& difficulty <= chain[i].hash.len()
            &&& forall|j: int| 0 <= j < difficulty ==> chain[i].hash[j] == '0'
        } by {
            assert(valid_successor(chain[i], chain[i - 1], difficulty));
        }
    }
}

/// The printed form of no blocks is empty.
pub proof fn lemma_chain_text_empty()
    ensures
        chain_text(Seq::empty()) == Seq::<char>::empty(),
{
}

/// The printed form of a chain with one more block is that of the chain,
/// then the heading with the new block's position, then the new block:
/// blocks are printed oldest first, each under its own position.
pub proof fn lemma_chain_text_push(chain: Seq<BlockView>, b: BlockView)
    ensures
        chain_text(chain.push(b)) == chain_text(chain) + "\n=== Block "@ + decimal_text(
            chain.len(),
        ) + " ===\n"@ + block_text(b),
{
    assert(chain.push(b).drop_last() == chain);
    assert(chain.push(b).last() == b);
}

/// No blocks have an empty trace.
pub proof fn lemma_item_trace_empty(item_id: Seq<char>)
    ensures
        item_trace(Seq::empty(), item_id) == Seq::<BlockView>::empty(),
{
    reveal(Seq::filter);
}

/// A block appended to a chain joins the end of the trace of its own item
/// and of no other: traces keep chain order and hold every block of their
/// item.
pub proof fn lemma_item_trace_push(chain: Seq<BlockView>, b: BlockView, item_id: Seq<char>)
    ensures
        item_trace(chain.push(b), item_id) == if b.data.item_id == item_id {
            item_trace(chain, item_id).push(b)
        } else {
            item_trace(chain, item_id)
        },
{
    reveal(Seq::filter);
    assert(chain.push(b).drop_last() == chain);
    assert(chain.push(b).last() == b);
}

/// Mining the next block adds it to the trace of the item its event
/// concerns and leaves the trace of every other item as it was.
pub proof fn lemma_mining_extends_item_trace(
    chain: Seq<BlockView>,
    data: SupplyChainDataView,
    miner: Seq<char>,
    timestamp: Seq<char>,
    difficulty: nat,
    item_id: Seq<char>,
)
    ensures
        ({
            let next = next_mined_block(chain.last(), data, miner, timestamp, difficulty);
            item_trace(chain.push(next), item_id) == if data.item_id == item_id {
                item_trace(chain, item_id).push(next)
            } else {
                item_trace(chain, item_id)
            }
        }),
{
    let next = next_mined_block(chain.last(), data, miner, timestamp, difficulty);
    lemma_mined(
        new_block(
            (chain.last().index + 1) as u64,
            SupplyChainDataView { owner: miner, ..data },
            chain.last().hash,
            timestamp,
        ),
        difficulty,
    );
    assert(next.data.item_id == data.item_id);
    reveal(Seq::filter);
    assert(chain.push(next).drop_last() == chain);
    assert(chain.push(next).last() == next);
}

proof fn lemma_with_index_last(blocks: Seq<Block>, index: u64)
    requires
        blocks.len() > 0,
    ensures
        with_index(blocks, index) == if blocks.last().index == index {
            with_index(blocks.drop_last(), index).push(blocks.last())
        } else {
            with_index(blocks.drop_last(), index)
        },
{
    reveal(Seq::filter);
}

proof fn lemma_with_index_member(blocks: Seq<Block>, index: u64)
    requires
        with_index(blocks, index).len() > 0,
    ensures
        exists|i: int| 0 <= i < blocks.len() && blocks[i].index == index,
    decreases blocks.len(),
{
    reveal(Seq::filter);
    if blocks.len() > 0 && blocks.last().index != index {
        lemma_with_index_member(blocks.drop_last(), index);
        let i = choose|i: int| 0 <= i < blocks.drop_last().len() && blocks.drop_last()[i].index == index;
        assert(blocks[i] == blocks.drop_last()[i]);
    }
}

/// Sorting by index, stably, has one outcome: two stable sorts of the same
/// blocks are equal.
pub proof fn lemma_stable_sort_unique(first: Seq<Block>, second: Seq<Block>, blocks: Seq<Block>)
    requires
        stable_sort_of(first, blocks),
        stable_sort_of(second, blocks),
    ensures
        first == second,
    decreases first.len() + second.len(),
{
    assert forall|index: u64| #[trigger] with_index(first, index) == with_index(second, index) by {
        assert(with_index(first, index) == with_index(blocks, index));
        assert(with_index(second, index) == with_index(blocks, index));
    }
    if first.len() == 0 && second.len() == 0 {
        return;
    }
    if first.len() == 0 {
        lemma_with_index_last(second, second.last().index);
        lemma_with_index_none(first, second.last().index);
        assert(with_index(first, second.last().index) == with_index(second, second.last().index));
        assert(false);
    }
    if second.len() == 0 {
        lemma_with_index_last(first, first.last().index);
        lemma_with_index_none(second, first.last().index);
        assert(with_index(first, first.last().index) == with_index(second, first.last().index));
        assert(false);
    }
    let top_first = first.last().index;
    let top_second = second.last().index;
    lemma_with_index_last(first, top_first);
    lemma_with_index_last(second, top_second);
    assert(with_index(first, top_second) == with_index(second, top_second));
    assert(with_index(first, top_first) == with_index(second, top_first));
    lemma_with_index_member(first, top_second);
    lemma_with_index_member(second, top_first);
    let i = choose|i: int| 0 <= i < first.len() && first[i].index == top_second;
    let j = choose|j: int| 0 <= j < second.len() && second[j].index == top_first;
    assert(first[i].index <= first[first.len() - 1].index);
    assert(second[j].index <= second[second.len() - 1].index);
    assert(top_first == top_second);
    let rest_first = first.drop_last();
    let rest_second = second.drop_last();
    assert forall|index: u64| #[trigger] with_index(rest_first, index) == with_index(
        rest_second,
        index,
    ) by {
        lemma_with_index_last(first, index);
        lemma_with_index_last(second, index);
        assert(with_index(first, index) == with_index(second, index));
        if index == top_first {
            assert(with_index(rest_first, index) == with_index(first, index).drop_last());
            assert(with_index(rest_second, index) == with_index(second, index).drop_last());
        }
    }
    assert(first.last() == with_index(first, top_first).last());
    assert(second.last() == with_index(second, top_first).last());
    assert(stable_sort_of(rest_second, rest_first));
    assert(stable_sort_of(rest_first, rest_first));
    lemma_stable_sort_unique(rest_first, rest_second, rest_first);
    assert(first == rest_first.push(first.last()));
    assert(second == rest_second.push(second.last()));
}

/// Blocks already in index order come out of a stable sort unchanged.
pub proof fn lemma_sorted_blocks_keep_order(sorted: Seq<Block>, blocks: Seq<Block>)
    requires
        sorted_by_index(blocks),
        stable_sort_of(sorted, blocks),
    ensures
        sorted == blocks,
{
    lemma_stable_sort_unique(sorted, blocks, blocks);
}

/// A node's chain: its blocks, oldest first, the difficulty that mining
/// and validation use, and the events waiting to be mined.
pub struct Blockchain {
    pub chain: Vec<Block>,
    pub difficulty: usize,
    pub pending_data: Vec<SupplyChainData>,
}

/// The event of the first block: item `GENESIS`, event `genesis`, at
/// `Origin`, owned by `System`, document hash `genesis_hash`.
pub open spec fn genesis_data(timestamp: Seq<char>) -> SupplyChainDataView {
    SupplyChainDataView {
        item_id: "GENESIS"@,
        event_type: "genesis"@,
        location: "Origin"@,
        timestamp,
        owner: "System"@,
        document_hash: "genesis_hash"@,
    }
}

/// The first block of a new chain: block 0 of the genesis event, after
/// the hash `0`, mined to the difficulty.
pub open spec fn genesis_block(
    difficulty: nat,
    data_timestamp: Seq<char>,
    block_timestamp: Seq<char>,
) -> BlockView {
    mined(new_block(0, genesis_data(data_timestamp), "0"@, block_timestamp), difficulty)
}

/// The block that mining the pending event `data` after `last` makes: the
/// next index, `last`'s hash as its previous hash, the event with `miner`
/// as owner, mined to the difficulty.
pub open spec fn next_mined_block(
    last: BlockView,
    data: SupplyChainDataView,
    miner: Seq<char>,
    timestamp: Seq<char>,
    difficulty: nat,
) -> BlockView {
    mined(
        new_block(
            (last.index + 1) as u64,
            SupplyChainDataView { owner: miner, ..data },
            last.hash,
            timestamp,
        ),
        difficulty,
    )
}

/// The first `count` blocks of `chain` each may follow the one before.
pub open spec fn valid_prefix(chain: Seq<BlockView>, difficulty: nat, count: int) -> bool {
    forall|i: int| 1 <= i < count ==> #[trigger] valid_successor(chain[i], chain[i - 1], difficulty)
}

/// Every block of `chain` but the first may follow the one before it.
pub open spec fn chain_valid(chain: Seq<BlockView>, difficulty: nat) -> bool {
    valid_prefix(chain, difficulty, chain.len() as int)
}

/// Checking `chain` pair by pair, from the start to the first pair that
/// fails, never meets a block with index `u64::MAX` before its successor.
pub open spec fn checkable(chain: Seq<BlockView>, difficulty: nat) -> bool {
    forall|i: int|
        1 <= i < chain.len() && #[trigger] valid_prefix(chain, difficulty, i) ==> chain[i
            - 1].index < u64::MAX
}

/// The blocks of `chain` whose event concerns `item_id`, in chain order.
pub open spec fn item_trace(chain: Seq<BlockView>, item_id: Seq<char>) -> Seq<BlockView> {
    chain.filter(|b: BlockView| b.data.item_id == item_id)
}

/// The printed form of a chain: each block under a `=== Block i ===`
/// heading.
pub open spec fn chain_text(chain: Seq<BlockView>) -> Seq<char>
    decreases chain.len(),
{
    if chain.len() == 0 {
        Seq::empty()
    } else {
        chain_text(chain.drop_last()) + "\n=== Block "@ + decimal_text((chain.len() - 1) as nat)
            + " ===\n"@ + block_text(chain.last())
    }
}

impl Blockchain {
    /// A chain of the given difficulty from the blocks found in storage,
    /// sorted by index; where storage holds none, a chain of one freshly
    /// mined genesis block, its event and block stamped with the current
    /// time. No events are pending.
    pub fn new(difficulty: usize, stored: Vec<Block>) -> (blockchain: Blockchain)
        requires
            stored@.len() == 0 ==> difficulty <= 64,
        ensures
            blockchain.difficulty == difficulty,
            blockchain.pending_data@.len() == 0,
            stored@.len() > 0 ==> stable_sort_of(blockchain.chain@, stored@),
            stored@.len() == 0 ==> blockchain.chain@.len() == 1 && blockchain.chain@[0]@
                == genesis_block(
                difficulty as nat,
                blockchain.chain@[0]@.data.timestamp,
                blockchain.chain@[0]@.timestamp,
            ) && blockchain.chain@[0]@.timestamp.len() > 0
                && blockchain.chain@[0]@.data.timestamp.len() > 0,
    {
        if stored.len() > 0 {
            Blockchain::from_stored(difficulty, stored)
        } else {
            let data_timestamp = current_timestamp();
            let block_timestamp = current_timestamp();
            let blockchain = Blockchain::with_genesis(difficulty, data_timestamp, block_timestamp);
            proof {
                assert(views(blockchain.chain@).len() == blockchain.chain@.len());
                assert(views(blockchain.chain@)[0] == blockchain.chain@[0]@);
                lemma_mined(
                    new_block(0, genesis_data(data_timestamp@), "0"@, block_timestamp@),
                    difficulty as nat,
                );
            }
            blockchain
        }
    }

    /// A chain of the given difficulty from stored blocks, sorted by index.
    pub fn from_stored(difficulty: usize, stored: Vec<Block>) -> (blockchain: Blockchain)
        ensures
            blockchain.difficulty == difficulty,
            blockchain.pending_data@.len() == 0,
            stable_sort_of(blockchain.chain@, stored@),
    {
        Blockchain { chain: sort_by_index(stored), difficulty, pending_data: Vec::new() }
    }

    /// A chain of the given difficulty holding only the genesis block, its
    /// event stamped `data_timestamp` and the block `block_timestamp`.
    pub fn with_genesis(difficulty: usize, data_timestamp: String, block_timestamp: String) -> (blockchain: Blockchain)
        requires
            difficulty <= 64,
        ensures
            blockchain.difficulty == difficulty,
            blockchain.pending_data@.len() == 0,
            views(blockchain.chain@) == seq![
                genesis_block(difficulty as nat, data_timestamp@, block_timestamp@),
            ],
    {
        let genesis_data = SupplyChainData {
            item_id: String::from_str("GENESIS"),
            event_type: String::from_str("genesis"),
            location: String::from_str("Origin"),
            timestamp: data_timestamp,
            owner: String::from_str("System"),
            document_hash: String::from_str("genesis_hash"),
        };
        let mut genesis_block = Block::new_at(0, genesis_data, String::from_str("0"), block_timestamp);
        genesis_block.mine_block(difficulty);
        let mut chain: Vec<Block> = Vec::new();
        chain.push(genesis_block);
        proof {
            assert(views(chain@) =~= seq![chain@[0]@]);
        }
        Blockchain { chain, difficulty, pending_data: Vec::new() }
    }

    /// Queues an event to be mined.
    pub fn add_data(&mut self, data: SupplyChainData)
        ensures
            final(self).pending_data@ == old(self).pending_data@.push(data),
            final(self).chain@ == old(self).chain@,
            final(self).difficulty == old(self).difficulty,
    {
        self.pending_data.push(data);
    }

    /// The newest block.
    pub fn last_block(&self) -> (last: &Block)
        requires
            self.chain@.len() > 0,
        ensures
            *last == self.chain@.last(),
    {
        let n = self.chain.len();
        &self.chain[n - 1]
    }
    /// Mines the first pending event into a new block after the newest
    /// one, stamped with the current time and owned by `miner_address`,
    /// appends it to the chain and drops every pending event. With nothing
    /// pending it does nothing.
    pub fn mine_pending_data(&mut self, miner_address: &str)
        requires
            old(self).pending_data@.len() > 0 ==> old(self).chain@.len() > 0
                && old(self).chain@.last().index < u64::MAX && old(self).difficulty <= 64,
        ensures
            final(self).difficulty == old(self).difficulty,
            old(self).pending_data@.len() == 0 ==> final(self).chain@ == old(self).chain@
                && final(self).pending_data@ == old(self).pending_data@,
            old(self).pending_data@.len() > 0 ==> {
                &&& final(self).pending_data@.len() == 0
                &&& views(final(self).chain@) == views(old(self).chain@).push(
                    next_mined_block(
                        old(self).chain@.last()@,
                        old(self).pending_data@[0]@,
                        miner_address@,
                        final(self).chain@.last()@.timestamp,
                        old(self).difficulty as nat,
                    ),
                )
                &&& final(self).chain@.last()@.timestamp.len() > 0
            },
    {
        if self.pending_data.len() == 0 {
            return;
        }
        let ghost before = *self;
        let timestamp = current_timestamp();
        let ghost stamp = timestamp@;
        self.mine_pending_data_at(miner_address, timestamp);
        proof {
            let last = before.chain@.last()@;
            lemma_mined(
                new_block(
                    (last.index + 1) as u64,
                    SupplyChainDataView { owner: miner_address@, ..before.pending_data@[0]@ },
                    last.hash,
                    stamp,
                ),
                before.difficulty as nat,
            );
            let after = views(self.chain@);
            assert(after.len() == self.chain@.len());
            assert(after[after.len() - 1] == self.chain@.last()@);
        }
    }

    /// Mines the first pending event as [`Blockchain::mine_pending_data`]
    /// does, the new block stamped with `timestamp`.
    pub fn mine_pending_data_at(&mut self, miner_address: &str, timestamp: String)
        requires
            old(self).pending_data@.len() > 0 ==> old(self).chain@.len() > 0
                && old(self).chain@.last().index < u64::MAX && old(self).difficulty <= 64,
        ensures
            final(self).difficulty == old(self).difficulty,
            old(self).pending_data@.len() == 0 ==> final(self).chain@ == old(self).chain@
                && final(self).pending_data@ == old(self).pending_data@,
            old(self).pending_data@.len() > 0 ==> {
                &&& final(self).pending_data@.len() == 0
                &&& views(final(self).chain@) == views(old(self).chain@).push(
                    next_mined_block(
                        old(self).chain@.last()@,
                        old(self).pending_data@[0]@,
                        miner_address@,
                        timestamp@,
                        old(self).difficulty as nat,
                    ),
                )
            },
    {
        if self.pending_data.len() == 0 {
            return;
        }
        let data = self.pending_data[0].duplicate();
        let previous_block = self.last_block();
        let index = previous_block.index + 1;
        let previous_hash = previous_block.hash.clone();
        let mut block = Block::new_at(
            index,
            SupplyChainData {
                item_id: data.item_id,
                event_type: data.event_type,
                location: data.location,
                timestamp: data.timestamp,
                owner: miner_address.to_owned(),
                document_hash: data.document_hash,
            },
            previous_hash,
            timestamp,
        );
        block.mine_block(self.difficulty);
        let ghost old_chain = self.chain@;
        self.chain.push(block);
        self.pending_data.clear();
        proof {
            assert(views(self.chain@) =~= views(old_chain).push(block@));
        }
    }

    /// Whether every block after the first may follow the one before it.
    pub fn is_chain_valid(&self) -> (valid: bool)
        requires
            checkable(views(self.chain@), self.difficulty as nat),
        ensures
            valid == chain_valid(views(self.chain@), self.difficulty as nat),
    {
        let ghost chain = views(self.chain@);
        let ghost difficulty = self.difficulty as nat;
        if self.chain.len() <= 1 {
            return true;
        }
        let mut i: usize = 1;
        while i < self.chain.len()
            invariant
                1 <= i <= self.chain@.len(),
                chain == views(self.chain@),
                difficulty == self.difficulty as nat,
                checkable(chain, difficulty),
                valid_prefix(chain, difficulty, i as int),
            decreases self.chain@.len() - i,
        {
            let previous = &self.chain[i - 1];
            let current = &self.chain[i];
            proof {
                assert(chain[i - 1] == previous@);
                assert(chain[i as int] == current@);
                assert(valid_prefix(chain, difficulty, i as int));
            }
            if !current.is_valid_block(previous, self.difficulty) {
                proof {
                    assert(!valid_successor(chain[i as int], chain[i - 1], difficulty));
                }
                return false;
            }
            i = i + 1;
        }
        true
    }

    /// The blocks whose event concerns `item_id`, in chain order.
    pub fn get_item_trace(&self, item_id: &str) -> (trace: Vec<&Block>)
        ensures
            trace@.map_values(|b: &Block| b@) == item_trace(views(self.chain@), item_id@),
    {
        let wanted = item_id.to_owned();
        let ghost chain = views(self.chain@);
        let mut trace: Vec<&Block> = Vec::new();
        let mut i: usize = 0;
        proof {
            reveal(Seq::filter);
            assert(chain.take(0) == Seq::<BlockView>::empty());
        }
        while i < self.chain.len()
            invariant
                i <= self.chain@.len(),
                chain == views(self.chain@),
                wanted@ == item_id@,
                trace@.map_values(|b: &Block| b@) == item_trace(chain.take(i as int), item_id@),
            decreases self.chain@.len() - i,
        {
            let ghost shown = trace@;
            let block = &self.chain[i];
            proof {
                reveal(Seq::filter);
                assert(chain.take(i + 1).drop_last() == chain.take(i as int));
                assert(chain.take(i + 1).last() == block@);
            }
            if block.data.item_id == wanted {
                trace.push(block);
                proof {
                    assert(trace@.map_values(|b: &Block| b@) =~= shown.map_values(|b: &Block| b@).push(
                        block@,
                    ));
                }
            }
            i = i + 1;
        }
        proof {
            assert(chain.take(i as int) == chain);
        }
        trace
    }

    /// The printed form of the chain.
    pub fn to_string(&self) -> (text: String)
        requires
            forall|i: int|
                0 <= i < self.chain@.len() ==> cuts_cleanly(#[trigger] self.chain@[i].hash@)
                    && cuts_cleanly(self.chain@[i].previous_hash@),
        ensures
            text@ == chain_text(views(self.chain@)),
    {
        let ghost chain = views(self.chain@);
        let mut out = String::new();
        let mut i: usize = 0;
        proof {
            assert(chain.take(0) == Seq::<BlockView>::empty());
            assert(out@ == chain_text(chain.take(0)));
            assert(forall|j: int|
                0 <= j < self.chain@.len() ==> cuts_cleanly(#[trigger] self.chain@[j].hash@)
                    && cuts_cleanly(self.chain@[j].previous_hash@));
        }
        while i < self.chain.len()
            invariant
                i <= self.chain@.len(),
                chain == views(self.chain@),
                forall|j: int|
                    0 <= j < self.chain@.len() ==> cuts_cleanly(#[trigger] self.chain@[j].hash@)
                        && cuts_cleanly(self.chain@[j].previous_hash@),
                out@ == chain_text(chain.take(i as int)),
            decreases self.chain@.len() - i,
        {
            let block = &self.chain[i];
            assert(cuts_cleanly(self.chain@[i as int].hash@));
            out.append("\n=== Block ");
            push_decimal_text(&mut out, i as u64);
            out.append(" ===\n");
            let shown = block.to_string();
            out.append(shown.as_str());
            proof {
                assert(chain.take(i + 1).drop_last() == chain.take(i as int));
                assert(chain.take(i + 1).last() == block@);
                assert(chain.take(i + 1).len() == i + 1);
            }
            i = i + 1;
        }
        proof {
            assert(chain.take(i as int) == chain);
        }
        out
    }
}


} // verus!
