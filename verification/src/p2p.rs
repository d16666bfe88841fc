//! What a node decides when messages from its peers come in. The network
//! itself (transport, discovery, publishing) is the application's part.

use crate::block::{
    block_hash, lemma_mined, lemma_mining_keeps_block_sealed, meets_difficulty, new_block,
    valid_successor, Block, BlockView, SupplyChainDataView,
};
use crate::blockchain::{chain_valid, next_mined_block, views, Blockchain};
use crate::net_message::NetMessage;
use vstd::prelude::*;
use vstd::string::StringExecFns;

verus! {

/// A node: its chain and the name of the topic on which blocks travel.
pub struct P2PNode {
    pub blockchain: Blockchain,
    pub blocks_topic: String,
}

/// What came of a message.
#[derive(Debug)]
pub enum MessageOutcome {
    /// The peer's block was appended to the chain.
    BlockAdded,
    /// The peer's block does not follow the newest block and was dropped.
    BlockRejected,
    /// This message is to be published in answer.
    Reply(NetMessage),
    /// This many blocks of a peer's chain were appended.
    Synced(usize),
}

/// `b` names `previous` as its predecessor: the next index and
/// `previous`'s hash.
pub open spec fn links(previous: BlockView, b: BlockView) -> bool {
    &&& b.index == previous.index + 1
    &&& b.previous_hash == previous.hash
}

/// A block announced by a peer is taken after `last` when it links to
/// `last` and carries the hash of its content.
pub open spec fn accepts_new_block(last: BlockView, b: BlockView) -> bool {
    &&& links(last, b)
    &&& b.hash == block_hash(b)
}

/// The chain after taking in a peer's chain `received`: its blocks are
/// appended, in order, for as long as each links to the newest block.
pub open spec fn synced(chain: Seq<BlockView>, received: Seq<BlockView>) -> Seq<BlockView>
    decreases received.len(),
{
    if received.len() == 0 || !links(chain.last(), received[0]) {
        chain
    } else {
        synced(chain.push(received[0]), received.drop_first())
    }
}

/// Taking in `received` never compares a block with a newest block whose
/// index is `u64::MAX`, and has a newest block to compare with.
pub open spec fn syncable(chain: Seq<BlockView>, received: Seq<BlockView>) -> bool
    decreases received.len(),
{
    received.len() == 0 || {
        &&& chain.len() > 0
        &&& chain.last().index < u64::MAX
        &&& links(chain.last(), received[0]) ==> syncable(
            chain.push(received[0]),
            received.drop_first(),
        )
    }
}

/// The message can be handled without reading past the chain's end or an
/// index past `u64::MAX`.
pub open spec fn handleable(chain: Seq<BlockView>, msg: NetMessage) -> bool {
    match msg {
        NetMessage::NewBlock(_) => chain.len() > 0 && chain.last().index < u64::MAX,
        NetMessage::RequestChain => true,
        NetMessage::ChainResponse(received) => syncable(chain, views(received@)),
    }
}

/// How many of the received blocks taking in a peer's chain appends.
pub open spec fn synced_count(chain: Seq<BlockView>, received: Seq<BlockView>) -> nat
    decreases received.len(),
{
    if received.len() == 0 || !links(chain.last(), received[0]) {
        0
    } else {
        1 + synced_count(chain.push(received[0]), received.drop_first())
    }
}

/// Taking in a peer's chain appends a prefix of it, each appended block
/// linking to the one before, and stops only at the end of the received
/// blocks or at the first one that does not link.
pub proof fn lemma_synced_appends_linked_prefix(chain: Seq<BlockView>, received: Seq<BlockView>)
    requires
        chain.len() > 0,
    ensures
        ({
            let count = synced_count(chain, received);
            let result = synced(chain, received);
            &&& count <= received.len()
            &&& result == chain + received.take(count as int)
            &&& forall|i: int|
                chain.len() <= i < result.len() ==> #[trigger] links(result[i - 1], result[i])
            &&& count < received.len() ==> !links(result.last(), received[count as int])
        }),
    decreases received.len(),
{
    if received.len() == 0 || !links(chain.last(), received[0]) {
        assert(received.take(0) == Seq::<BlockView>::empty());
        assert(chain + Seq::<BlockView>::empty() == chain);
    } else {
        let longer = chain.push(received[0]);
        let rest = received.drop_first();
        lemma_synced_appends_linked_prefix(longer, rest);
        let count = synced_count(chain, received);
        let result = synced(chain, received);
        assert(longer + rest.take(count - 1) == chain + received.take(count as int));
        assert forall|i: int| chain.len() <= i < result.len() implies #[trigger] links(
            result[i - 1],
            result[i],
        ) by {
            if i == chain.len() {
                assert(result[i - 1] == chain.last());
                assert(result[i] == received[0]);
            }
        }
        if count < received.len() {
            assert(rest[count - 1] == received[count as int]);
        }
    }
}

/// A block that a node mines after its newest block is taken in by any
/// peer whose newest block is that same block: the peer's chain then ends
/// with the same block as the miner's.
pub proof fn lemma_mined_block_accepted_by_peers(
    last: BlockView,
    data: SupplyChainDataView,
    miner: Seq<char>,
    timestamp: Seq<char>,
    difficulty: nat,
)
    requires
        last.index < u64::MAX,
    ensures
        accepts_new_block(last, next_mined_block(last, data, miner, timestamp, difficulty)),
{
    let fresh = new_block(
        (last.index + 1) as u64,
        SupplyChainDataView { owner: miner, ..data },
        last.hash,
        timestamp,
    );
    lemma_mined(fresh, difficulty);
    lemma_mining_keeps_block_sealed(fresh, difficulty);
}

/// A peer's block that is taken in and meets the chain's difficulty keeps
/// a valid chain valid.
pub proof fn lemma_accepted_block_keeps_chain_valid(
    chain: Seq<BlockView>,
    b: BlockView,
    difficulty: nat,
)
    requires
        chain_valid(chain, difficulty),
        chain.len() > 0,
        accepts_new_block(chain.last(), b),
        meets_difficulty(b.hash, difficulty),
    ensures
        chain_valid(chain.push(b), difficulty),
{
    let longer = chain.push(b);
    assert forall|i: int| 1 <= i < longer.len() implies #[trigger] valid_successor(
        longer[i],
        longer[i - 1],
        difficulty,
    ) by {
        if i < chain.len() {
            assert(longer[i] == chain[i] && longer[i - 1] == chain[i - 1]);
            assert(valid_successor(chain[i], chain[i - 1], difficulty));
        }
    }
}

impl P2PNode {
    /// A node keeping `blockchain`, on the topic `supplychain/blocks`.
    pub fn new(blockchain: Blockchain) -> (node: P2PNode)
        ensures
            node.blockchain == blockchain,
            node.blocks_topic@ == "supplychain/blocks"@,
    {
        P2PNode { blockchain, blocks_topic: String::from_str("supplychain/blocks") }
    }

    /// Takes in a message from a peer. A new block is appended when it
    /// follows the newest block and carries the hash of its content; a
    /// request for the chain is answered with a copy of it; a peer's chain
    /// is appended block by block for as long as each block links to the
    /// newest one.
    pub fn handle_message(&mut self, msg: NetMessage) -> (outcome: MessageOutcome)
        requires
            handleable(views(old(self).blockchain.chain@), msg),
        ensures
            final(self).blockchain.difficulty == old(self).blockchain.difficulty,
            final(self).blockchain.pending_data@ == old(self).blockchain.pending_data@,
            final(self).blocks_topic == old(self).blocks_topic,
            match msg {
                NetMessage::NewBlock(b) => if accepts_new_block(
                    old(self).blockchain.chain@.last()@,
                    b@,
                ) {
                    &&& views(final(self).blockchain.chain@) == views(
                        old(self).blockchain.chain@,
                    ).push(b@)
                    &&& outcome is BlockAdded
                } else {
                    &&& final(self).blockchain.chain@ == old(self).blockchain.chain@
                    &&& outcome is BlockRejected
                },
                NetMessage::RequestChain => {
                    &&& final(self).blockchain.chain@ == old(self).blockchain.chain@
                    &&& outcome matches MessageOutcome::Reply(NetMessage::ChainResponse(copy))
                        && views(copy@) == views(old(self).blockchain.chain@)
                },
                NetMessage::ChainResponse(received) => {
                    &&& views(final(self).blockchain.chain@) == synced(
                        views(old(self).blockchain.chain@),
                        views(received@),
                    )
                    &&& outcome matches MessageOutcome::Synced(count) && count
                        == final(self).blockchain.chain@.len() - old(
                        self,
                    ).blockchain.chain@.len()
                },
            },
    {
        match msg {
            NetMessage::NewBlock(block) => {
                let previous = self.blockchain.last_block();
                if block.index == previous.index + 1 && block.previous_hash == previous.hash
                    && block.hash == block.calculate_hash() {
                    let ghost before = self.blockchain.chain@;
                    self.blockchain.chain.push(block);
                    proof {
                        assert(views(self.blockchain.chain@) =~= views(before).push(block@));
                    }
                    MessageOutcome::BlockAdded
                } else {
                    MessageOutcome::BlockRejected
                }
            },
            NetMessage::RequestChain => {
                let copy = copy_blocks(&self.blockchain.chain);
                MessageOutcome::Reply(NetMessage::ChainResponse(copy))
            },
            NetMessage::ChainResponse(received) => {
                let count = self.blockchain.sync_from(received);
                MessageOutcome::Synced(count)
            },
        }
    }

    /// The message that announces the newest block.
    pub fn latest_block_message(&self) -> (msg: NetMessage)
        requires
            self.blockchain.chain@.len() > 0,
        ensures
            msg matches NetMessage::NewBlock(b) && b@ == self.blockchain.chain@.last()@,
    {
        NetMessage::NewBlock(self.blockchain.last_block().duplicate())
    }
}

/// A copy of each block of `blocks`, in order.
pub fn copy_blocks(blocks: &Vec<Block>) -> (copy: Vec<Block>)
    ensures
        views(copy@) == views(blocks@),
{
    let mut copy: Vec<Block> = Vec::new();
    let mut i: usize = 0;
    while i < blocks.len()
        invariant
            i <= blocks@.len(),
            views(copy@) == views(blocks@).take(i as int),
        decreases blocks@.len() - i,
    {
        let ghost before = copy@;
        copy.push(blocks[i].duplicate());
        proof {
            assert(views(copy@) =~= views(before).push(blocks@[i as int]@));
            assert(views(blocks@).take(i + 1) =~= views(blocks@).take(i as int).push(
                blocks@[i as int]@,
            ));
        }
        i = i + 1;
    }
    proof {
        assert(views(blocks@).take(i as int) =~= views(blocks@));
    }
    copy
}

impl Blockchain {
    /// Appends the blocks of a peer's chain, in order, for as long as each
    /// links to the newest block; returns how many were appended.
    pub fn sync_from(&mut self, received: Vec<Block>) -> (count: usize)
        requires
            syncable(views(old(self).chain@), views(received@)),
        ensures
            views(final(self).chain@) == synced(views(old(self).chain@), views(received@)),
            count == final(self).chain@.len() - old(self).chain@.len(),
            final(self).difficulty == old(self).difficulty,
            final(self).pending_data@ == old(self).pending_data@,
    {
        let ghost goal = synced(views(self.chain@), views(received@));
        let start = self.chain.len();
        let mut rest = received;
        while rest.len() > 0
            invariant
                synced(views(self.chain@), views(rest@)) == goal,
                syncable(views(self.chain@), views(rest@)),
                self.chain@.len() >= start,
                self.difficulty == old(self).difficulty,
                self.pending_data@ == old(self).pending_data@,
            ensures
                views(self.chain@) == goal,
                self.chain@.len() >= start,
                self.difficulty == old(self).difficulty,
                self.pending_data@ == old(self).pending_data@,
            decreases rest@.len(),
        {
            let ghost chain = views(self.chain@);
            let ghost pending = views(rest@);
            proof {
                assert(chain.len() == self.chain@.len());
                assert(chain.last() == self.chain@.last()@);
                assert(pending[0] == rest@[0]@);
            }
            let previous = self.last_block();
            if rest[0].index == previous.index + 1 && rest[0].previous_hash == previous.hash {
                let block = rest.remove(0);
                self.chain.push(block);
                proof {
                    assert(views(self.chain@) =~= chain.push(pending[0]));
                    assert(views(rest@) =~= pending.drop_first());
                }
            } else {
                break;
            }
        }
        self.chain.len() - start
    }
}

} // verus!
