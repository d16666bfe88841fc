use supplychain::block::{Block, SupplyChainData};
use supplychain::blockchain::Blockchain;
use supplychain::net_message::NetMessage;
use supplychain::p2p::{copy_blocks, MessageOutcome, P2PNode};

fn data(item: &str) -> SupplyChainData {
    SupplyChainData {
        item_id: item.to_string(),
        event_type: "ship".to_string(),
        location: "Port".to_string(),
        timestamp: "t".to_string(),
        owner: "Carrier".to_string(),
        document_hash: "d".to_string(),
    }
}

fn node() -> P2PNode {
    P2PNode::new(Blockchain::with_genesis(1, "a".to_string(), "b".to_string()))
}

fn next_block(node: &P2PNode, item: &str) -> Block {
    let last = node.blockchain.last_block();
    let mut b = Block::new_at(last.index + 1, data(item), last.hash.clone(), "t".to_string());
    b.mine_block(1);
    b
}

#[test]
fn new_node_topic() {
    let n = node();
    assert_eq!(n.blocks_topic, "supplychain/blocks");
    assert_eq!(n.blockchain.chain.len(), 1);
}

#[test]
fn new_block_that_links_is_added() {
    let mut n = node();
    let b = next_block(&n, "X");
    let outcome = n.handle_message(NetMessage::NewBlock(b.clone()));
    assert!(matches!(outcome, MessageOutcome::BlockAdded));
    assert_eq!(n.blockchain.chain.len(), 2);
    assert_eq!(n.blockchain.last_block().hash, b.hash);
}

#[test]
fn new_block_with_wrong_index_is_rejected() {
    let mut n = node();
    let mut b = next_block(&n, "X");
    b.index = 5;
    b.hash = b.calculate_hash();
    assert!(matches!(n.handle_message(NetMessage::NewBlock(b)), MessageOutcome::BlockRejected));
    assert_eq!(n.blockchain.chain.len(), 1);
}

#[test]
fn new_block_with_wrong_previous_hash_is_rejected() {
    let mut n = node();
    let mut b = next_block(&n, "X");
    b.previous_hash = "nope".to_string();
    b.hash = b.calculate_hash();
    assert!(matches!(n.handle_message(NetMessage::NewBlock(b)), MessageOutcome::BlockRejected));
}

#[test]
fn new_block_with_forged_hash_is_rejected() {
    let mut n = node();
    let mut b = next_block(&n, "X");
    b.hash = "00forged".to_string();
    assert!(matches!(n.handle_message(NetMessage::NewBlock(b)), MessageOutcome::BlockRejected));
}

#[test]
fn new_block_without_work_is_still_added() {
    let mut n = node();
    let last = n.blockchain.last_block();
    let mut b = Block::new_at(1, data("X"), last.hash.clone(), "t".to_string());
    while b.hash.starts_with('0') {
        b.proof_of_work += 1;
        b.hash = b.calculate_hash();
    }
    assert!(matches!(n.handle_message(NetMessage::NewBlock(b)), MessageOutcome::BlockAdded));
    assert!(!n.blockchain.is_chain_valid());
}

#[test]
fn chain_request_is_answered_with_copy() {
    let mut n = node();
    match n.handle_message(NetMessage::RequestChain) {
        MessageOutcome::Reply(NetMessage::ChainResponse(chain)) => {
            assert_eq!(chain.len(), 1);
            assert_eq!(chain[0].hash, n.blockchain.chain[0].hash);
        }
        other => panic!("unexpected outcome {:?}", other),
    }
    assert_eq!(n.blockchain.chain.len(), 1);
}

#[test]
fn chain_response_appends_linking_prefix() {
    let mut source = node();
    for item in ["A", "B"] {
        let b = next_block(&source, item);
        source.handle_message(NetMessage::NewBlock(b));
    }
    let mut received = copy_blocks(&source.blockchain.chain);
    received.remove(0);
    let mut stray = Block::new_at(9, data("Z"), "elsewhere".to_string(), "t".to_string());
    stray.mine_block(0);
    received.push(stray);
    let extra = received[1].clone();
    received.push(extra);

    let mut n = node();
    match n.handle_message(NetMessage::ChainResponse(received)) {
        MessageOutcome::Synced(count) => assert_eq!(count, 2),
        other => panic!("unexpected outcome {:?}", other),
    }
    assert_eq!(n.blockchain.chain.len(), 3);
    assert_eq!(n.blockchain.chain[2].hash, source.blockchain.chain[2].hash);
}

#[test]
fn empty_chain_response_changes_nothing() {
    let mut n = node();
    match n.handle_message(NetMessage::ChainResponse(Vec::new())) {
        MessageOutcome::Synced(count) => assert_eq!(count, 0),
        other => panic!("unexpected outcome {:?}", other),
    }
    assert_eq!(n.blockchain.chain.len(), 1);
}

#[test]
fn mined_block_is_accepted_by_peer_with_same_chain() {
    let mut miner = node();
    let mut peer = node();
    miner.blockchain.add_data(data("ITEM"));
    miner.blockchain.mine_pending_data_at("Miner1", "2024".to_string());
    let announcement = miner.latest_block_message();
    assert!(matches!(peer.handle_message(announcement), MessageOutcome::BlockAdded));
    assert_eq!(peer.blockchain.chain.len(), 2);
    assert_eq!(peer.blockchain.chain[1].hash, miner.blockchain.chain[1].hash);
    assert!(peer.blockchain.is_chain_valid());
}

#[test]
fn latest_block_message_carries_last_block() {
    let n = node();
    match n.latest_block_message() {
        NetMessage::NewBlock(b) => assert_eq!(b.hash, n.blockchain.chain[0].hash),
        other => panic!("unexpected message {:?}", other),
    }
}
