use supplychain::block::{Block, SupplyChainData};
use supplychain::blockchain::{sort_by_index, Blockchain};

fn data(item: &str, owner: &str) -> SupplyChainData {
    SupplyChainData {
        item_id: item.to_string(),
        event_type: "manufacture".to_string(),
        location: "Factory".to_string(),
        timestamp: "2024-02-01T00:00:00Z".to_string(),
        owner: owner.to_string(),
        document_hash: "doc1".to_string(),
    }
}

fn stored_block(index: u64, item: &str) -> Block {
    Block::new_at(index, data(item, "Owner"), "prev".to_string(), "t".to_string())
}

fn genesis_chain() -> Blockchain {
    Blockchain::with_genesis(
        2,
        "2024-01-01T00:00:00Z".to_string(),
        "2024-01-01T00:00:01Z".to_string(),
    )
}

const GENESIS_HASH: &str = "002280da415fa53d38f734f9398ba39c38ebdefc8ba15f7563d4fdb40ee1c638";

#[test]
fn genesis_chain_exact() {
    let bc = genesis_chain();
    assert_eq!(bc.difficulty, 2);
    assert!(bc.pending_data.is_empty());
    assert_eq!(bc.chain.len(), 1);
    let g = &bc.chain[0];
    assert_eq!(g.index, 0);
    assert_eq!(g.previous_hash, "0");
    assert_eq!(g.data.item_id, "GENESIS");
    assert_eq!(g.data.event_type, "genesis");
    assert_eq!(g.data.location, "Origin");
    assert_eq!(g.data.owner, "System");
    assert_eq!(g.data.document_hash, "genesis_hash");
    assert_eq!(g.data.timestamp, "2024-01-01T00:00:00Z");
    assert_eq!(g.timestamp, "2024-01-01T00:00:01Z");
    assert_eq!(g.proof_of_work, 441);
    assert_eq!(g.hash, GENESIS_HASH);
}

#[test]
fn new_without_stored_blocks_mines_genesis() {
    let bc = Blockchain::new(1, Vec::new());
    assert_eq!(bc.chain.len(), 1);
    assert_eq!(bc.chain[0].data.item_id, "GENESIS");
    assert!(bc.chain[0].hash.starts_with('0'));
    assert_eq!(bc.chain[0].hash, bc.chain[0].calculate_hash());
    assert!(bc.is_chain_valid());
}

#[test]
fn new_with_stored_blocks_sorts_them() {
    let stored = vec![stored_block(2, "c"), stored_block(0, "a"), stored_block(1, "b")];
    let bc = Blockchain::new(3, stored);
    let order: Vec<u64> = bc.chain.iter().map(|b| b.index).collect();
    assert_eq!(order, vec![0, 1, 2]);
    assert_eq!(bc.difficulty, 3);
    assert!(bc.pending_data.is_empty());
}

#[test]
fn sort_is_stable() {
    let blocks = vec![
        stored_block(2, "x"),
        stored_block(0, "first-zero"),
        stored_block(1, "y"),
        stored_block(0, "second-zero"),
    ];
    let sorted = sort_by_index(blocks);
    let items: Vec<&str> = sorted.iter().map(|b| b.data.item_id.as_str()).collect();
    assert_eq!(items, vec!["first-zero", "second-zero", "y", "x"]);
}

#[test]
fn sort_keeps_sorted_input() {
    let blocks = vec![stored_block(0, "a"), stored_block(1, "b"), stored_block(1, "c")];
    let sorted = sort_by_index(blocks);
    let items: Vec<&str> = sorted.iter().map(|b| b.data.item_id.as_str()).collect();
    assert_eq!(items, vec!["a", "b", "c"]);
    assert!(sort_by_index(Vec::new()).is_empty());
}

#[test]
fn add_data_queues_event() {
    let mut bc = genesis_chain();
    bc.add_data(data("ITEM1", "Supplier"));
    bc.add_data(data("ITEM2", "Supplier"));
    assert_eq!(bc.pending_data.len(), 2);
    assert_eq!(bc.pending_data[1].item_id, "ITEM2");
    assert_eq!(bc.chain.len(), 1);
}

#[test]
fn mining_takes_first_event_and_drops_the_rest() {
    let mut bc = genesis_chain();
    bc.add_data(data("ITEM1", "Supplier"));
    bc.add_data(data("ITEM2", "Supplier"));
    bc.mine_pending_data_at("Miner1", "2024-02-02T00:00:00Z".to_string());
    assert!(bc.pending_data.is_empty());
    assert_eq!(bc.chain.len(), 2);
    let b = bc.last_block();
    assert_eq!(b.index, 1);
    assert_eq!(b.previous_hash, GENESIS_HASH);
    assert_eq!(b.data.item_id, "ITEM1");
    assert_eq!(b.data.owner, "Miner1");
    assert_eq!(b.data.document_hash, "doc1");
    assert_eq!(b.proof_of_work, 474);
    assert_eq!(
        b.hash,
        "0051edcdd44884dff73d859cb4c9809b6ea009c6a65bce2d4d85bc0b9c0f59db"
    );
    assert!(bc.is_chain_valid());
}

#[test]
fn mining_with_nothing_pending_changes_nothing() {
    let mut bc = genesis_chain();
    bc.mine_pending_data("Miner1");
    assert_eq!(bc.chain.len(), 1);
    assert_eq!(bc.chain[0].hash, GENESIS_HASH);
}

#[test]
fn mining_now_extends_valid_chain() {
    let mut bc = Blockchain::with_genesis(1, "a".to_string(), "b".to_string());
    bc.add_data(data("ITEM9", "Supplier"));
    bc.mine_pending_data("CLI-Miner");
    assert_eq!(bc.chain.len(), 2);
    assert!(!bc.last_block().timestamp.is_empty());
    assert_eq!(bc.last_block().data.owner, "CLI-Miner");
    assert!(bc.is_chain_valid());
}

#[test]
fn chain_validity_detects_tampering() {
    let mut bc = genesis_chain();
    bc.add_data(data("ITEM1", "Supplier"));
    bc.mine_pending_data_at("Miner1", "2024-02-02T00:00:00Z".to_string());
    assert!(bc.is_chain_valid());
    bc.chain[1].data.location = "Elsewhere".to_string();
    assert!(!bc.is_chain_valid());
}

#[test]
fn short_chains_are_valid() {
    let bc = Blockchain::from_stored(5, vec![stored_block(7, "z")]);
    assert!(bc.is_chain_valid());
    let empty = Blockchain::from_stored(5, Vec::new());
    assert!(empty.is_chain_valid());
}

#[test]
fn item_trace_in_chain_order() {
    let mut bc = Blockchain::with_genesis(0, "a".to_string(), "b".to_string());
    for item in ["ITEM1", "ITEM2", "ITEM1"] {
        bc.add_data(data(item, "Supplier"));
        bc.mine_pending_data_at("M", "t".to_string());
    }
    let trace = bc.get_item_trace("ITEM1");
    let indexes: Vec<u64> = trace.iter().map(|b| b.index).collect();
    assert_eq!(indexes, vec![1, 3]);
    assert!(bc.get_item_trace("NOPE").is_empty());
}

#[test]
fn printed_form_of_chain() {
    let bc = genesis_chain();
    let expected = format!(
        "\n=== Block 0 ===\n{}",
        "Block #0 [GENESIS]\n  Event: genesis\n  Location: Origin\n  Owner: System\n  Hash: 002280da415fa53d\n  Prev Hash: 0\n  PoW: 441\n---"
    );
    assert_eq!(bc.to_string(), expected);
}

#[test]
fn mining_adds_block_to_its_item_trace_only() {
    let mut bc = Blockchain::with_genesis(1, "a".to_string(), "b".to_string());
    bc.add_data(data("ITEM1", "S"));
    bc.mine_pending_data_at("M", "t1".to_string());
    let before_item1: Vec<String> = bc.get_item_trace("ITEM1").iter().map(|b| b.hash.clone()).collect();
    let before_genesis = bc.get_item_trace("GENESIS").len();
    bc.add_data(data("ITEM1", "S"));
    bc.mine_pending_data_at("M", "t2".to_string());
    let after_item1: Vec<String> = bc.get_item_trace("ITEM1").iter().map(|b| b.hash.clone()).collect();
    let mut expected = before_item1.clone();
    expected.push(bc.last_block().hash.clone());
    assert_eq!(after_item1, expected);
    assert_eq!(bc.get_item_trace("GENESIS").len(), before_genesis);
}
