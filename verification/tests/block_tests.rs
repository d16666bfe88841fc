use supplychain::block::{hash_meets_difficulty, Block, SupplyChainData};

fn sample_data() -> SupplyChainData {
    SupplyChainData {
        item_id: "ECID123".to_string(),
        event_type: "manufacture".to_string(),
        location: "Factory, Pune, India".to_string(),
        timestamp: "2024-01-01T00:00:00+00:00".to_string(),
        owner: "Omron".to_string(),
        document_hash: "sha256_cert_abc123".to_string(),
    }
}

fn sample_block() -> Block {
    Block::new_at(1, sample_data(), "0".to_string(), "2024-01-02T03:04:05+00:00".to_string())
}

const SAMPLE_HASH: &str = "cc0cf2222da41159c4a691feef78c65943c1a19329802aac90b604284a5b41ee";

#[test]
fn hashing_input_is_compact_json_without_hash() {
    let block = sample_block();
    let expected = "{\"index\":1,\"timestamp\":\"2024-01-02T03:04:05+00:00\",\"proof_of_work\":0,\"previous_hash\":\"0\",\"data\":{\"item_id\":\"ECID123\",\"event_type\":\"manufacture\",\"location\":\"Factory, Pune, India\",\"timestamp\":\"2024-01-01T00:00:00+00:00\",\"owner\":\"Omron\",\"document_hash\":\"sha256_cert_abc123\"}}";
    assert_eq!(block.hashing_input(), expected.as_bytes().to_vec());
}

#[test]
fn calculate_hash_exact_value() {
    let block = sample_block();
    assert_eq!(block.calculate_hash(), SAMPLE_HASH);
}

#[test]
fn calculate_hash_with_escapes_and_large_numbers() {
    let block = Block {
        index: u64::MAX,
        timestamp: "t".to_string(),
        proof_of_work: 1234567890,
        previous_hash: "p".to_string(),
        data: SupplyChainData {
            item_id: "a\"b\\c\nd\te\u{1}f\u{7f}éé\u{8}\u{c}\r".to_string(),
            event_type: "ev".to_string(),
            location: "loc".to_string(),
            timestamp: "ts".to_string(),
            owner: "own".to_string(),
            document_hash: "doc".to_string(),
        },
        hash: String::new(),
    };
    assert_eq!(
        block.calculate_hash(),
        "17400828975f6f6f2001246fed35fcecea3a36efa10dcdccd67ad0ce4f2b8b24"
    );
}

#[test]
fn hashing_input_escapes_strings_as_json() {
    let mut block = sample_block();
    block.data.item_id = "a\"b\\c\nd\te\u{1}f\u{7f}é\u{8}\u{c}\r".to_string();
    block.data.owner = String::new();
    block.proof_of_work = 10;
    let expected = "{\"index\":1,\"timestamp\":\"2024-01-02T03:04:05+00:00\",\"proof_of_work\":10,\"previous_hash\":\"0\",\"data\":{\"item_id\":\"a\\\"b\\\\c\\nd\\te\\u0001f\u{7f}é\\b\\f\\r\",\"event_type\":\"manufacture\",\"location\":\"Factory, Pune, India\",\"timestamp\":\"2024-01-01T00:00:00+00:00\",\"owner\":\"\",\"document_hash\":\"sha256_cert_abc123\"}}";
    assert_eq!(block.hashing_input(), expected.as_bytes().to_vec());
}

#[test]
fn hash_is_64_lowercase_hex_digits() {
    let hash = sample_block().calculate_hash();
    assert_eq!(hash.len(), 64);
    assert!(hash.chars().all(|c| c.is_ascii_digit() || ('a'..='f').contains(&c)));
}

#[test]
fn hash_ignores_stored_hash_field() {
    let mut block = sample_block();
    block.hash = "anything".to_string();
    assert_eq!(block.calculate_hash(), SAMPLE_HASH);
}

#[test]
fn new_at_seals_block_with_nonce_zero() {
    let block = sample_block();
    assert_eq!(block.index, 1);
    assert_eq!(block.proof_of_work, 0);
    assert_eq!(block.previous_hash, "0");
    assert_eq!(block.timestamp, "2024-01-02T03:04:05+00:00");
    assert_eq!(block.data.item_id, "ECID123");
    assert_eq!(block.hash, SAMPLE_HASH);
}

#[test]
fn new_stamps_current_time() {
    let block = Block::new(5, sample_data(), "prev".to_string());
    assert!(!block.timestamp.is_empty());
    assert_eq!(block.index, 5);
    assert_eq!(block.proof_of_work, 0);
    assert_eq!(block.hash, block.calculate_hash());
}

#[test]
fn mine_block_finds_first_nonce() {
    let mut block = sample_block();
    block.mine_block(2);
    assert_eq!(block.proof_of_work, 193);
    assert_eq!(
        block.hash,
        "0096c7cdfcd99e0dfe8e90c6482c110c2e90fe2829093bb23d67df403c7833aa"
    );
    assert_eq!(block.hash, block.calculate_hash());
    let mut probe = sample_block();
    for nonce in 1..193 {
        probe.proof_of_work = nonce;
        assert!(!probe.calculate_hash().starts_with("00"));
    }
}

#[test]
fn mine_block_with_zero_difficulty_keeps_block() {
    let mut block = sample_block();
    block.mine_block(0);
    assert_eq!(block.proof_of_work, 0);
    assert_eq!(block.hash, SAMPLE_HASH);
}

#[test]
fn mine_block_stops_at_once_when_stored_hash_meets() {
    let mut block = sample_block();
    block.hash = "00stale".to_string();
    block.mine_block(2);
    assert_eq!(block.proof_of_work, 0);
    assert_eq!(block.hash, "00stale");
}

#[test]
fn mine_block_stops_at_last_nonce() {
    let mut block = sample_block();
    block.proof_of_work = u64::MAX - 1;
    block.hash = "ff".to_string();
    block.mine_block(64);
    assert_eq!(block.proof_of_work, u64::MAX);
    assert_eq!(block.hash, block.calculate_hash());
}

#[test]
fn meets_difficulty_cases() {
    assert!(hash_meets_difficulty(&"00ab".to_string(), 2));
    assert!(!hash_meets_difficulty(&"0a0".to_string(), 2));
    assert!(!hash_meets_difficulty(&"0".to_string(), 2));
    assert!(hash_meets_difficulty(&String::new(), 0));
    assert!(hash_meets_difficulty(&"00".to_string(), 2));
}

fn mined_pair() -> (Block, Block) {
    let mut first = Block::new_at(0, sample_data(), "0".to_string(), "t0".to_string());
    first.mine_block(1);
    let mut second = Block::new_at(1, sample_data(), first.hash.clone(), "t1".to_string());
    second.mine_block(1);
    (first, second)
}

#[test]
fn valid_block_accepted() {
    let (first, second) = mined_pair();
    assert!(second.is_valid_block(&first, 1));
}

#[test]
fn invalid_index_rejected() {
    let (first, mut second) = mined_pair();
    second.index = 2;
    second.hash = second.calculate_hash();
    assert!(!second.is_valid_block(&first, 0));
}

#[test]
fn invalid_previous_hash_rejected() {
    let (first, mut second) = mined_pair();
    second.previous_hash = "other".to_string();
    second.hash = second.calculate_hash();
    assert!(!second.is_valid_block(&first, 0));
}

#[test]
fn tampered_content_rejected() {
    let (first, mut second) = mined_pair();
    second.data.owner = "Mallory".to_string();
    assert!(!second.is_valid_block(&first, 1));
}

#[test]
fn insufficient_work_rejected() {
    let (first, second) = mined_pair();
    assert!(second.is_valid_block(&first, 1));
    let mut weak = Block::new_at(1, sample_data(), first.hash.clone(), "t1".to_string());
    while weak.hash.starts_with('0') {
        weak.proof_of_work += 1;
        weak.hash = weak.calculate_hash();
    }
    assert!(!weak.is_valid_block(&first, 1));
    assert!(weak.is_valid_block(&first, 0));
}

#[test]
fn printed_form_of_block() {
    let block = sample_block();
    let expected = "Block #1 [ECID123]\n  Event: manufacture\n  Location: Factory, Pune, India\n  Owner: Omron\n  Hash: cc0cf2222da41159\n  Prev Hash: 0\n  PoW: 0\n---";
    assert_eq!(block.to_string(), expected);
}

#[test]
fn printed_form_cuts_long_previous_hash() {
    let mut block = sample_block();
    block.previous_hash = "0123456789abcdefXYZ".to_string();
    block.proof_of_work = 42;
    assert!(block
        .to_string()
        .ends_with("  Prev Hash: 0123456789abcdef\n  PoW: 42\n---"));
}

#[test]
fn duplicate_copies_fields() {
    let block = sample_block();
    let copy = block.duplicate();
    assert_eq!(copy.hash, block.hash);
    assert_eq!(copy.data.document_hash, block.data.document_hash);
    assert_eq!(copy.index, block.index);
    let data = sample_data().duplicate();
    assert_eq!(data.location, "Factory, Pune, India");
}
