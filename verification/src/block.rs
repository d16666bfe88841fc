//! Blocks: one supply-chain event each, linked to the previous block by its
//! hash and sealed by a proof-of-work nonce.

use crate::encoding::{
    append_bytes, decimal, decimal_text, escape_pending, json_text, lemma_json_string_well_formed, lemma_json_text_concat, lemma_plain_json_text, unescaped_quotes, hex_encode, is_lower_hex_digit, lemma_hex_lower_digits, hex_lower, json_string, json_string_bytes, push_decimal, push_decimal_text,
    sha256, sha256_digest,
};
use vstd::prelude::*;
use vstd::string::{StrSliceExecFns, StringExecFns};
use vstd::utf8::{decode_utf8, is_ascii_chars_encode_utf8, encode_utf8, encode_utf8_decode_utf8, is_char_boundary};

verus! {

/// One supply-chain event: what happened to which item, where, when and
/// in whose hands.
#[derive(Debug, Clone)]
pub struct SupplyChainData {
    pub item_id: String,
    pub event_type: String,
    pub location: String,
    pub timestamp: String,
    pub owner: String,
    pub document_hash: String,
}

/// The text of each field of a [`SupplyChainData`].
pub struct SupplyChainDataView {
    pub item_id: Seq<char>,
    pub event_type: Seq<char>,
    pub location: Seq<char>,
    pub timestamp: Seq<char>,
    pub owner: Seq<char>,
    pub document_hash: Seq<char>,
}

impl View for SupplyChainData {
    type V = SupplyChainDataView;

    open spec fn view(&self) -> SupplyChainDataView {
        SupplyChainDataView {
            item_id: self.item_id@,
            event_type: self.event_type@,
            location: self.location@,
            timestamp: self.timestamp@,
            owner: self.owner@,
            document_hash: self.document_hash@,
        }
    }
}

impl SupplyChainData {
    /// A field-by-field copy.
    pub fn duplicate(&self) -> (copy: SupplyChainData)
        ensures
            copy@ == self@,
    {
        SupplyChainData {
            item_id: self.item_id.clone(),
            event_type: self.event_type.clone(),
            location: self.location.clone(),
            timestamp: self.timestamp.clone(),
            owner: self.owner.clone(),
            document_hash: self.document_hash.clone(),
        }
    }
}

/// A block of the chain.
#[derive(Debug, Clone)]
pub struct Block {
    pub index: u64,
    pub timestamp: String,
    pub proof_of_work: u64,
    pub previous_hash: String,
    pub data: SupplyChainData,
    pub hash: String,
}

/// A block with its text fields taken as character sequences.
pub struct BlockView {
    pub index: u64,
    pub timestamp: Seq<char>,
    pub proof_of_work: u64,
    pub previous_hash: Seq<char>,
    pub data: SupplyChainDataView,
    pub hash: Seq<char>,
}

impl View for Block {
    type V = BlockView;

    open spec fn view(&self) -> BlockView {
        BlockView {
            index: self.index,
            timestamp: self.timestamp@,
            proof_of_work: self.proof_of_work,
            previous_hash: self.previous_hash@,
            data: self.data@,
            hash: self.hash@,
        }
    }
}

/// The UTF-8 bytes of a piece of fixed JSON text.
pub open spec fn text_bytes(text: &str) -> Seq<u8> {
    encode_utf8(text@)
}

/// The bytes that a block's hash is taken over: the compact JSON object of
/// every field but `hash`, in declaration order, the event data nested as
/// an object of its own.
pub open spec fn hashing_bytes(b: BlockView) -> Seq<u8> {
    text_bytes("{\"index\":") + decimal(b.index as nat) + text_bytes(",\"timestamp\":")
        + json_string(b.timestamp) + text_bytes(",\"proof_of_work\":") + decimal(
        b.proof_of_work as nat,
    ) + text_bytes(",\"previous_hash\":") + json_string(b.previous_hash) + text_bytes(
        ",\"data\":{\"item_id\":",
    ) + json_string(b.data.item_id) + text_bytes(",\"event_type\":") + json_string(
        b.data.event_type,
    ) + text_bytes(",\"location\":") + json_string(b.data.location) + text_bytes(
        ",\"timestamp\":",
    ) + json_string(b.data.timestamp) + text_bytes(",\"owner\":") + json_string(b.data.owner)
        + text_bytes(",\"document_hash\":") + json_string(b.data.document_hash) + text_bytes("}}")
}

/// The fixed JSON text between the fields of the hashing bytes: each
/// piece with the quotes of its keys and no escape or control byte.
proof fn lemma_hashing_keys_json_text()
    ensures
        json_text(text_bytes("{\"index\":"), 2),
        json_text(text_bytes(",\"timestamp\":"), 2),
        json_text(text_bytes(",\"proof_of_work\":"), 2),
        json_text(text_bytes(",\"previous_hash\":"), 2),
        json_text(text_bytes(",\"data\":{\"item_id\":"), 4),
        json_text(text_bytes(",\"event_type\":"), 2),
        json_text(text_bytes(",\"location\":"), 2),
        json_text(text_bytes(",\"owner\":"), 2),
        json_text(text_bytes(",\"document_hash\":"), 2),
        json_text(text_bytes("}}"), 0),
{
    reveal_with_fuel(unescaped_quotes, 20);
    reveal_with_fuel(escape_pending, 20);
    reveal_strlit("{\"index\":");
    is_ascii_chars_encode_utf8("{\"index\":"@);
    assert(text_bytes("{\"index\":") == seq![123u8, 34u8, 105u8, 110u8, 100u8, 101u8, 120u8, 34u8, 58u8]);
    reveal_strlit(",\"timestamp\":");
    is_ascii_chars_encode_utf8(",\"timestamp\":"@);
    assert(text_bytes(",\"timestamp\":") == seq![44u8, 34u8, 116u8, 105u8, 109u8, 101u8, 115u8, 116u8, 97u8, 109u8, 112u8, 34u8, 58u8]);
    reveal_strlit(",\"proof_of_work\":");
    is_ascii_chars_encode_utf8(",\"proof_of_work\":"@);
    assert(text_bytes(",\"proof_of_work\":") == seq![44u8, 34u8, 112u8, 114u8, 111u8, 111u8, 102u8, 95u8, 111u8, 102u8, 95u8, 119u8, 111u8, 114u8, 107u8, 34u8, 58u8]);
    reveal_strlit(",\"previous_hash\":");
    is_ascii_chars_encode_utf8(",\"previous_hash\":"@);
    assert(text_bytes(",\"previous_hash\":") == seq![44u8, 34u8, 112u8, 114u8, 101u8, 118u8, 105u8, 111u8, 117u8, 115u8, 95u8, 104u8, 97u8, 115u8, 104u8, 34u8, 58u8]);
    reveal_strlit(",\"data\":{\"item_id\":");
    is_ascii_chars_encode_utf8(",\"data\":{\"item_id\":"@);
    assert(text_bytes(",\"data\":{\"item_id\":") == seq![44u8, 34u8, 100u8, 97u8, 116u8, 97u8, 34u8, 58u8, 123u8, 34u8, 105u8, 116u8, 101u8, 109u8, 95u8, 105u8, 100u8, 34u8, 58u8]);
    reveal_strlit(",\"event_type\":");
    is_ascii_chars_encode_utf8(",\"event_type\":"@);
    assert(text_bytes(",\"event_type\":") == seq![44u8, 34u8, 101u8, 118u8, 101u8, 110u8, 116u8, 95u8, 116u8, 121u8, 112u8, 101u8, 34u8, 58u8]);
    reveal_strlit(",\"location\":");
    is_ascii_chars_encode_utf8(",\"location\":"@);
    assert(text_bytes(",\"location\":") == seq![44u8, 34u8, 108u8, 111u8, 99u8, 97u8, 116u8, 105u8, 111u8, 110u8, 34u8, 58u8]);
    reveal_strlit(",\"owner\":");
    is_ascii_chars_encode_utf8(",\"owner\":"@);
    assert(text_bytes(",\"owner\":") == seq![44u8, 34u8, 111u8, 119u8, 110u8, 101u8, 114u8, 34u8, 58u8]);
    reveal_strlit(",\"document_hash\":");
    is_ascii_chars_encode_utf8(",\"document_hash\":"@);
    assert(text_bytes(",\"document_hash\":") == seq![44u8, 34u8, 100u8, 111u8, 99u8, 117u8, 109u8, 101u8, 110u8, 116u8, 95u8, 104u8, 97u8, 115u8, 104u8, 34u8, 58u8]);
    reveal_strlit("}}");
    is_ascii_chars_encode_utf8("}}"@);
    assert(text_bytes("}}") == seq![125u8, 125u8]);
}

/// The decimal digits of a number are JSON text without quotes.
proof fn lemma_decimal_json_text(n: nat)
    ensures
        json_text(decimal(n), 0),
    decreases n,
{
    if n >= 10 {
        lemma_decimal_json_text(n / 10);
        lemma_plain_json_text(seq![(48 + n % 10) as u8]);
        lemma_json_text_concat(decimal(n / 10), 0, seq![(48 + n % 10) as u8], 0);
    } else {
        lemma_plain_json_text(seq![(48 + n) as u8]);
    }
}

/// The hashing bytes are JSON text: their only quotes that no backslash
/// escapes are the 22 around the keys and the 16 that open and close the
/// eight string fields, no escape is left pending, and no byte is a raw
/// control character, whatever the fields hold.
pub proof fn lemma_hashing_bytes_well_formed(b: BlockView)
    ensures
        json_text(hashing_bytes(b), 38),
{
    lemma_hashing_keys_json_text();
    lemma_decimal_json_text(b.index as nat);
    lemma_decimal_json_text(b.proof_of_work as nat);
    lemma_json_string_well_formed(b.timestamp);
    lemma_json_string_well_formed(b.previous_hash);
    lemma_json_string_well_formed(b.data.item_id);
    lemma_json_string_well_formed(b.data.event_type);
    lemma_json_string_well_formed(b.data.location);
    lemma_json_string_well_formed(b.data.timestamp);
    lemma_json_string_well_formed(b.data.owner);
    lemma_json_string_well_formed(b.data.document_hash);
    let acc0 = text_bytes("{\"index\":");
    lemma_json_text_concat(acc0, 2, decimal(b.index as nat), 0);
    let acc1 = acc0 + decimal(b.index as nat);
    lemma_json_text_concat(acc1, 2, text_bytes(",\"timestamp\":"), 2);
    let acc2 = acc1 + text_bytes(",\"timestamp\":");
    lemma_json_text_concat(acc2, 4, json_string(b.timestamp), 2);
    let acc3 = acc2 + json_string(b.timestamp);
    lemma_json_text_concat(acc3, 6, text_bytes(",\"proof_of_work\":"), 2);
    let acc4 = acc3 + text_bytes(",\"proof_of_work\":");
    lemma_json_text_concat(acc4, 8, decimal(b.proof_of_work as nat), 0);
    let acc5 = acc4 + decimal(b.proof_of_work as nat);
    lemma_json_text_concat(acc5, 8, text_bytes(",\"previous_hash\":"), 2);
    let acc6 = acc5 + text_bytes(",\"previous_hash\":");
    lemma_json_text_concat(acc6, 10, json_string(b.previous_hash), 2);
    let acc7 = acc6 + json_string(b.previous_hash);
    lemma_json_text_concat(acc7, 12, text_bytes(",\"data\":{\"item_id\":"), 4);
    let acc8 = acc7 + text_bytes(",\"data\":{\"item_id\":");
    lemma_json_text_concat(acc8, 16, json_string(b.data.item_id), 2);
    let acc9 = acc8 + json_string(b.data.item_id);
    lemma_json_text_concat(acc9, 18, text_bytes(",\"event_type\":"), 2);
    let acc10 = acc9 + text_bytes(",\"event_type\":");
    lemma_json_text_concat(acc10, 20, json_string(b.data.event_type), 2);
    let acc11 = acc10 + json_string(b.data.event_type);
    lemma_json_text_concat(acc11, 22, text_bytes(",\"location\":"), 2);
    let acc12 = acc11 + text_bytes(",\"location\":");
    lemma_json_text_concat(acc12, 24, json_string(b.data.location), 2);
    let acc13 = acc12 + json_string(b.data.location);
    lemma_json_text_concat(acc13, 26, text_bytes(",\"timestamp\":"), 2);
    let acc14 = acc13 + text_bytes(",\"timestamp\":");
    lemma_json_text_concat(acc14, 28, json_string(b.data.timestamp), 2);
    let acc15 = acc14 + json_string(b.data.timestamp);
    lemma_json_text_concat(acc15, 30, text_bytes(",\"owner\":"), 2);
    let acc16 = acc15 + text_bytes(",\"owner\":");
    lemma_json_text_concat(acc16, 32, json_string(b.data.owner), 2);
    let acc17 = acc16 + json_string(b.data.owner);
    lemma_json_text_concat(acc17, 34, text_bytes(",\"document_hash\":"), 2);
    let acc18 = acc17 + text_bytes(",\"document_hash\":");
    lemma_json_text_concat(acc18, 36, json_string(b.data.document_hash), 2);
    let acc19 = acc18 + json_string(b.data.document_hash);
    lemma_json_text_concat(acc19, 38, text_bytes("}}"), 0);
    let acc20 = acc19 + text_bytes("}}");
    assert(acc20 == hashing_bytes(b));
}

/// A block's hash: the lowercase hex text of the SHA-256 digest of its
/// hashing bytes.
pub open spec fn block_hash(b: BlockView) -> Seq<char> {
    hex_lower(sha256(hashing_bytes(b)))
}

/// `hash` starts with `difficulty` zero digits.
pub open spec fn meets_difficulty(hash: Seq<char>, difficulty: nat) -> bool {
    &&& difficulty <= hash.len()
    &&& forall|i: int| 0 <= i < difficulty ==> hash[i] == '0'
}

/// A freshly made block: nonce 0 and the hash of its own content.
pub open spec fn new_block(
    index: u64,
    data: SupplyChainDataView,
    previous_hash: Seq<char>,
    timestamp: Seq<char>,
) -> BlockView {
    let unsealed = BlockView {
        index,
        timestamp,
        proof_of_work: 0,
        previous_hash,
        data,
        hash: Seq::empty(),
    };
    BlockView { hash: block_hash(unsealed), ..unsealed }
}

/// `b` with nonce `nonce` and the hash that goes with it.
pub open spec fn with_nonce(b: BlockView, nonce: u64) -> BlockView {
    let renonced = BlockView { proof_of_work: nonce, ..b };
    BlockView { hash: block_hash(renonced), ..renonced }
}

/// What mining makes of `b`: while its hash falls short of `difficulty`,
/// the nonce goes up by one and the hash is taken anew; the search ends at
/// the first nonce whose hash meets the difficulty, or when the nonce has
/// reached `u64::MAX`.
pub open spec fn mined(b: BlockView, difficulty: nat) -> BlockView
    decreases u64::MAX - b.proof_of_work,
{
    if meets_difficulty(b.hash, difficulty) || b.proof_of_work == u64::MAX {
        b
    } else {
        mined(with_nonce(b, (b.proof_of_work + 1) as u64), difficulty)
    }
}

/// `b` may follow `previous` in a chain of the given difficulty: its index
/// is the next one, it names `previous`'s hash, its hash is that of its
/// content, and that hash meets the difficulty.
pub open spec fn valid_successor(b: BlockView, previous: BlockView, difficulty: nat) -> bool {
    &&& b.index == previous.index + 1
    &&& b.previous_hash == previous.hash
    &&& b.hash == block_hash(b)
    &&& meets_difficulty(b.hash, difficulty)
}

/// Every hash meets difficulty 0.
pub proof fn lemma_meets_difficulty_zero(hash: Seq<char>)
    ensures
        meets_difficulty(hash, 0),
{
}

/// A hash meets difficulty `d + 1` exactly when it meets `d` and its
/// character at position `d` is a further `0`.
pub proof fn lemma_meets_difficulty_step(hash: Seq<char>, d: nat)
    ensures
        meets_difficulty(hash, d + 1) <==> (meets_difficulty(hash, d) && d < hash.len() && hash[d as int] == '0'),
{
    if meets_difficulty(hash, d) && d < hash.len() && hash[d as int] == '0' {
        assert forall|i: int| 0 <= i < d + 1 implies hash[i] == '0' by {
            if i < d {
                assert(hash[i] == '0');
            }
        }
    }
}

/// Whatever a mined block started from, its hash begins with `difficulty`
/// zero characters, unless the nonce search ran out at `u64::MAX`.
pub proof fn lemma_mined_hash_has_leading_zeros(b: BlockView, difficulty: nat)
    ensures
        ({
            let m = mined(b, difficulty);
            m.proof_of_work == u64::MAX || (difficulty <= m.hash.len() && forall|i: int|
                0 <= i < difficulty ==> #[trigger] m.hash[i] == '0')
        }),
{
    lemma_mined(b, difficulty);
}

/// A block's hash does not depend on the hash it carries: setting the
/// stored hash to anything leaves the computed hash unchanged.
pub proof fn lemma_hash_ignores_stored_hash(b: BlockView, stored: Seq<char>)
    ensures
        block_hash(BlockView { hash: stored, ..b }) == block_hash(b),
{
}

/// What mining does to a block: it changes nothing but the nonce and the
/// hash; the nonce only goes up; it stops at the first nonce above the
/// starting one whose hash meets the difficulty (or at once if the block's
/// hash already meets it), or at `u64::MAX`; where the nonce moved, the
/// block carries the hash of its content.
pub proof fn lemma_mined(b: BlockView, difficulty: nat)
    ensures
        ({
            let m = mined(b, difficulty);
            &&& m.index == b.index
            &&& m.timestamp == b.timestamp
            &&& m.previous_hash == b.previous_hash
            &&& m.data == b.data
            &&& b.proof_of_work <= m.proof_of_work
            &&& meets_difficulty(m.hash, difficulty) || m.proof_of_work == u64::MAX
            &&& m.proof_of_work == b.proof_of_work ==> m == b
            &&& m.proof_of_work > b.proof_of_work ==> m == with_nonce(b, m.proof_of_work)
            &&& meets_difficulty(b.hash, difficulty) ==> m == b
            &&& forall|n: u64|
                b.proof_of_work < n < m.proof_of_work ==> !meets_difficulty(
                    #[trigger] with_nonce(b, n).hash,
                    difficulty,
                )
        }),
    decreases u64::MAX - b.proof_of_work,
{
    if meets_difficulty(b.hash, difficulty) || b.proof_of_work == u64::MAX {
    } else {
        let next = with_nonce(b, (b.proof_of_work + 1) as u64);
        lemma_mined(next, difficulty);
        let m = mined(next, difficulty);
        assert forall|n: u64| next.proof_of_work < n implies #[trigger] with_nonce(next, n)
            == with_nonce(b, n) by {}
        assert forall|n: u64|
            b.proof_of_work < n < m.proof_of_work implies !meets_difficulty(
                #[trigger] with_nonce(b, n).hash,
                difficulty,
            ) by {
            if n != next.proof_of_work {
                assert(with_nonce(next, n) == with_nonce(b, n));
            }
        }
        if m.proof_of_work > next.proof_of_work {
            assert(with_nonce(next, m.proof_of_work) == with_nonce(b, m.proof_of_work));
        }
    }
}

/// A block whose hash is that of its content still is after mining.
pub proof fn lemma_mining_keeps_block_sealed(b: BlockView, difficulty: nat)
    requires
        b.hash == block_hash(b),
    ensures
        mined(b, difficulty).hash == block_hash(mined(b, difficulty)),
{
    lemma_mined(b, difficulty);
    let m = mined(b, difficulty);
    if m.proof_of_work > b.proof_of_work {
        lemma_hash_ignores_stored_hash(BlockView { proof_of_work: m.proof_of_work, ..b }, m.hash);
    }
}

/// A new block made after `previous` and then mined may follow
/// `previous` exactly when mining reached the difficulty.
pub proof fn lemma_mined_successor_valid(
    previous: BlockView,
    data: SupplyChainDataView,
    timestamp: Seq<char>,
    difficulty: nat,
)
    requires
        previous.index < u64::MAX,
    ensures
        ({
            let m = mined(
                new_block((previous.index + 1) as u64, data, previous.hash, timestamp),
                difficulty,
            );
            valid_successor(m, previous, difficulty) <==> meets_difficulty(m.hash, difficulty)
        }),
{
    let b = new_block((previous.index + 1) as u64, data, previous.hash, timestamp);
    lemma_hash_ignores_stored_hash(b, Seq::empty());
    lemma_mined(b, difficulty);
    lemma_mining_keeps_block_sealed(b, difficulty);
}

/// The first 16 bytes of `s` as text, or all of `s` where it is shorter.
pub open spec fn short_text(s: Seq<char>) -> Seq<char> {
    if encode_utf8(s).len() >= 16 {
        decode_utf8(encode_utf8(s).take(16))
    } else {
        s
    }
}

/// `s` is shorter than 16 bytes, or a character starts at its byte 16, so
/// that its first 16 bytes are text.
pub open spec fn cuts_cleanly(s: Seq<char>) -> bool {
    encode_utf8(s).len() >= 16 ==> is_char_boundary(encode_utf8(s), 16)
}

/// The printed form of a block: its number and item, the event, the
/// place, the owner, the first 16 bytes of its hash and of the previous
/// hash, and the nonce, one per line, closed by `---`.
pub open spec fn block_text(b: BlockView) -> Seq<char> {
    "Block #"@ + decimal_text(b.index as nat) + " ["@ + b.data.item_id + "]\n  Event: "@
        + b.data.event_type + "\n  Location: "@ + b.data.location + "\n  Owner: "@
        + b.data.owner + "\n  Hash: "@ + short_text(b.hash) + "\n  Prev Hash: "@ + short_text(
        b.previous_hash,
    ) + "\n  PoW: "@ + decimal_text(b.proof_of_work as nat) + "\n---"@
}

/// The first 16 bytes of `s`, or all of `s` where it is shorter.
fn short_form(s: &String) -> (short: &str)
    requires
        cuts_cleanly(s@),
    ensures
        short@ == short_text(s@),
{
    let text = s.as_str();
    if text.as_bytes().len() >= 16 {
        let (head, _) = text.split_at(16);
        proof {
            encode_utf8_decode_utf8(head@);
        }
        head
    } else {
        text
    }
}

/// The current time as RFC 3339 text, from `chrono::Utc::now().to_rfc3339()`.
/// Of the text only that it is not empty is stated (`to_rfc3339` always
/// writes a date and a time); what it reads depends on the clock.
#[verifier::external_body]
pub(crate) fn current_timestamp() -> (stamp: String)
    ensures
        stamp@.len() > 0,
{
    chrono::Utc::now().to_rfc3339()
}

/// Whether the first `difficulty` characters of `hash` are all `0`.
pub fn hash_meets_difficulty(hash: &String, difficulty: usize) -> (meets: bool)
    ensures
        meets == meets_difficulty(hash@, difficulty as nat),
{
    let text = hash.as_str();
    let len = text.unicode_len();
    if difficulty > len {
        return false;
    }
    let mut i: usize = 0;
    while i < difficulty
        invariant
            difficulty <= len,
            len == hash@.len(),
            text@ == hash@,
            i <= difficulty,
            forall|j: int| 0 <= j < i ==> hash@[j] == '0',
        decreases difficulty - i,
    {
        if text.get_char(i) != '0' {
            return false;
        }
        i = i + 1;
    }
    true
}

impl Block {
    /// A new block for `data` after the block whose hash is
    /// `previous_hash`, stamped with the current time, nonce 0, and the hash
    /// of its content.
    pub fn new(index: u64, data: SupplyChainData, previous_hash: String) -> (block: Block)
        ensures
            block@ == new_block(index, data@, previous_hash@, block@.timestamp),
            block@.timestamp.len() > 0,
    {
        let timestamp = current_timestamp();
        Block::new_at(index, data, previous_hash, timestamp)
    }

    /// A new block as [`Block::new`] makes it, stamped with `timestamp`.
    pub fn new_at(index: u64, data: SupplyChainData, previous_hash: String, timestamp: String) -> (block: Block)
        ensures
            block@ == new_block(index, data@, previous_hash@, timestamp@),
    {
        let mut block = Block {
            index,
            timestamp,
            proof_of_work: 0,
            previous_hash,
            data,
            hash: String::new(),
        };
        block.hash = block.calculate_hash();
        block
    }

    /// The bytes that the block's hash is taken over.
    pub fn hashing_input(&self) -> (bytes: Vec<u8>)
        ensures
            bytes@ == hashing_bytes(self@),
    {
        let mut out: Vec<u8> = Vec::new();
        append_bytes(&mut out, "{\"index\":".as_bytes());
        push_decimal(&mut out, self.index);
        append_bytes(&mut out, ",\"timestamp\":".as_bytes());
        append_bytes(&mut out, json_string_bytes(self.timestamp.as_str()).as_slice());
        append_bytes(&mut out, ",\"proof_of_work\":".as_bytes());
        push_decimal(&mut out, self.proof_of_work);
        append_bytes(&mut out, ",\"previous_hash\":".as_bytes());
        append_bytes(&mut out, json_string_bytes(self.previous_hash.as_str()).as_slice());
        append_bytes(&mut out, ",\"data\":{\"item_id\":".as_bytes());
        append_bytes(&mut out, json_string_bytes(self.data.item_id.as_str()).as_slice());
        append_bytes(&mut out, ",\"event_type\":".as_bytes());
        append_bytes(&mut out, json_string_bytes(self.data.event_type.as_str()).as_slice());
        append_bytes(&mut out, ",\"location\":".as_bytes());
        append_bytes(&mut out, json_string_bytes(self.data.location.as_str()).as_slice());
        append_bytes(&mut out, ",\"timestamp\":".as_bytes());
        append_bytes(&mut out, json_string_bytes(self.data.timestamp.as_str()).as_slice());
        append_bytes(&mut out, ",\"owner\":".as_bytes());
        append_bytes(&mut out, json_string_bytes(self.data.owner.as_str()).as_slice());
        append_bytes(&mut out, ",\"document_hash\":".as_bytes());
        append_bytes(&mut out, json_string_bytes(self.data.document_hash.as_str()).as_slice());
        append_bytes(&mut out, "}}".as_bytes());
        out
    }

    /// The hash of the block's content (every field but `hash` itself).
    pub fn calculate_hash(&self) -> (hash: String)
        ensures
            hash@ == block_hash(self@),
            hash@.len() == 64,
            forall|i: int| 0 <= i < 64 ==> is_lower_hex_digit(#[trigger] hash@[i]),
    {
        let input = self.hashing_input();
        let digest = sha256_digest(input.as_slice());
        proof {
            lemma_hex_lower_digits(digest@);
        }
        hex_encode(digest.as_slice())
    }

    /// Searches for a nonce whose hash starts with `difficulty` zeros,
    /// counting up from the current nonce; the block keeps the nonce and
    /// hash at which the search ends.
    pub fn mine_block(&mut self, difficulty: usize)
        requires
            difficulty <= 64 || meets_difficulty(old(self).hash@, difficulty as nat),
        ensures
            final(self)@ == mined(old(self)@, difficulty as nat),
    {
        let ghost goal = mined(self@, difficulty as nat);
        while !hash_meets_difficulty(&self.hash, difficulty) && self.proof_of_work < u64::MAX
            invariant
                mined(self@, difficulty as nat) == goal,
            decreases u64::MAX - self.proof_of_work,
        {
            self.proof_of_work = self.proof_of_work + 1;
            self.hash = self.calculate_hash();
        }
    }

    /// Whether this block may follow `previous_block` in a chain of the
    /// given difficulty.
    pub fn is_valid_block(&self, previous_block: &Block, difficulty: usize) -> (valid: bool)
        requires
            previous_block.index < u64::MAX,
        ensures
            valid == valid_successor(self@, previous_block@, difficulty as nat),
    {
        if self.index != previous_block.index + 1 {
            return false;
        }
        if self.previous_hash != previous_block.hash {
            return false;
        }
        let recalculated_hash = self.calculate_hash();
        if self.hash != recalculated_hash {
            return false;
        }
        hash_meets_difficulty(&self.hash, difficulty)
    }

    /// The printed form of the block.
    pub fn to_string(&self) -> (text: String)
        requires
            cuts_cleanly(self.hash@),
            cuts_cleanly(self.previous_hash@),
        ensures
            text@ == block_text(self@),
    {
        let mut out = String::new();
        out.append("Block #");
        push_decimal_text(&mut out, self.index);
        out.append(" [");
        out.append(self.data.item_id.as_str());
        out.append("]\n  Event: ");
        out.append(self.data.event_type.as_str());
        out.append("\n  Location: ");
        out.append(self.data.location.as_str());
        out.append("\n  Owner: ");
        out.append(self.data.owner.as_str());
        out.append("\n  Hash: ");
        out.append(short_form(&self.hash));
        out.append("\n  Prev Hash: ");
        out.append(short_form(&self.previous_hash));
        out.append("\n  PoW: ");
        push_decimal_text(&mut out, self.proof_of_work);
        out.append("\n---");
        out
    }

    /// A field-by-field copy.
    pub fn duplicate(&self) -> (copy: Block)
        ensures
            copy@ == self@,
    {
        Block {
            index: self.index,
            timestamp: self.timestamp.clone(),
            proof_of_work: self.proof_of_work,
            previous_hash: self.previous_hash.clone(),
            data: self.data.duplicate(),
            hash: self.hash.clone(),
        }
    }
}

} // verus!
