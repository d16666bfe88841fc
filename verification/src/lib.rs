//! A supply-chain ledger: blocks of supply-chain events, linked by SHA-256
//! hashes and sealed by proof of work, with the rules by which a node keeps
//! its chain and takes in blocks from its peers.

pub mod encoding;
pub mod block;
pub mod blockchain;
pub mod net_message;
pub mod p2p;
