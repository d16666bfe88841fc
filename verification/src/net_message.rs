//! The messages that nodes exchange.

use crate::block::Block;
use vstd::prelude::*;

verus! {

/// A message between nodes: a newly mined block, a request for the whole
/// chain, or the whole chain in answer.
#[derive(Debug, Clone)]
pub enum NetMessage {
    NewBlock(Block),
    RequestChain,
    ChainResponse(Vec<Block>),
}

} // verus!
