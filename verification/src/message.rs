//! The messages that nodes exchange about blocks.

use crate::primitives::{AccountId, BlockId, CryptoHash};
use vstd::prelude::*;

verus! {

/// Tells a response apart from the others: it repeats its request's id.
pub type RequestId = u64;

/// status sent on connection
#[derive(Debug, PartialEq, Eq)]
pub struct Status {
    /// Protocol version.
    pub version: u32,
    /// Best block index.
    pub best_index: u64,
    /// Best block hash.
    pub best_hash: CryptoHash,
    /// Genesis hash.
    pub genesis_hash: CryptoHash,
    /// Account id.
    pub account_id: Option<AccountId>,
}

#[derive(Debug, PartialEq, Eq, Clone)]
pub struct BlockRequest {
    /// request id
    pub id: RequestId,
    /// starting from this id
    pub from: BlockId,
    /// ending at this id,
    pub to: Option<BlockId>,
    /// max number of blocks requested
    pub max: Option<u64>,
}

#[derive(Debug, PartialEq, Eq)]
pub struct BlockResponse<Block> {
    /// request id that the response is responding to
    pub id: RequestId,
    /// block data
    pub blocks: Vec<Block>,
}

/// Announce either header or the entire block
#[derive(Debug, PartialEq, Eq, Clone)]
pub enum BlockAnnounce<B, H> {
    Header(H),
    Block(B),
}

} // verus!
