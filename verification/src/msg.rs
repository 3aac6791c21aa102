use vstd::prelude::*;
use crate::types::HashID;

verus! {

/// What a node sends out: a block of a chain, public or private.
#[derive(Debug, Clone, PartialEq, Eq, Hash)]
pub enum Msg<B> {
    /// chain_id, block
    MsgBlock(HashID, B),
    /// chain_id, block
    MsgPrivBlock(HashID, B),
}

/// What a node receives: a block of a chain, and whether it is private.
#[derive(Debug, Clone, PartialEq, Eq, Hash)]
pub enum MsgToNode<B> {
    /// chain_id, block, is_private
    MsgBlock(HashID, B, bool),
}

} // verus!
