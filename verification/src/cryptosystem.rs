use vstd::prelude::*;
use crate::block::{Block, BlockT, DagBlock};
use crate::chain::fork_rules::{ForkRules, HeaviestChain, LongestChain};

verus! {

/// A kind of chain: the blocks it is made of and the rule that picks between forks.
pub trait CSystemT {
    type B: BlockT;
    type FR: ForkRules<Self::B>;
}

/// Single-parent blocks, longest chain wins.
#[derive(Clone)]
pub struct SimpleCS {}

impl CSystemT for SimpleCS {
    type B = Block;
    type FR = LongestChain<Block>;
}

/// Single-parent blocks, heaviest chain wins.
#[derive(Clone)]
pub struct WeightedChainCS {}

impl CSystemT for WeightedChainCS {
    type B = Block;
    type FR = HeaviestChain<Block>;
}

/// Blocks with many parents (a DAG), heaviest chain wins.
#[derive(Clone)]
pub struct DagCS {}

impl CSystemT for DagCS {
    type B = DagBlock;
    type FR = HeaviestChain<DagBlock>;
}

} // verus!
