use vstd::prelude::*;
use crate::block::{BlockStore, BlockT};
use crate::types::{Difficulty, HashID};

verus! {

/// What a chain records about a block it has validated.
#[derive(Debug, Clone, Copy, PartialEq, Eq, PartialOrd, Ord, Hash)]
pub struct BlockMD {
    pub difficulty: Difficulty,
    pub height: u32,
    pub weight: Difficulty,
    pub chain_weight: Difficulty,
    pub local_chain_weight: Difficulty,
    pub reflected_weight: Difficulty,
}

/// The ids that the difficulty adjustment looks back over from `id`, if they are recorded.
pub open spec fn spec_daa2_blocks<B: BlockT>(store: &BlockStore<B>, id: HashID) -> Option<Seq<HashID>> {
    if store.daa2_view().contains_key(id) {
        Some(store.daa2_view()[id])
    } else {
        None
    }
}

impl BlockMD {
    /// The metadata of a genesis block; records `daa2_n_blocks` copies of its id as the
    /// blocks that the difficulty adjustment looks back over.
    pub fn mk_genesis_md<B: BlockT>(genesis: &B, daa2_n_blocks: usize, store: &mut BlockStore<B>) -> (r: Self)
        ensures
            r == (BlockMD {
                difficulty: 1,
                height: 0,
                weight: 0,
                chain_weight: 0,
                local_chain_weight: 0,
                reflected_weight: 0,
            }),
            final(store)@ == old(store)@,
            final(store).daa2_view() == old(store).daa2_view().insert(
                genesis.spec_id(),
                Seq::new(daa2_n_blocks as nat, |i: int| genesis.spec_id()),
            ),
    {
        let difficulty: Difficulty = 1;
        let g = genesis.get_hash();
        let mut v: Vec<HashID> = Vec::new();
        let mut i: usize = 0;
        while i < daa2_n_blocks
            invariant
                i <= daa2_n_blocks,
                g == genesis.spec_id(),
                v@ == Seq::new(i as nat, |j: int| g),
            decreases daa2_n_blocks - i,
        {
            v.push(g);
            assert(v@ =~= Seq::new((i + 1) as nat, |j: int| g));
            i += 1;
        }
        BlockMD::set_daa2_blocks(store, g, v);
        BlockMD {
            difficulty,
            height: 0,
            weight: 0,
            chain_weight: 0,
            local_chain_weight: 0,
            reflected_weight: 0,
        }
    }

    pub fn get_daa2_blocks<B: BlockT>(store: &BlockStore<B>, id: HashID) -> (r: Option<&Vec<HashID>>)
        ensures
            match r {
                Some(v) => spec_daa2_blocks(store, id) == Some(v@),
                None => spec_daa2_blocks(store, id) is None,
            },
    {
        store.get_daa2(id)
    }

    pub fn set_daa2_blocks<B: BlockT>(store: &mut BlockStore<B>, id: HashID, v: Vec<HashID>)
        ensures
            final(store)@ == old(store)@,
            final(store).daa2_view() == old(store).daa2_view().insert(id, v@),
    {
        store.set_daa2(id, v)
    }
}

} // verus!
