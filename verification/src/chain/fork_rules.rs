use vstd::prelude::*;
use core::marker::PhantomData;
use crate::block::{block_wf, refl_sum, BlockStore, BlockT};
use crate::block_metadata::BlockMD;
use crate::chain::lca::{lca_and_intermediates, lca_spec, lemma_lca_levels, lemma_lca_stored, max_height};
use crate::chain::validation::{levels_weight, levels_weights, sat, spec_next_difficulty};
use crate::chain::Chain;
use crate::rng::choose_id;
use crate::transactions::TxCache;
use crate::types::{Difficulty, HashID, NetworkArgs};

verus! {

/// Which of two blocks a fork rule prefers.
pub enum ForkResult<'a, B> {
    BestBlock(&'a B),
    BlocksEq,
}

/// How blocks on competing forks are compared: by a measure taken from their metadata.
pub trait ForkRules<B: BlockT>: Sized {
    spec fn spec_fork_measure(b_md: BlockMD) -> Difficulty;

    fn fork_measure(b_md: &BlockMD) -> (r: Difficulty)
        ensures
            r == Self::spec_fork_measure(*b_md),
    ;

    /// Return the best block given two possibilities: the one with the larger measure, or
    /// `BlocksEq` when the measures are equal.
    fn best_of<'a>(b1: (&'a B, &BlockMD), b2: (&'a B, &BlockMD)) -> (r: ForkResult<'a, B>)
        ensures
            Self::spec_fork_measure(*b1.1) > Self::spec_fork_measure(*b2.1) ==> r == ForkResult::BestBlock(b1.0),
            Self::spec_fork_measure(*b1.1) == Self::spec_fork_measure(*b2.1) ==> r is BlocksEq,
            Self::spec_fork_measure(*b1.1) < Self::spec_fork_measure(*b2.1) ==> r == ForkResult::BestBlock(b2.0),
    {
        let m1 = Self::fork_measure(b1.1);
        let m2 = Self::fork_measure(b2.1);
        if m1 > m2 {
            ForkResult::BestBlock(b1.0)
        } else if m1 == m2 {
            ForkResult::BlocksEq
        } else {
            ForkResult::BestBlock(b2.0)
        }
    }
}

/// The longest chain wins: blocks are measured by height.
pub struct LongestChain<B> {
    _phantom: PhantomData<B>,
}

/// The heaviest chain wins: blocks are measured by chain weight.
pub struct HeaviestChain<B> {
    _phantom: PhantomData<B>,
}

impl<B> LongestChain<B> {
    pub fn new() -> Self {
        LongestChain { _phantom: PhantomData }
    }
}

impl<B> HeaviestChain<B> {
    pub fn new() -> Self {
        HeaviestChain { _phantom: PhantomData }
    }
}

impl<B> Clone for LongestChain<B> {
    fn clone(&self) -> Self {
        LongestChain { _phantom: PhantomData }
    }
}

impl<B> Clone for HeaviestChain<B> {
    fn clone(&self) -> Self {
        HeaviestChain { _phantom: PhantomData }
    }
}

impl<B: BlockT> ForkRules<B> for LongestChain<B> {
    open spec fn spec_fork_measure(b_md: BlockMD) -> Difficulty {
        b_md.height as Difficulty
    }

    fn fork_measure(b_md: &BlockMD) -> (r: Difficulty) {
        b_md.height as Difficulty
    }
}

impl<B: BlockT> ForkRules<B> for HeaviestChain<B> {
    open spec fn spec_fork_measure(b_md: BlockMD) -> Difficulty {
        b_md.chain_weight
    }

    fn fork_measure(b_md: &BlockMD) -> (r: Difficulty) {
        b_md.chain_weight
    }
}

/// The weight of a block on `parents` under the longest-chain rule: one above its first
/// parent's height.
pub open spec fn longest_weight<B: BlockT>(m: Map<HashID, (B, BlockMD)>, parents: Seq<HashID>) -> Difficulty {
    (m[parents[0]].1.height + 1) as Difficulty
}

impl<B: BlockT> LongestChain<B> {
    /// The total weight `b` brings its chain to under this rule: one above its first parent's
    /// height.
    pub fn weight_of(b: &B, store: &BlockStore<B>) -> (r: Difficulty)
        requires
            b.spec_parents().len() > 0,
            store@.contains_key(b.spec_parents()[0]),
        ensures
            r == longest_weight(store@, b.spec_parents()),
    {
        let p = store.get(b.prev()).unwrap();
        p.1.height as Difficulty + 1
    }

    /// [`Self::weight_of`] plus the weight the block reflects (saturating).
    pub fn por_weight_of(b: &B, store: &BlockStore<B>, tx_cache: &TxCache) -> (r: Difficulty)
        requires
            b.spec_parents().len() > 0,
            store@.contains_key(b.spec_parents()[0]),
        ensures
            r == sat(longest_weight(store@, b.spec_parents()) + refl_sum(b.spec_txs(), tx_cache@, b.spec_chain_id())),
    {
        Self::weight_of(b, store).saturating_add(b.calc_reflected_weight(tx_cache))
    }
}

/// The heaviest-chain weight of a block on `parents` is defined: the parents have a common
/// ancestor, and the level of the highest of them holds a block.
pub open spec fn heavy_weight_defined<B: BlockT>(m: Map<HashID, (B, BlockMD)>, parents: Seq<HashID>) -> bool {
    match lca_spec(m, parents) {
        Some(s) => s.1.contains_key(max_height(m, parents)) && s.1[max_height(m, parents)].len() > 0,
        None => false,
    }
}

/// The blocks at the level of the highest of `parents` that the common ancestor search
/// recorded.
pub open spec fn top_level<B: BlockT>(m: Map<HashID, (B, BlockMD)>, parents: Seq<HashID>) -> Seq<HashID> {
    lca_spec(m, parents).unwrap().1[max_height(m, parents)]
}

/// The heaviest-chain weight of a block on `parents`, going by the top block `x`: the chain
/// weight of the parents' common ancestor, plus the weights of the blocks recorded above it
/// up to the highest parent, plus the difficulty `x` calls for (saturating).
pub open spec fn heavy_weight<B: BlockT>(store: &BlockStore<B>, net: NetworkArgs, parents: Seq<HashID>, x: HashID) -> Difficulty {
    let m = store@;
    let s = lca_spec(m, parents).unwrap();
    let l = m[s.0].1;
    sat(
        l.chain_weight + levels_weight(m, s.1, l.height + 1, max_height(m, parents) as int, false)
            + spec_next_difficulty(store, net, m[x].0, m[x].1),
    )
}

impl<B: BlockT> HeaviestChain<B> {
    /// The total chain weight `b` brings its chain to under this rule (see [`heavy_weight`]),
    /// going by one of the highest blocks found, chosen at random.
    pub fn weight_of<F: ForkRules<B>>(b: &B, chain: &Chain<B, F>, store: &BlockStore<B>) -> (r: Difficulty)
        requires
            store.wf(),
            store.daa2_ok(chain.net_args.daa2_n_blocks),
            heavy_weight_defined(store@, b.spec_parents()),
        ensures
            exists|x: HashID|
                #[trigger] top_level(store@, b.spec_parents()).contains(x) && r == heavy_weight(store, chain.net_args, b.spec_parents(), x),
    {
        let ghost m = store@;
        let ghost ps = b.spec_parents();
        let parents = b.all_parents();
        proof {
            lemma_lca_levels(m, ps);
            lemma_lca_stored(m, ps);
        }
        let ghost s = lca_spec(m, ps).unwrap();
        let lr = lca_and_intermediates(store, &parents);
        let (lca, levels) = match lr {
            Some(x) => x,
            None => {
                return 0;
            },
        };
        let le = store.get(lca).unwrap();
        let hl = le.1.height;
        proof {
            assert forall|i: int| 0 <= i < ps.len() implies m.contains_key(#[trigger] ps[i]) by {
                if !m.contains_key(ps[i]) {
                    assert(lca_spec(m, ps) is None);
                }
            }
        }
        let maxh = chain.max_parent_height(store, &parents);
        let w = if hl == u32::MAX {
            proof {
                assert(levels_weight(m, s.1, hl + 1, maxh as int, false) == 0);
            }
            0
        } else {
            levels_weights(store, &levels, Ghost(s.1), hl + 1, maxh).0
        };
        let top = levels.get(&maxh).unwrap();
        let mut ids: Vec<HashID> = Vec::new();
        let mut i: usize = 0;
        while i < top.len()
            invariant
                i <= top.len(),
                top@ == s.1[maxh].map_values(|id: HashID| crate::chain::lca::binfo_of(m, id)),
                ids@ == s.1[maxh].take(i as int),
            decreases top.len() - i,
        {
            ids.push(top[i].id);
            assert(s.1[maxh].take(i + 1) =~= s.1[maxh].take(i as int).push(s.1[maxh][i as int]));
            i += 1;
        }
        assert(s.1[maxh].take(top.len() as int) =~= s.1[maxh]);
        let x = match choose_id(ids.as_slice()) {
            Some(x) => x,
            None => {
                return 0;
            },
        };
        proof {
            let xi = choose|j: int| 0 <= j < s.1[maxh].len() && s.1[maxh][j] == x;
            assert(m.contains_key(s.1[maxh][xi]));
        }
        let xe = store.get(x).unwrap();
        proof {
            assert(block_wf(m, x));
        }
        let nd = chain.next_difficulty(store, &xe.0, &xe.1);
        let r = le.1.chain_weight.saturating_add(w).saturating_add(nd);
        proof {
            assert(top_level(m, ps).contains(x));
            let lw = levels_weight(m, s.1, hl + 1, maxh as int, false);
            assert(lw >= 0) by {
                lemma_levels_weight_nonneg(m, s.1, hl + 1, maxh as int);
            }
        }
        r
    }

    /// [`Self::weight_of`] plus the weight the block reflects (saturating).
    pub fn por_weight_of<F: ForkRules<B>>(b: &B, chain: &Chain<B, F>, store: &BlockStore<B>, tx_cache: &TxCache) -> (r: Difficulty)
        requires
            store.wf(),
            store.daa2_ok(chain.net_args.daa2_n_blocks),
            heavy_weight_defined(store@, b.spec_parents()),
        ensures
            exists|x: HashID|
                #[trigger] top_level(store@, b.spec_parents()).contains(x) && r == sat(
                    heavy_weight(store, chain.net_args, b.spec_parents(), x) + refl_sum(b.spec_txs(), tx_cache@, b.spec_chain_id()),
                ),
    {
        Self::weight_of(b, chain, store).saturating_add(b.calc_reflected_weight(tx_cache))
    }
}

/// Summed weights are never negative.
proof fn lemma_levels_weight_nonneg<B: BlockT>(m: Map<HashID, (B, BlockMD)>, s: Map<crate::types::Height, Seq<HashID>>, lo: int, hi: int)
    ensures
        levels_weight(m, s, lo, hi, false) >= 0,
    decreases hi - lo + 1,
{
    if hi >= lo {
        lemma_levels_weight_nonneg(m, s, lo, hi - 1);
        if 0 <= hi <= u32::MAX && s.contains_key(hi as crate::types::Height) {
            lemma_ids_weight_nonneg(m, s[hi as crate::types::Height]);
        }
    }
}

proof fn lemma_ids_weight_nonneg<B: BlockT>(m: Map<HashID, (B, BlockMD)>, ids: Seq<HashID>)
    ensures
        crate::chain::validation::ids_weight(m, ids, false) >= 0,
    decreases ids.len(),
{
    if ids.len() > 0 {
        lemma_ids_weight_nonneg(m, ids.drop_last());
    }
}

} // verus!
