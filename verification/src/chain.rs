use vstd::prelude::*;
use core::marker::PhantomData;
use crate::block::{ancestors, BlockStore, BlockT, block_wf, height_after, refl_sum};
use crate::chain::validation::spec_next_difficulty;
use crate::transactions::TxCache;
use crate::block_metadata::BlockMD;
use crate::chain::fork_rules::{ForkResult, ForkRules};
use crate::chain::lca::{extends, lca_and_intermediates, lca_spec, lemma_genesis_rooted, lemma_lca_is_common_ancestor, lemma_rooted_extends, levels_match, rooted};
use std::collections::HashMap;
use crate::collections::{ChainHeads, IdSet};
use crate::transactions::TxId;
use crate::types::{ChainWeight, Difficulty, HashID, Height, NetworkArgs};

pub mod fork_rules;
pub mod lca;
pub mod validation;
pub mod sync;

verus! {

#[derive(Debug, PartialEq, Eq)]
pub enum ChainErr {
    BadPoW(HashID, HashID),
    BlockRefsUnkParent(HashID, HashID, bool),
    BadParentOrder(String, (HashID, ChainWeight), (HashID, ChainWeight)),
    BadDifficulty,
    BadReflWeightInBlock,
    TsBeforeParent,
    BlockHeightInvalid,
    TxInParent { b: HashID, txid: HashID },
    ApplyErr(ChainApplyErr),
}

#[derive(Debug, PartialEq, Eq)]
pub enum ChainTxErr {
    Conflicting { new_id: HashID, existing_id: HashID },
}

#[derive(Debug, PartialEq, Eq)]
pub enum ChainApplyErr {
    Conflicting { new_id: HashID, existing_id: HashID },
}

/// The public and private value of some measure of a chain.
#[derive(Debug)]
pub struct Heights {
    pub public: Difficulty,
    pub private: Difficulty,
}

/// Used for LCA calculations
#[derive(PartialEq, Eq, PartialOrd, Ord, Clone, Copy, Debug)]
pub struct BInfo {
    pub id: HashID,
    pub weight: Difficulty,
    pub reflected_weight: Difficulty,
    pub chain_weight: Difficulty,
    pub local_chain_weight: Difficulty,
}

/// Used for tracking Daa2 metadata
#[derive(PartialEq, Eq, PartialOrd, Ord, Clone, Copy, Debug, Hash)]
pub struct Daa2Info {
    pub ts: u32,
    pub d: Difficulty,
}

/// One chain as a node sees it, publicly and privately: best blocks, chain heads, blocks seen,
/// and transactions waiting to be mined. The blocks themselves are in a [`BlockStore`].
pub struct Chain<B, F> {
    pub chain_id: HashID,
    pub best_blocks: IdSet,
    pub pub_chain_heads: ChainHeads,
    pub best_priv_blocks: IdSet,
    pub priv_chain_heads: ChainHeads,
    pub seen_pub_blocks: IdSet,
    pub seen_priv_blocks: IdSet,
    pub pub_mempool: IdSet,
    pub priv_mempool: IdSet,
    pub net_args: NetworkArgs,
    pub _phantom_f: PhantomData<F>,
    pub _phantom_b: PhantomData<B>,
}

/// `x` is in `u64`: the low 64 bits of `u` xor its high 64 bits.
pub open spec fn spec_conv_u128_id_to_u64(u: u128) -> u64 {
    ((u % 0x1_0000_0000_0000_0000) as u64) ^ ((u / 0x1_0000_0000_0000_0000) as u64)
}

/// Folds a 128-bit id into 64 bits by xoring its halves.
pub fn conv_u128_id_to_u64(u: u128) -> (r: u64)
    ensures
        r == spec_conv_u128_id_to_u64(u),
{
    let lo = (u % 0x1_0000_0000_0000_0000u128) as u64;
    let hi = (u / 0x1_0000_0000_0000_0000u128) as u64;
    lo ^ hi
}

impl<B: BlockT, F: ForkRules<B>> Chain<B, F> {
    pub open spec fn best_view(&self, is_private: bool) -> Set<HashID> {
        if is_private {
            self.best_priv_blocks@
        } else {
            self.best_blocks@
        }
    }

    pub open spec fn seen_view(&self, is_private: bool) -> Set<HashID> {
        if is_private {
            self.seen_priv_blocks@
        } else {
            self.seen_pub_blocks@
        }
    }

    pub open spec fn heads_view(&self, is_private: bool) -> Map<HashID, ChainWeight> {
        if is_private {
            self.priv_chain_heads@
        } else {
            self.pub_chain_heads@
        }
    }

    pub open spec fn mempool_view(&self, is_private: bool) -> Set<HashID> {
        if is_private {
            self.priv_mempool@
        } else {
            self.pub_mempool@
        }
    }

    /// The measure that the fork rule gives the stored block `id`.
    pub open spec fn measure_of(store: &BlockStore<B>, id: HashID) -> Difficulty {
        F::spec_fork_measure(store@[id].1)
    }

    /// The best blocks of one side: at least one, all stored, all of one measure.
    pub open spec fn best_ok(&self, store: &BlockStore<B>, is_private: bool) -> bool {
        &&& self.best_view(is_private).finite()
        &&& self.best_view(is_private).len() > 0
        &&& self.best_view(is_private).subset_of(store@.dom())
        &&& forall|x: HashID, y: HashID|
            #[trigger] self.best_view(is_private).contains(x) && #[trigger] self.best_view(is_private).contains(y)
                ==> Self::measure_of(store, x) == Self::measure_of(store, y)
    }

    /// `k` is a stored block of this chain.
    pub open spec fn in_chain(&self, store: &BlockStore<B>, k: HashID) -> bool {
        store@.contains_key(k) && rooted(store@, k, self.chain_id)
    }

    /// The measure that each best block of one side has.
    pub open spec fn best_measure(&self, store: &BlockStore<B>, is_private: bool) -> Difficulty {
        Self::measure_of(store, self.best_view(is_private).choose())
    }

    /// The chain's invariant against the store its blocks are in: the store is well formed,
    /// every block the chain knows of (seen, best, or a chain head) is a stored block of this
    /// chain, and each side has best blocks, all of one measure.
    pub open spec fn inv(&self, store: &BlockStore<B>) -> bool {
        &&& store.wf()
        &&& store.daa2_ok(self.net_args.daa2_n_blocks)
        &&& self.best_ok(store, false)
        &&& self.best_ok(store, true)
        &&& forall|p: bool, k: HashID| #[trigger] self.seen_view(p).contains(k) ==> self.in_chain(store, k)
        &&& forall|p: bool, k: HashID| #[trigger] self.best_view(p).contains(k) ==> self.in_chain(store, k)
        &&& forall|p: bool, k: HashID| #[trigger] self.heads_view(p).contains_key(k) ==> self.in_chain(store, k)
    }

    /// A chain's invariant survives the store it shares with other chains growing: every block
    /// it knows of stays stored, unchanged and in the chain.
    pub proof fn lemma_inv_extends(&self, s1: &BlockStore<B>, s2: &BlockStore<B>)
        requires
            self.inv(s1),
            extends(s1@, s2@),
            s2.wf(),
            s2.daa2_ok(self.net_args.daa2_n_blocks),
        ensures
            self.inv(s2),
    {
        assert forall|p: bool, k: HashID| #[trigger] self.seen_view(p).contains(k) implies self.in_chain(s2, k) by {
            lemma_rooted_extends(s1@, s2@, k, self.chain_id);
        }
        assert forall|p: bool, k: HashID| #[trigger] self.best_view(p).contains(k) implies self.in_chain(s2, k) by {
            lemma_rooted_extends(s1@, s2@, k, self.chain_id);
        }
        assert forall|p: bool, k: HashID| #[trigger] self.heads_view(p).contains_key(k) implies self.in_chain(s2, k) by {
            lemma_rooted_extends(s1@, s2@, k, self.chain_id);
        }
        assert forall|p: bool| #![auto] self.best_ok(s2, p) by {
            assert forall|x: HashID, y: HashID|
                #[trigger] self.best_view(p).contains(x) && #[trigger] self.best_view(p).contains(y)
                    implies Self::measure_of(s2, x) == Self::measure_of(s2, y) by {
                assert(Self::measure_of(s1, x) == Self::measure_of(s1, y));
            }
        }
        assert(self.best_ok(s2, false));
        assert(self.best_ok(s2, true));
    }

    /// A new chain: on each side its genesis block (stored, its own only parent, at height 0)
    /// is its only best block, only seen block and only chain head, and the mempool is empty.
    pub open spec fn is_fresh(&self, store: &BlockStore<B>) -> bool {
        &&& store@.contains_key(self.chain_id)
        &&& store@[self.chain_id].0.spec_parents() == seq![self.chain_id]
        &&& store@[self.chain_id].1.height == 0
        &&& forall|p: bool|
            #![auto]
            self.best_view(p) == set![self.chain_id] && self.seen_view(p) == set![self.chain_id] && self.heads_view(p).dom()
                == set![self.chain_id] && self.mempool_view(p) == Set::<HashID>::empty()
    }

    /// A new chain stays new as the store grows.
    pub proof fn lemma_fresh_extends(&self, s1: &BlockStore<B>, s2: &BlockStore<B>)
        requires
            self.is_fresh(s1),
            extends(s1@, s2@),
        ensures
            self.is_fresh(s2),
    {
    }

    /// A chain whose only block is `genesis`, which is stored (unless its id is stored already).
    pub fn new(genesis: B, genesis_meta: BlockMD, net_args: NetworkArgs, store: &mut BlockStore<B>) -> (r: Self)
        requires
            old(store).wf(),
            old(store).daa2_ok(net_args.daa2_n_blocks),
            old(store).daa2_view().contains_key(genesis.spec_id()),
            genesis.spec_parents() == seq![genesis.spec_id()],
            genesis.spec_height() == 0,
            genesis_meta.height == 0,
            old(store)@.contains_key(genesis.spec_id()) ==> old(store)@[genesis.spec_id()].0.spec_parents() == seq![
                genesis.spec_id(),
            ],
        ensures
            final(store)@ == (if old(store)@.contains_key(genesis.spec_id()) {
                old(store)@
            } else {
                old(store)@.insert(genesis.spec_id(), (genesis, genesis_meta))
            }),
            final(store).daa2_view() == old(store).daa2_view(),
            r.chain_id == genesis.spec_id(),
            r.best_blocks@ == set![genesis.spec_id()],
            r.best_priv_blocks@ == set![genesis.spec_id()],
            r.seen_pub_blocks@ == set![genesis.spec_id()],
            r.seen_priv_blocks@ == set![genesis.spec_id()],
            r.pub_chain_heads@ == map![genesis.spec_id() => genesis.spec_difficulty()],
            r.priv_chain_heads@ == map![genesis.spec_id() => genesis.spec_difficulty()],
            r.pub_mempool@ == Set::<HashID>::empty(),
            r.priv_mempool@ == Set::<HashID>::empty(),
            r.net_args == net_args,
            r.inv(&*final(store)),
            r.is_fresh(&*final(store)),
    {
        let g_hash = genesis.get_hash();
        let g_diff = genesis.get_difficulty();
        if !store.contains(g_hash) {
            proof {
                let m2 = old(store)@.insert(g_hash, (genesis, genesis_meta));
                assert forall|k: HashID| #[trigger] m2.contains_key(k) implies block_wf(m2, k) by {
                    if k != g_hash {
                        assert(block_wf(old(store)@, k));
                        let b = old(store)@[k].0;
                        assert forall|i: int| 0 <= i < b.spec_parents().len() implies m2.contains_key(#[trigger] b.spec_parents()[i]) by {
                            assert(old(store)@.contains_key(b.spec_parents()[i]));
                        }
                    }
                }
            }
            store.insert((genesis, genesis_meta));
        }
        let r = Chain {
            chain_id: g_hash,
            best_blocks: IdSet::singleton(g_hash),
            best_priv_blocks: IdSet::singleton(g_hash),
            seen_pub_blocks: IdSet::singleton(g_hash),
            seen_priv_blocks: IdSet::singleton(g_hash),
            priv_chain_heads: ChainHeads::singleton(g_hash, g_diff),
            pub_chain_heads: ChainHeads::singleton(g_hash, g_diff),
            pub_mempool: IdSet::new(),
            priv_mempool: IdSet::new(),
            net_args,
            _phantom_b: PhantomData,
            _phantom_f: PhantomData,
        };
        proof {
            assert(set![g_hash].len() == 1);
            assert(map![g_hash => g_diff].dom() =~= set![g_hash]);
            lemma_genesis_rooted(store@, g_hash);
            assert(block_wf(store@, g_hash));
            assert(map![g_hash => g_diff].dom() =~= set![g_hash]);
        }
        r
    }

    /// A copy of the chain: the same chain id, sets, mempools and network arguments.
    pub fn copy(&self) -> (r: Self)
        ensures
            r.chain_id == self.chain_id,
            r.net_args == self.net_args,
            forall|p: bool| #![auto] r.best_view(p) == self.best_view(p),
            forall|p: bool| #![auto] r.seen_view(p) == self.seen_view(p),
            forall|p: bool| #![auto] r.heads_view(p) == self.heads_view(p),
            forall|p: bool| #![auto] r.mempool_view(p) == self.mempool_view(p),
    {
        Chain {
            chain_id: self.chain_id,
            best_blocks: self.best_blocks.copy(),
            pub_chain_heads: self.pub_chain_heads.copy(),
            best_priv_blocks: self.best_priv_blocks.copy(),
            priv_chain_heads: self.priv_chain_heads.copy(),
            seen_pub_blocks: self.seen_pub_blocks.copy(),
            seen_priv_blocks: self.seen_priv_blocks.copy(),
            pub_mempool: self.pub_mempool.copy(),
            priv_mempool: self.priv_mempool.copy(),
            net_args: self.net_args,
            _phantom_f: PhantomData,
            _phantom_b: PhantomData,
        }
    }

    /// A copy keeps the chain's invariant.
    pub proof fn lemma_copy_inv(&self, c: &Self, store: &BlockStore<B>)
        requires
            self.inv(store),
            c.chain_id == self.chain_id,
            c.net_args == self.net_args,
            forall|p: bool| #![auto] c.best_view(p) == self.best_view(p),
            forall|p: bool| #![auto] c.seen_view(p) == self.seen_view(p),
            forall|p: bool| #![auto] c.heads_view(p) == self.heads_view(p),
        ensures
            c.inv(store),
    {
        assert(c.best_view(false) == self.best_view(false));
        assert(c.best_view(true) == self.best_view(true));
        assert forall|p: bool, k: HashID| #[trigger] c.seen_view(p).contains(k) implies c.in_chain(store, k) by {
            assert(self.seen_view(p).contains(k));
        }
        assert forall|p: bool, k: HashID| #[trigger] c.best_view(p).contains(k) implies c.in_chain(store, k) by {
            assert(self.best_view(p).contains(k));
        }
        assert forall|p: bool, k: HashID| #[trigger] c.heads_view(p).contains_key(k) implies c.in_chain(store, k) by {
            assert(self.heads_view(p).contains_key(k));
        }
    }

    pub fn get_chain_id(&self) -> (r: HashID)
        ensures
            r == self.chain_id,
    {
        self.chain_id
    }

    pub fn get_best_blocks(&self, is_private: bool) -> (r: &IdSet)
        ensures
            r@ == self.best_view(is_private),
    {
        if is_private {
            &self.best_priv_blocks
        } else {
            &self.best_blocks
        }
    }

    pub fn get_seen_blocks(&self, is_private: bool) -> (r: &IdSet)
        ensures
            r@ == self.seen_view(is_private),
    {
        if is_private {
            &self.seen_priv_blocks
        } else {
            &self.seen_pub_blocks
        }
    }

    pub fn get_chain_heads(&self, is_private: bool) -> (r: &ChainHeads)
        ensures
            r@ == self.heads_view(is_private),
    {
        if is_private {
            &self.priv_chain_heads
        } else {
            &self.pub_chain_heads
        }
    }

    pub fn get_mempool_tx_ids(&self, is_private: bool) -> (r: &IdSet)
        ensures
            r@ == self.mempool_view(is_private),
    {
        if is_private {
            &self.priv_mempool
        } else {
            &self.pub_mempool
        }
    }

    /// Adds `tx_id` to one mempool; always `Ok`.
    pub fn add_tx_to_mempool(&mut self, tx_id: TxId, is_private: bool) -> (r: Result<(), ChainTxErr>)
        ensures
            r is Ok,
            final(self).mempool_view(is_private) == old(self).mempool_view(is_private).insert(tx_id),
            final(self).mempool_view(!is_private) == old(self).mempool_view(!is_private),
            final(self).chain_id == old(self).chain_id,
            final(self).net_args == old(self).net_args,
            forall|p: bool| #![auto] final(self).best_view(p) == old(self).best_view(p),
            forall|p: bool| #![auto] final(self).seen_view(p) == old(self).seen_view(p),
            forall|p: bool| #![auto] final(self).heads_view(p) == old(self).heads_view(p),
    {
        if is_private {
            self.priv_mempool.insert(tx_id);
        } else {
            self.pub_mempool.insert(tx_id);
        }
        Ok(())
    }

    /// Removes each of `tx_ids` from one mempool.
    pub fn remove_mempool_tx_ids(&mut self, tx_ids: &Vec<HashID>, is_private: bool)
        ensures
            final(self).mempool_view(is_private) == old(self).mempool_view(is_private).difference(tx_ids@.to_set()),
            final(self).mempool_view(!is_private) == old(self).mempool_view(!is_private),
            final(self).chain_id == old(self).chain_id,
            final(self).net_args == old(self).net_args,
            forall|p: bool| #![auto] final(self).best_view(p) == old(self).best_view(p),
            forall|p: bool| #![auto] final(self).seen_view(p) == old(self).seen_view(p),
            forall|p: bool| #![auto] final(self).heads_view(p) == old(self).heads_view(p),
    {
        let mut i: usize = 0;
        while i < tx_ids.len()
            invariant
                i <= tx_ids.len(),
                self.mempool_view(is_private) == old(self).mempool_view(is_private).difference(tx_ids@.take(i as int).to_set()),
                self.mempool_view(!is_private) == old(self).mempool_view(!is_private),
                self.chain_id == old(self).chain_id,
                self.net_args == old(self).net_args,
                forall|p: bool| #![auto] self.best_view(p) == old(self).best_view(p),
                forall|p: bool| #![auto] self.seen_view(p) == old(self).seen_view(p),
                forall|p: bool| #![auto] self.heads_view(p) == old(self).heads_view(p),
            decreases tx_ids.len() - i,
        {
            proof {
                assert(tx_ids@.take(i + 1) =~= tx_ids@.take(i as int).push(tx_ids@[i as int]));
                crate::collections::lemma_push_to_set(tx_ids@.take(i as int), tx_ids@[i as int]);
            }
            if is_private {
                self.priv_mempool.remove(tx_ids[i]);
            } else {
                self.pub_mempool.remove(tx_ids[i]);
            }
            assert(self.mempool_view(is_private) =~= old(self).mempool_view(is_private).difference(tx_ids@.take(i + 1).to_set()));
            i += 1;
        }
        assert(tx_ids@.take(tx_ids.len() as int) =~= tx_ids@);
    }

    /// Records `b_id` as seen on one side.
    pub fn update_seen_blocks(&mut self, b_id: HashID, is_private: bool)
        ensures
            final(self).seen_view(is_private) == old(self).seen_view(is_private).insert(b_id),
            final(self).seen_view(!is_private) == old(self).seen_view(!is_private),
            final(self).chain_id == old(self).chain_id,
            final(self).net_args == old(self).net_args,
            forall|p: bool| #![auto] final(self).best_view(p) == old(self).best_view(p),
            forall|p: bool| #![auto] final(self).heads_view(p) == old(self).heads_view(p),
            forall|p: bool| #![auto] final(self).mempool_view(p) == old(self).mempool_view(p),
    {
        if is_private {
            self.seen_priv_blocks.insert(b_id);
        } else {
            self.seen_pub_blocks.insert(b_id);
        }
    }

    /// The parents of `b` stop being chain heads; `b` becomes one, with its chain weight.
    pub fn update_chain_heads(&mut self, b: &B, b_meta: &BlockMD, is_private: bool)
        ensures
            final(self).heads_view(is_private) == old(self).heads_view(is_private).remove_keys(
                b.spec_parents().to_set(),
            ).insert(b.spec_id(), b_meta.chain_weight),
            final(self).heads_view(!is_private) == old(self).heads_view(!is_private),
            final(self).chain_id == old(self).chain_id,
            final(self).net_args == old(self).net_args,
            forall|p: bool| #![auto] final(self).best_view(p) == old(self).best_view(p),
            forall|p: bool| #![auto] final(self).seen_view(p) == old(self).seen_view(p),
            forall|p: bool| #![auto] final(self).mempool_view(p) == old(self).mempool_view(p),
    {
        let ps = b.all_parents();
        let mut i: usize = 0;
        while i < ps.len()
            invariant
                i <= ps.len(),
                ps@ == b.spec_parents(),
                self.heads_view(is_private) == old(self).heads_view(is_private).remove_keys(ps@.take(i as int).to_set()),
                self.heads_view(!is_private) == old(self).heads_view(!is_private),
                self.chain_id == old(self).chain_id,
                self.net_args == old(self).net_args,
                forall|p: bool| #![auto] self.best_view(p) == old(self).best_view(p),
                forall|p: bool| #![auto] self.seen_view(p) == old(self).seen_view(p),
                forall|p: bool| #![auto] self.mempool_view(p) == old(self).mempool_view(p),
            decreases ps.len() - i,
        {
            proof {
                assert(ps@.take(i + 1) =~= ps@.take(i as int).push(ps@[i as int]));
                crate::collections::lemma_push_to_set(ps@.take(i as int), ps@[i as int]);
            }
            if is_private {
                self.priv_chain_heads.remove(ps[i]);
            } else {
                self.pub_chain_heads.remove(ps[i]);
            }
            assert(self.heads_view(is_private) =~= old(self).heads_view(is_private).remove_keys(ps@.take(i + 1).to_set()));
            i += 1;
        }
        assert(ps@.take(ps.len() as int) =~= ps@);
        let id = b.get_hash();
        if is_private {
            self.priv_chain_heads.insert(id, b_meta.chain_weight);
        } else {
            self.pub_chain_heads.insert(id, b_meta.chain_weight);
        }
    }

    /// The measure the fork rule gives the best blocks of each side.
    pub fn get_fork_measure_pub_priv(&self, store: &BlockStore<B>) -> (r: Heights)
        requires
            self.inv(store),
        ensures
            r.public == self.best_measure(store, false),
            r.private == self.best_measure(store, true),
    {
        let pb = self.get_any_best_block(store, false);
        let sb = self.get_any_best_block(store, true);
        proof {
            vstd::set::axiom_set_choose_len(self.best_view(false));
            vstd::set::axiom_set_choose_len(self.best_view(true));
        }
        Heights { public: F::fork_measure(&pb.1), private: F::fork_measure(&sb.1) }
    }

    /// The height of a best block of each side (one chosen at random where best blocks differ
    /// in height).
    pub fn get_heights_pub_priv(&self, store: &BlockStore<B>) -> (r: Heights)
        requires
            self.inv(store),
        ensures
            exists|x: HashID| #[trigger] self.best_view(false).contains(x) && r.public == store@[x].1.height,
            exists|x: HashID| #[trigger] self.best_view(true).contains(x) && r.private == store@[x].1.height,
    {
        let pb = self.get_any_best_block(store, false);
        let sb = self.get_any_best_block(store, true);
        Heights { public: pb.1.height as Difficulty, private: sb.1.height as Difficulty }
    }

    /// The side's best blocks after `id`, whose metadata is `md`, competes with them: it
    /// replaces them if its measure is greater, joins them if equal, and changes nothing if
    /// smaller.
    pub open spec fn best_after(&self, store: &BlockStore<B>, is_private: bool, id: HashID, md: BlockMD) -> Set<HashID> {
        let mb = F::spec_fork_measure(md);
        let mm = self.best_measure(store, is_private);
        if mb > mm {
            set![id]
        } else if mb == mm {
            self.best_view(is_private).insert(id)
        } else {
            self.best_view(is_private)
        }
    }

    /// Lets the stored block `b` compete with one side's best blocks (see [`Self::best_after`]).
    pub fn update_best_block(&mut self, store: &BlockStore<B>, b: &B, b_meta: &BlockMD, is_private: bool)
        requires
            old(self).inv(store),
            old(self).in_chain(store, b.spec_id()),
            store@[b.spec_id()].1 == *b_meta,
        ensures
            final(self).best_view(is_private) == old(self).best_after(store, is_private, b.spec_id(), *b_meta),
            final(self).best_view(!is_private) == old(self).best_view(!is_private),
            final(self).chain_id == old(self).chain_id,
            final(self).net_args == old(self).net_args,
            forall|p: bool| #![auto] final(self).seen_view(p) == old(self).seen_view(p),
            forall|p: bool| #![auto] final(self).heads_view(p) == old(self).heads_view(p),
            forall|p: bool| #![auto] final(self).mempool_view(p) == old(self).mempool_view(p),
            final(self).inv(store),
    {
        let bb = self.get_any_best_block(store, is_private);
        let b_id = b.get_hash();
        let ghost mb = F::spec_fork_measure(*b_meta);
        proof {
            let c = old(self).best_view(is_private).choose();
            vstd::set::axiom_set_choose_len(old(self).best_view(is_private));
            assert(Self::measure_of(store, bb.0.spec_id()) == Self::measure_of(store, c));
        }
        let res = F::best_of((b, b_meta), (&bb.0, &bb.1));
        match res {
            ForkResult::BestBlock(x) => {
                if x.get_hash() == b_id {
                    if is_private {
                        self.best_priv_blocks.clear();
                        self.best_priv_blocks.insert(b_id);
                    } else {
                        self.best_blocks.clear();
                        self.best_blocks.insert(b_id);
                    }
                    proof {
                        assert(mb > self.best_measure(store, is_private) || mb > old(self).best_measure(store, is_private));
                        assert(self.best_view(is_private) =~= set![b_id]);
                        assert(set![b_id].len() == 1);
                    }
                }
            },
            ForkResult::BlocksEq => {
                if is_private {
                    self.best_priv_blocks.insert(b_id);
                } else {
                    self.best_blocks.insert(b_id);
                }
            },
        }
        proof {
            let mm = old(self).best_measure(store, is_private);
            let ob = old(self).best_view(is_private);
            assert(Self::measure_of(store, b_id) == mb);
            if mb > mm {
                assert(self.best_view(is_private) =~= set![b_id]);
            } else if mb == mm {
                assert(self.best_view(is_private) =~= ob.insert(b_id));
                assert forall|x: HashID, y: HashID|
                    #[trigger] self.best_view(is_private).contains(x) && #[trigger] self.best_view(is_private).contains(y)
                        implies Self::measure_of(store, x) == Self::measure_of(store, y) by {
                    if x != b_id {
                        assert(ob.contains(x));
                        assert(Self::measure_of(store, x) == mm);
                    }
                    if y != b_id {
                        assert(ob.contains(y));
                        assert(Self::measure_of(store, y) == mm);
                    }
                }
                assert(ob.insert(b_id).len() >= ob.len());
                assert(self.best_ok(store, is_private));
            } else {
                assert(self.best_view(is_private) =~= ob);
            }
            assert(self.best_ok(store, is_private));
            assert(self.best_view(!is_private) == old(self).best_view(!is_private));
            assert(self.best_ok(store, !is_private));
            assert forall|p: bool, k: HashID| #[trigger] self.seen_view(p).contains(k) implies self.in_chain(store, k) by {
                assert(old(self).seen_view(p).contains(k));
            }
            assert forall|p: bool, k: HashID| #[trigger] self.heads_view(p).contains_key(k) implies self.in_chain(store, k) by {
                assert(old(self).heads_view(p).contains_key(k));
            }
            assert forall|p: bool, k: HashID| #[trigger] self.best_view(p).contains(k) implies self.in_chain(store, k) by {
                if p != is_private {
                    assert(old(self).best_view(p).contains(k));
                }
                else if k != b_id {
                    assert(old(self).best_view(p).contains(k));
                }
            }
        }
    }

    /// Lets the stored block `id` compete with one side's best blocks; always `Ok`.
    pub fn notify_block(&mut self, store: &BlockStore<B>, id: HashID, is_private: bool) -> (r: Result<(), ChainErr>)
        requires
            old(self).inv(store),
            old(self).in_chain(store, id),
        ensures
            r is Ok,
            final(self).best_view(is_private) == old(self).best_after(store, is_private, id, store@[id].1),
            final(self).best_view(!is_private) == old(self).best_view(!is_private),
            final(self).chain_id == old(self).chain_id,
            final(self).net_args == old(self).net_args,
            forall|p: bool| #![auto] final(self).seen_view(p) == old(self).seen_view(p),
            forall|p: bool| #![auto] final(self).heads_view(p) == old(self).heads_view(p),
            forall|p: bool| #![auto] final(self).mempool_view(p) == old(self).mempool_view(p),
            final(self).inv(store),
    {
        let e = store.get(id).unwrap();
        proof {
            assert(block_wf(store@, id));
        }
        self.update_best_block(store, &e.0, &e.1, is_private);
        Ok(())
    }

    /// Applies the block's transactions: they leave the side's mempool; always `Ok`.
    pub fn apply_block(&mut self, b: &B, is_private: bool) -> (r: Result<(), ChainApplyErr>)
        ensures
            r is Ok,
            final(self).mempool_view(is_private) == old(self).mempool_view(is_private).difference(b.spec_txs().to_set()),
            final(self).mempool_view(!is_private) == old(self).mempool_view(!is_private),
            final(self).chain_id == old(self).chain_id,
            final(self).net_args == old(self).net_args,
            forall|p: bool| #![auto] final(self).best_view(p) == old(self).best_view(p),
            forall|p: bool| #![auto] final(self).seen_view(p) == old(self).seen_view(p),
            forall|p: bool| #![auto] final(self).heads_view(p) == old(self).heads_view(p),
    {
        self.remove_mempool_tx_ids(b.get_transactions(), is_private);
        Ok(())
    }

    /// Checks that this side has seen every parent of `b`; the error names the first unseen one.
    pub fn validate_block_local(&self, b: &B, is_private: bool) -> (r: Result<(), ChainErr>)
        ensures
            match r {
                Ok(()) => forall|i: int| 0 <= i < b.spec_parents().len() ==> self.seen_view(is_private).contains(#[trigger] b.spec_parents()[i]),
                Err(e) => exists|i: int| 0 <= i < b.spec_parents().len()
                    && !self.seen_view(is_private).contains(#[trigger] b.spec_parents()[i])
                    && (forall|j: int| 0 <= j < i ==> self.seen_view(is_private).contains(#[trigger] b.spec_parents()[j]))
                    && e == ChainErr::BlockRefsUnkParent(b.spec_id(), b.spec_parents()[i], is_private),
            },
    {
        let ps = b.all_parents();
        let seen = self.get_seen_blocks(is_private);
        let mut i: usize = 0;
        while i < ps.len()
            invariant
                i <= ps.len(),
                ps@ == b.spec_parents(),
                seen@ == self.seen_view(is_private),
                forall|j: int| 0 <= j < i ==> self.seen_view(is_private).contains(#[trigger] b.spec_parents()[j]),
            decreases ps.len() - i,
        {
            if !seen.contains(ps[i]) {
                return Err(ChainErr::BlockRefsUnkParent(b.get_hash(), ps[i], is_private));
            }
            i += 1;
        }
        Ok(())
    }

    /// A new block for one side: on a best block (for a DAG, on the best blocks and then every
    /// chain head, heaviest first, each once; see [`BlockT::parents_from`]), with the
    /// difficulty its first parent calls for, holding every transaction of the side's mempool
    /// (its reflections adding to its reflected and chain weight). Its id is random.
    pub fn draft_block(&self, store: &BlockStore<B>, tx_cache: &TxCache, ts: u32, is_private: bool) -> (r: B)
        requires
            self.inv(store),
        ensures
            r.spec_parents().len() > 0,
            self.best_view(is_private).contains(r.spec_parents()[0]),
            forall|i: int|
                0 <= i < r.spec_parents().len() ==> self.best_view(is_private).contains(#[trigger] r.spec_parents()[i])
                    || self.heads_view(is_private).contains_key(r.spec_parents()[i]),
            r.spec_parents().no_duplicates(),
            exists|opts: Seq<HashID>|
                opts.no_duplicates() && opts.to_set() == self.best_view(is_private) && #[trigger] B::parents_from(
                    opts,
                    self.heads_view(is_private),
                    r.spec_parents(),
                ),
            r.spec_ts() == ts,
            r.spec_chain_id() == self.chain_id,
            r.spec_height() == height_after(store, r.spec_parents()[0]),
            r.spec_difficulty() == spec_next_difficulty(
                store,
                self.net_args,
                store@[r.spec_parents()[0]].0,
                store@[r.spec_parents()[0]].1,
            ),
            r.spec_txs().no_duplicates(),
            r.spec_txs().to_set() == self.mempool_view(is_private),
            r.spec_refl_weight() == refl_sum(r.spec_txs(), tx_cache@, self.chain_id),
            r.spec_chain_weight() == refl_sum(r.spec_txs(), tx_cache@, self.chain_id),
    {
        let opts = self.get_best_blocks(is_private).to_vec();
        proof {
            vstd::set::axiom_set_choose_len(self.best_view(is_private));
            assert(opts@.to_set().contains(self.best_view(is_private).choose()));
        }
        let mut b = B::new_from(ts, &opts, self.get_chain_heads(is_private), 0, self.chain_id, 0, store);
        let p_id = b.prev();
        proof {
            assert(opts@.contains(p_id));
            assert(opts@.to_set().contains(p_id));
        }
        let p = store.get(p_id).unwrap();
        let d = self.next_difficulty(store, &p.0, &p.1);
        b.set_difficulty(d);
        let mem = self.get_mempool_tx_ids(is_private).to_vec();
        proof {
            crate::collections::lemma_dedup_distinct(mem@);
            crate::block::lemma_added_fresh(mem@, tx_cache@, self.chain_id);
            assert(b.spec_txs() == Seq::<TxId>::empty());
            assert forall|i: int| 0 <= i < b.spec_parents().len() implies self.best_view(is_private).contains(#[trigger] b.spec_parents()[i])
                || self.heads_view(is_private).contains_key(b.spec_parents()[i]) by {
                if opts@.contains(b.spec_parents()[i]) {
                    assert(opts@.to_set().contains(b.spec_parents()[i]));
                }
            }
        }
        b.add_transactions(mem, tx_cache);
        b
    }

    /// Each best block of one side, with its stored block and metadata.
    pub fn get_best_blocks_md<'a>(&self, store: &'a BlockStore<B>, is_private: bool) -> (r: Vec<(HashID, &'a (B, BlockMD))>)
        requires
            self.inv(store),
        ensures
            r@.map_values(|e: (HashID, &(B, BlockMD))| e.0).no_duplicates(),
            r@.map_values(|e: (HashID, &(B, BlockMD))| e.0).to_set() == self.best_view(is_private),
            forall|i: int| 0 <= i < r@.len() ==> store@.contains_key(#[trigger] r@[i].0) && store@[r@[i].0] == *r@[i].1,
    {
        let ids = self.get_best_blocks(is_private).to_vec();
        let mut out: Vec<(HashID, &'a (B, BlockMD))> = Vec::new();
        let mut j: usize = 0;
        while j < ids.len()
            invariant
                self.inv(store),
                j <= ids.len(),
                ids@.to_set() == self.best_view(is_private),
                out@.len() == j,
                forall|t: int| 0 <= t < j ==> #[trigger] out@[t].0 == ids@[t] && store@.contains_key(ids@[t]) && store@[ids@[t]] == *out@[t].1,
            decreases ids.len() - j,
        {
            proof {
                assert(ids@.to_set().contains(ids@[j as int]));
            }
            let e = store.get(ids[j]).unwrap();
            out.push((ids[j], e));
            j += 1;
        }
        proof {
            let oid = out@.map_values(|e: (HashID, &(B, BlockMD))| e.0);
            assert(oid =~= ids@) by {
                assert forall|t: int| 0 <= t < oid.len() implies oid[t] == ids@[t] by {
                    assert(out@[t].0 == ids@[t]);
                }
            }
        }
        out
    }

    /// The common ancestor of `bs` and the blocks between them and it, level by level (see
    /// [`lca_spec`]).
    pub fn find_lca_and_intermediates(&self, store: &BlockStore<B>, bs: &Vec<HashID>) -> (r: Option<(HashID, HashMap<Height, Vec<BInfo>>)>)
        requires
            store.wf(),
        ensures
            match (r, lca_spec(store@, bs@)) {
                (Some(x), Some(s)) => x.0 == s.0 && levels_match(store@, x.1@, s.1),
                (None, None) => true,
                _ => false,
            },
            r matches Some(x) ==> forall|i: int| 0 <= i < bs@.len() ==> ancestors(store@, #[trigger] bs@[i], Set::empty()).contains(x.0),
    {
        proof {
            lemma_lca_is_common_ancestor(store@, bs@);
        }
        lca_and_intermediates(store, bs)
    }

    /// The chain weight recorded for the stored block `b`.
    pub fn get_chain_weight_at(&self, store: &BlockStore<B>, b: HashID) -> (r: Difficulty)
        requires
            store@.contains_key(b),
        ensures
            r == store@[b].1.chain_weight,
    {
        match store.get(b) {
            Some(e) => e.1.chain_weight,
            None => 0,
        }
    }

    /// The target a block's id must not exceed at difficulty `d`.
    pub fn target_from_difficulty(&self, d: Difficulty) -> (r: HashID)
        requires
            d > 0,
        ensures
            r == u64::MAX / d,
    {
        u64::MAX / d
    }

    /// One of the best blocks of one side, chosen at random.
    pub fn select_best_block(&self, is_private: bool) -> (r: HashID)
        requires
            self.best_view(is_private).len() > 0,
            self.best_view(is_private).finite(),
        ensures
            self.best_view(is_private).contains(r),
    {
        let v = self.get_best_blocks(is_private).to_vec();
        proof {
            if v@.len() == 0 {
                assert(v@.to_set() =~= Set::<HashID>::empty());
            }
        }
        let r = B::select_parent_from(&v);
        r
    }

    /// One of the best blocks of one side, chosen at random, with its metadata.
    pub fn get_any_best_block<'a>(&self, store: &'a BlockStore<B>, is_private: bool) -> (r: &'a (B, BlockMD))
        requires
            self.inv(store),
        ensures
            self.best_view(is_private).contains(r.0.spec_id()),
            store@.contains_key(r.0.spec_id()),
            store@[r.0.spec_id()] == *r,
    {
        let id = self.select_best_block(is_private);
        let e = store.get(id).unwrap();
        proof {
            assert(block_wf(store@, id));
        }
        e
    }
}

} // verus!
