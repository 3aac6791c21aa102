use vstd::prelude::*;
use std::collections::HashMap;
use core::cmp::Ordering;
use crate::block_metadata::BlockMD;
use crate::collections::{dedup, sorted_heaviest_first, unique, ChainHeads, IdSet};
use crate::hash::{be_bytes_u64, hash_u64, xxh3_64};
use crate::rng::{choose_id, random_u64};
use crate::transactions::{spec_reflected_weight2, Transaction, TxCache, TxId};
use crate::types::{Difficulty, HashID, Height};

verus! {

broadcast use vstd::std_specs::hash::group_hash_axioms;

/// `a + b`, or `u64::MAX` where that does not fit.
pub open spec fn sat_add(a: u64, b: u64) -> u64 {
    if a + b > u64::MAX {
        u64::MAX
    } else {
        (a + b) as u64
    }
}

/// The id that the nonce increment gives a block whose id was `id`.
pub open spec fn next_nonce_id(id: HashID) -> HashID {
    xxh3_64(be_bytes_u64(((id + 1337) % 0x1_0000_0000_0000_0000) as u64))
}

/// The blocks a simulation builds on: one parent (`Block`) or several (`DagBlock`).
pub trait BlockT: Sized {
    spec fn spec_id(&self) -> HashID;

    /// All parents, the first one being the one `prev` names.
    spec fn spec_parents(&self) -> Seq<HashID>;

    spec fn spec_ts(&self) -> u32;

    spec fn spec_difficulty(&self) -> Difficulty;

    spec fn spec_height(&self) -> Height;

    spec fn spec_chain_id(&self) -> HashID;

    spec fn spec_txs(&self) -> Seq<TxId>;

    spec fn spec_refl_weight(&self) -> Difficulty;

    spec fn spec_chain_weight(&self) -> Difficulty;

    /// The (ancestor, reflecting chain) pairs recorded on this block, in order.
    spec fn spec_refl_ancestors(&self) -> Seq<(HashID, HashID)>;

    /// `ps` are the parents a new block drafted from the options `opts` and the chain heads
    /// `heads` gets (see [`BlockT::new_from`]).
    spec fn parents_from(opts: Seq<HashID>, heads: Map<HashID, u64>, ps: Seq<HashID>) -> bool;

    /// A block whose only parent is `parent`, with a random id, one above its parent's
    /// height (height 0 when the parent is unknown).
    fn new(ts: u32, parent: HashID, d: Difficulty, chain_id: HashID, cw: Difficulty, store: &BlockStore<Self>) -> (r: Self)
        ensures
            r.spec_parents() == seq![parent],
            r.spec_ts() == ts,
            r.spec_difficulty() == d,
            r.spec_chain_id() == chain_id,
            r.spec_chain_weight() == cw,
            r.spec_refl_weight() == 0,
            r.spec_txs() == Seq::<TxId>::empty(),
            r.spec_height() == (if store@.contains_key(parent) {
                if store@[parent].0.spec_height() == u32::MAX {
                    u32::MAX
                } else {
                    (store@[parent].0.spec_height() + 1) as u32
                }
            } else {
                0
            }),
    ;

    /// A block built on some of `parent_opts` (and, for a DAG, on the chain heads too).
    fn new_from(
        ts: u32,
        parent_opts: &Vec<HashID>,
        chain_heads: &ChainHeads,
        d: Difficulty,
        chain_id: HashID,
        cw: Difficulty,
        store: &BlockStore<Self>,
    ) -> (r: Self)
        requires
            parent_opts@.len() > 0,
        ensures
            r.spec_parents().len() > 0,
            parent_opts@.contains(r.spec_parents()[0]),
            forall|i: int|
                0 <= i < r.spec_parents().len() ==> parent_opts@.contains(#[trigger] r.spec_parents()[i])
                    || chain_heads@.dom().contains(r.spec_parents()[i]),
            r.spec_parents().no_duplicates(),
            Self::parents_from(parent_opts@, chain_heads@, r.spec_parents()),
            r.spec_ts() == ts,
            r.spec_difficulty() == d,
            r.spec_chain_id() == chain_id,
            r.spec_chain_weight() == cw,
            r.spec_refl_weight() == 0,
            r.spec_txs() == Seq::<TxId>::empty(),
            r.spec_height() == (if store@.contains_key(r.spec_parents()[0]) {
                if store@[r.spec_parents()[0]].0.spec_height() == u32::MAX {
                    u32::MAX
                } else {
                    (store@[r.spec_parents()[0]].0.spec_height() + 1) as u32
                }
            } else {
                0
            }),
    ;

    /// A genesis block: a random id (shifted right by 10 bits) that is its own parent and its
    /// own chain id, at height 0.
    fn genesis(ts: u32) -> (r: Self)
        ensures
            r.spec_parents() == seq![r.spec_id()],
            r.spec_chain_id() == r.spec_id(),
            r.spec_height() == 0,
            r.spec_ts() == ts,
            r.spec_difficulty() == 0,
            r.spec_chain_weight() == 0,
            r.spec_refl_weight() == 0,
            r.spec_txs() == Seq::<TxId>::empty(),
            r.spec_id() < 0x40_0000_0000_0000,
    ;

    fn get_hash(&self) -> (r: HashID)
        ensures
            r == self.spec_id(),
    ;

    /// The first parent.
    fn prev(&self) -> (r: HashID)
        requires
            self.spec_parents().len() > 0,
        ensures
            r == self.spec_parents()[0],
    ;

    fn all_parents(&self) -> (r: Vec<HashID>)
        ensures
            r@ == self.spec_parents(),
    ;

    fn get_ts(&self) -> (r: u32)
        ensures
            r == self.spec_ts(),
    ;

    fn set_ts(&mut self, ts: u32)
        ensures
            final(self).spec_id() == old(self).spec_id(),
            final(self).spec_parents() == old(self).spec_parents(),
            final(self).spec_difficulty() == old(self).spec_difficulty(),
            final(self).spec_height() == old(self).spec_height(),
            final(self).spec_chain_id() == old(self).spec_chain_id(),
            final(self).spec_txs() == old(self).spec_txs(),
            final(self).spec_refl_weight() == old(self).spec_refl_weight(),
            final(self).spec_chain_weight() == old(self).spec_chain_weight(),
            final(self).spec_refl_ancestors() == old(self).spec_refl_ancestors(),
            final(self).spec_ts() == ts,
    ;

    /// Simulates a new proof-of-work attempt: the id becomes the hash of the old id plus 1337.
    fn increment_nonce(&mut self)
        ensures
            final(self).spec_parents() == old(self).spec_parents(),
            final(self).spec_ts() == old(self).spec_ts(),
            final(self).spec_difficulty() == old(self).spec_difficulty(),
            final(self).spec_height() == old(self).spec_height(),
            final(self).spec_chain_id() == old(self).spec_chain_id(),
            final(self).spec_txs() == old(self).spec_txs(),
            final(self).spec_refl_weight() == old(self).spec_refl_weight(),
            final(self).spec_chain_weight() == old(self).spec_chain_weight(),
            final(self).spec_refl_ancestors() == old(self).spec_refl_ancestors(),
            final(self).spec_id() == next_nonce_id(old(self).spec_id()),
    ;

    fn get_difficulty(&self) -> (r: Difficulty)
        ensures
            r == self.spec_difficulty(),
    ;

    fn set_difficulty(&mut self, d: Difficulty)
        ensures
            final(self).spec_id() == old(self).spec_id(),
            final(self).spec_parents() == old(self).spec_parents(),
            final(self).spec_ts() == old(self).spec_ts(),
            final(self).spec_height() == old(self).spec_height(),
            final(self).spec_chain_id() == old(self).spec_chain_id(),
            final(self).spec_txs() == old(self).spec_txs(),
            final(self).spec_refl_weight() == old(self).spec_refl_weight(),
            final(self).spec_chain_weight() == old(self).spec_chain_weight(),
            final(self).spec_refl_ancestors() == old(self).spec_refl_ancestors(),
            final(self).spec_difficulty() == d,
    ;

    fn get_height(&self) -> (r: Height)
        ensures
            r == self.spec_height(),
    ;

    fn get_chain_id(&self) -> (r: HashID)
        ensures
            r == self.spec_chain_id(),
    ;

    /// Keeps only the low `64 - n_bits` bits of the id (so the block meets an easier target);
    /// returns a copy of the changed block.
    fn test_set_work_bits(&mut self, n_bits: u8) -> (r: Self)
        requires
            n_bits < 64,
        ensures
            final(self).spec_id() == old(self).spec_id() & (u64::MAX >> n_bits),
            final(self).spec_parents() == old(self).spec_parents(),
            final(self).spec_ts() == old(self).spec_ts(),
            final(self).spec_height() == old(self).spec_height(),
            final(self).spec_chain_id() == old(self).spec_chain_id(),
            final(self).spec_txs() == old(self).spec_txs(),
            final(self).spec_refl_weight() == old(self).spec_refl_weight(),
            final(self).spec_chain_weight() == old(self).spec_chain_weight(),
            final(self).spec_refl_ancestors() == old(self).spec_refl_ancestors(),
            final(self).spec_difficulty() == old(self).spec_difficulty(),
            r.spec_id() == final(self).spec_id(),
            r.spec_parents() == final(self).spec_parents(),
            r.spec_ts() == final(self).spec_ts(),
            r.spec_difficulty() == final(self).spec_difficulty(),
            r.spec_height() == final(self).spec_height(),
            r.spec_chain_id() == final(self).spec_chain_id(),
            r.spec_txs() == final(self).spec_txs(),
            r.spec_refl_weight() == final(self).spec_refl_weight(),
            r.spec_chain_weight() == final(self).spec_chain_weight(),
            r.spec_refl_ancestors() == final(self).spec_refl_ancestors(),
    ;

    fn get_transactions(&self) -> (r: &Vec<TxId>)
        ensures
            r@ == self.spec_txs(),
    ;

    fn _push_tx(&mut self, id: TxId)
        ensures
            final(self).spec_id() == old(self).spec_id(),
            final(self).spec_parents() == old(self).spec_parents(),
            final(self).spec_ts() == old(self).spec_ts(),
            final(self).spec_height() == old(self).spec_height(),
            final(self).spec_chain_id() == old(self).spec_chain_id(),
            final(self).spec_difficulty() == old(self).spec_difficulty(),
            final(self).spec_refl_weight() == old(self).spec_refl_weight(),
            final(self).spec_chain_weight() == old(self).spec_chain_weight(),
            final(self).spec_refl_ancestors() == old(self).spec_refl_ancestors(),
            final(self).spec_txs() == old(self).spec_txs().push(id),
    ;

    /// Adds `w` to the reflected weight and to the chain weight (each saturating).
    fn add_refl_weight(&mut self, w: Difficulty)
        ensures
            final(self).spec_id() == old(self).spec_id(),
            final(self).spec_parents() == old(self).spec_parents(),
            final(self).spec_ts() == old(self).spec_ts(),
            final(self).spec_height() == old(self).spec_height(),
            final(self).spec_chain_id() == old(self).spec_chain_id(),
            final(self).spec_difficulty() == old(self).spec_difficulty(),
            final(self).spec_txs() == old(self).spec_txs(),
            final(self).spec_refl_weight() == sat_add(old(self).spec_refl_weight(), w),
            final(self).spec_chain_weight() == sat_add(old(self).spec_chain_weight(), w),
            final(self).spec_refl_ancestors() == old(self).spec_refl_ancestors(),
    ;

    /// Claimed reflected weight
    fn get_reflected_weight(&self) -> (r: Difficulty)
        ensures
            r == self.spec_refl_weight(),
    ;

    fn get_chain_weight(&self) -> (r: Difficulty)
        ensures
            r == self.spec_chain_weight(),
    ;

    fn set_chain_weight(&mut self, cw: Difficulty)
        ensures
            final(self).spec_id() == old(self).spec_id(),
            final(self).spec_parents() == old(self).spec_parents(),
            final(self).spec_ts() == old(self).spec_ts(),
            final(self).spec_height() == old(self).spec_height(),
            final(self).spec_chain_id() == old(self).spec_chain_id(),
            final(self).spec_difficulty() == old(self).spec_difficulty(),
            final(self).spec_txs() == old(self).spec_txs(),
            final(self).spec_refl_weight() == old(self).spec_refl_weight(),
            final(self).spec_chain_weight() == cw,
            final(self).spec_refl_ancestors() == old(self).spec_refl_ancestors(),
    ;

    /// A copy of the block.
    fn copy(&self) -> (r: Self)
        ensures
            r.spec_id() == self.spec_id(),
            r.spec_parents() == self.spec_parents(),
            r.spec_ts() == self.spec_ts(),
            r.spec_difficulty() == self.spec_difficulty(),
            r.spec_height() == self.spec_height(),
            r.spec_chain_id() == self.spec_chain_id(),
            r.spec_txs() == self.spec_txs(),
            r.spec_refl_weight() == self.spec_refl_weight(),
            r.spec_chain_weight() == self.spec_chain_weight(),
            r.spec_refl_ancestors() == self.spec_refl_ancestors(),
    ;

    /// The reflected ancestors recorded on this block (see [`BlockT::add_reflected_ancestor`]).
    fn get_reflected_ancestors(&self) -> (r: Option<&Vec<(HashID, HashID)>>)
        ensures
            r matches Some(v) && v@ == self.spec_refl_ancestors(),
    ;

    /// Record that an ancestor of this block was reflected by R chain: the pair is appended
    /// to the block's record; nothing else changes.
    fn add_reflected_ancestor(&mut self, l_b_id: HashID, r_chain_id: HashID)
        ensures
            final(self).spec_refl_ancestors() == old(self).spec_refl_ancestors().push((l_b_id, r_chain_id)),
            final(self).spec_id() == old(self).spec_id(),
            final(self).spec_parents() == old(self).spec_parents(),
            final(self).spec_ts() == old(self).spec_ts(),
            final(self).spec_difficulty() == old(self).spec_difficulty(),
            final(self).spec_height() == old(self).spec_height(),
            final(self).spec_chain_id() == old(self).spec_chain_id(),
            final(self).spec_txs() == old(self).spec_txs(),
            final(self).spec_refl_weight() == old(self).spec_refl_weight(),
            final(self).spec_chain_weight() == old(self).spec_chain_weight(),
    ;

    /// A random id.
    fn get_rand_id() -> HashID {
        random_u64()
    }

    /// One of the given parents, chosen at random.
    fn select_parent_from(ps: &Vec<HashID>) -> (r: HashID)
        requires
            ps@.len() > 0,
        ensures
            ps@.contains(r),
    {
        match choose_id(ps.as_slice()) {
            Some(p) => p,
            None => ps[0],
        }
    }

    /// Weight reflected by this block (calculated from its txs): the saturating sum of the
    /// reflected weight of each of its txs that is in the store.
    fn calc_reflected_weight(&self, cache: &TxCache) -> (r: Difficulty)
        ensures
            r == refl_sum(self.spec_txs(), cache@, self.spec_chain_id()),
    {
        let txs = self.get_transactions();
        let chain_id = self.get_chain_id();
        let mut w: Difficulty = 0;
        let mut i: usize = 0;
        while i < txs.len()
            invariant
                i <= txs.len(),
                txs@ == self.spec_txs(),
                chain_id == self.spec_chain_id(),
                w == refl_sum(txs@.take(i as int), cache@, chain_id),
            decreases txs.len() - i,
        {
            assert(txs@.take(i + 1).drop_last() =~= txs@.take(i as int));
            match Transaction::get_cached_tx(cache, txs[i]) {
                Some(tx) => {
                    w = w.saturating_add(tx.get_reflected_weight2(chain_id));
                },
                None => {},
            }
            i += 1;
        }
        assert(txs@.take(txs.len() as int) =~= txs@);
        w
    }

    /// The block's txs that are in the store, in the block's order.
    fn get_txs<'a>(&self, cache: &'a TxCache) -> (r: Vec<&'a Transaction>)
        ensures
            r@.len() == cached_txs(self.spec_txs(), cache@).len(),
            forall|i: int| 0 <= i < r@.len() ==> *r@[i] == #[trigger] cached_txs(self.spec_txs(), cache@)[i],
    {
        let txs = self.get_transactions();
        let mut r: Vec<&'a Transaction> = Vec::new();
        let mut i: usize = 0;
        while i < txs.len()
            invariant
                i <= txs.len(),
                txs@ == self.spec_txs(),
                r@.len() == cached_txs(txs@.take(i as int), cache@).len(),
                forall|k: int| 0 <= k < r@.len() ==> *r@[k] == #[trigger] cached_txs(txs@.take(i as int), cache@)[k],
            decreases txs.len() - i,
        {
            assert(txs@.take(i + 1).drop_last() =~= txs@.take(i as int));
            match Transaction::get_cached_tx(cache, txs[i]) {
                Some(tx) => {
                    r.push(tx);
                },
                None => {},
            }
            i += 1;
        }
        assert(txs@.take(txs.len() as int) =~= txs@);
        r
    }

    fn add_transaction(&mut self, id: TxId, cache: &TxCache)
        ensures
            final(self).spec_id() == next_nonce_id(old(self).spec_id()),
            final(self).spec_txs() == added_txs(old(self).spec_txs(), seq![id]),
            final(self).spec_refl_weight() == added_refl(old(self).spec_txs(), seq![id], cache@, old(self).spec_chain_id(), old(self).spec_refl_weight()),
            final(self).spec_chain_weight() == added_refl(old(self).spec_txs(), seq![id], cache@, old(self).spec_chain_id(), old(self).spec_chain_weight()),
            final(self).spec_parents() == old(self).spec_parents(),
            final(self).spec_ts() == old(self).spec_ts(),
            final(self).spec_height() == old(self).spec_height(),
            final(self).spec_chain_id() == old(self).spec_chain_id(),
            final(self).spec_difficulty() == old(self).spec_difficulty(),
    {
        let mut v: Vec<TxId> = Vec::new();
        v.push(id);
        proof {
            assert(v@ =~= seq![id]);
            assert(seq![id].drop_last() =~= Seq::<TxId>::empty());
            assert(dedup(seq![id].drop_last()) =~= Seq::<TxId>::empty());
            assert(!Seq::<TxId>::empty().contains(id));
            assert(Seq::<TxId>::empty().push(id) =~= seq![id]);
            assert(dedup(seq![id]) =~= seq![id]);
        }
        self.add_transactions(v, cache);
    }

    /// Adds each of `ids` (each once) that the block does not hold yet; a reflection adds its
    /// weight to the block's reflected weight and chain weight. The id then changes, as for a
    /// new proof-of-work attempt.
    fn add_transactions(&mut self, ids: Vec<TxId>, cache: &TxCache)
        ensures
            final(self).spec_id() == next_nonce_id(old(self).spec_id()),
            final(self).spec_txs() == added_txs(old(self).spec_txs(), dedup(ids@)),
            final(self).spec_refl_weight() == added_refl(old(self).spec_txs(), dedup(ids@), cache@, old(self).spec_chain_id(), old(self).spec_refl_weight()),
            final(self).spec_chain_weight() == added_refl(old(self).spec_txs(), dedup(ids@), cache@, old(self).spec_chain_id(), old(self).spec_chain_weight()),
            final(self).spec_refl_ancestors() == added_ancestors(old(self).spec_txs(), dedup(ids@), cache@, old(self).spec_refl_ancestors()),
            final(self).spec_parents() == old(self).spec_parents(),
            final(self).spec_ts() == old(self).spec_ts(),
            final(self).spec_height() == old(self).spec_height(),
            final(self).spec_chain_id() == old(self).spec_chain_id(),
            final(self).spec_difficulty() == old(self).spec_difficulty(),
    {
        let u = unique(&ids);
        let ghost old_txs = self.spec_txs();
        let mut i: usize = 0;
        while i < u.len()
            invariant
                i <= u.len(),
                u@ == dedup(ids@),
                self.spec_txs() == added_txs(old_txs, u@.take(i as int)),
                self.spec_refl_weight() == added_refl(old_txs, u@.take(i as int), cache@, old(self).spec_chain_id(), old(self).spec_refl_weight()),
                self.spec_chain_weight() == added_refl(old_txs, u@.take(i as int), cache@, old(self).spec_chain_id(), old(self).spec_chain_weight()),
                self.spec_refl_ancestors() == added_ancestors(old_txs, u@.take(i as int), cache@, old(self).spec_refl_ancestors()),
                old_txs == old(self).spec_txs(),
                self.spec_id() == old(self).spec_id(),
                self.spec_parents() == old(self).spec_parents(),
                self.spec_ts() == old(self).spec_ts(),
                self.spec_height() == old(self).spec_height(),
                self.spec_chain_id() == old(self).spec_chain_id(),
                self.spec_difficulty() == old(self).spec_difficulty(),
            decreases u.len() - i,
        {
            let id = u[i];
            assert(u@.take(i + 1).drop_last() =~= u@.take(i as int));
            if !crate::collections::vec_contains(self.get_transactions(), id) {
                match Transaction::get_cached_tx(cache, id) {
                    Some(tx) => {
                        match tx.get_reflected_l_blocks() {
                            Some(ancestors) => {
                                let r_chain = match tx.get_reflection_data() {
                                    Some(r) => r.r_chain,
                                    None => 0,
                                };
                                let mut k: usize = 0;
                                while k < ancestors.len()
                                    invariant
                                        k <= ancestors.len(),
                                        self.spec_txs() == added_txs(old_txs, u@.take(i as int)),
                                        self.spec_refl_weight() == added_refl(old_txs, u@.take(i as int), cache@, old(self).spec_chain_id(), old(self).spec_refl_weight()),
                                        self.spec_chain_weight() == added_refl(old_txs, u@.take(i as int), cache@, old(self).spec_chain_id(), old(self).spec_chain_weight()),
                                        self.spec_refl_ancestors() == added_ancestors(old_txs, u@.take(i as int), cache@, old(self).spec_refl_ancestors())
                                            + refl_pairs(ancestors@.take(k as int), r_chain),
                                        ancestors@ == tx_l_headers(*tx),
                                        r_chain == tx_r_chain(*tx),
                                        self.spec_id() == old(self).spec_id(),
                                        self.spec_parents() == old(self).spec_parents(),
                                        self.spec_ts() == old(self).spec_ts(),
                                        self.spec_height() == old(self).spec_height(),
                                        self.spec_chain_id() == old(self).spec_chain_id(),
                                        self.spec_difficulty() == old(self).spec_difficulty(),
                                    decreases ancestors.len() - k,
                                {
                                    self.add_reflected_ancestor(ancestors[k], r_chain);
                                    proof {
                                        assert(refl_pairs(ancestors@.take(k + 1), r_chain) =~= refl_pairs(ancestors@.take(k as int), r_chain).push(
                                            (ancestors@[k as int], r_chain),
                                        ));
                                    }
                                    k += 1;
                                }
                                proof {
                                    assert(ancestors@.take(ancestors.len() as int) =~= ancestors@);
                                }
                                let w = tx.get_reflected_weight2(self.get_chain_id());
                                self.add_refl_weight(w);
                            },
                            None => {
                                assert(spec_reflected_weight2(*tx, old(self).spec_chain_id()) == 0);
                                assert(sat_add(self.spec_refl_weight(), 0) == self.spec_refl_weight());
                                assert(sat_add(self.spec_chain_weight(), 0) == self.spec_chain_weight());
                            },
                        }
                    },
                    None => {},
                }
                self._push_tx(id);
            }
            i += 1;
        }
        assert(u@.take(u.len() as int) =~= u@);
        self.increment_nonce();
    }

    fn get_total_weight(&self) -> (r: Difficulty)
        ensures
            r == sat_add(self.spec_refl_weight(), self.spec_difficulty()),
    {
        self.get_reflected_weight().saturating_add(self.get_difficulty())
    }
}

/// The txs of a block that held `old` after adding each of `ids` it did not hold yet.
pub open spec fn added_txs(old: Seq<TxId>, ids: Seq<TxId>) -> Seq<TxId>
    decreases ids.len(),
{
    if ids.len() == 0 {
        old
    } else {
        let t = added_txs(old, ids.drop_last());
        if t.contains(ids.last()) {
            t
        } else {
            t.push(ids.last())
        }
    }
}

/// A weight `w` after adding, for each of `ids` that a block holding `old` did not hold yet and
/// that the store has, the weight that transaction reflects onto `chain` (saturating).
pub open spec fn added_refl(old: Seq<TxId>, ids: Seq<TxId>, cache: Map<TxId, Transaction>, chain: HashID, w: u64) -> u64
    decreases ids.len(),
{
    if ids.len() == 0 {
        w
    } else {
        let t = added_txs(old, ids.drop_last());
        let w1 = added_refl(old, ids.drop_last(), cache, chain, w);
        if !t.contains(ids.last()) && cache.contains_key(ids.last()) {
            sat_add(w1, spec_reflected_weight2(cache[ids.last()], chain))
        } else {
            w1
        }
    }
}

/// The pairs of each of `ls` with the chain `c`.
pub open spec fn refl_pairs(ls: Seq<HashID>, c: HashID) -> Seq<(HashID, HashID)> {
    ls.map_values(|a: HashID| (a, c))
}

/// The local blocks a reflection names in its headers (none for other transactions).
pub open spec fn tx_l_headers(tx: Transaction) -> Seq<HashID> {
    match tx {
        Transaction::ReflectAndProve(d) => d.l_headers@,
        _ => Seq::empty(),
    }
}

/// The chain a reflection reflects (0 for other transactions).
pub open spec fn tx_r_chain(tx: Transaction) -> HashID {
    match tx {
        Transaction::ReflectAndProve(d) => d.r_chain,
        _ => 0,
    }
}

/// The reflected ancestors of a block that held the ancestors `anc` and the transactions
/// `old`, after adding each of `ids` it did not hold yet: each stored reflection among them
/// records each block its headers name, with the chain it reflects.
pub open spec fn added_ancestors(old: Seq<TxId>, ids: Seq<TxId>, cache: Map<TxId, Transaction>, anc: Seq<(HashID, HashID)>) -> Seq<(HashID, HashID)>
    decreases ids.len(),
{
    if ids.len() == 0 {
        anc
    } else {
        let t = added_txs(old, ids.drop_last());
        let a = added_ancestors(old, ids.drop_last(), cache, anc);
        if !t.contains(ids.last()) && cache.contains_key(ids.last()) {
            a + refl_pairs(tx_l_headers(cache[ids.last()]), tx_r_chain(cache[ids.last()]))
        } else {
            a
        }
    }
}

/// The saturating sum of the weights that the stored ones of `txs` reflect onto `chain`.
pub open spec fn refl_sum(txs: Seq<TxId>, cache: Map<TxId, Transaction>, chain: HashID) -> u64
    decreases txs.len(),
{
    if txs.len() == 0 {
        0
    } else {
        let w = refl_sum(txs.drop_last(), cache, chain);
        if cache.contains_key(txs.last()) {
            sat_add(w, spec_reflected_weight2(cache[txs.last()], chain))
        } else {
            w
        }
    }
}

/// The stored ones of `txs`, in order.
pub open spec fn cached_txs(txs: Seq<TxId>, cache: Map<TxId, Transaction>) -> Seq<Transaction>
    decreases txs.len(),
{
    if txs.len() == 0 {
        Seq::empty()
    } else {
        let t = cached_txs(txs.drop_last(), cache);
        if cache.contains_key(txs.last()) {
            t.push(cache[txs.last()])
        } else {
            t
        }
    }
}

/// Adding ids that are all distinct to a block with no transactions adds each of them; the
/// reflected weight they add is their saturating sum.
pub proof fn lemma_added_fresh(s: Seq<TxId>, cache: Map<TxId, Transaction>, chain: HashID)
    requires
        s.no_duplicates(),
    ensures
        added_txs(Seq::empty(), s) == s,
        added_refl(Seq::empty(), s, cache, chain, 0) == refl_sum(s, cache, chain),
    decreases s.len(),
{
    if s.len() > 0 {
        let s0 = s.drop_last();
        lemma_added_fresh(s0, cache, chain);
        if s0.contains(s.last()) {
            let i = choose|i: int| 0 <= i < s0.len() && s0[i] == s.last();
            assert(s[i] == s[s.len() - 1]);
        }
        assert(s0.push(s.last()) =~= s);
    }
}

/// Two blocks agree in every field.
pub open spec fn same_block<B: BlockT>(a: B, b: B) -> bool {
    &&& a.spec_id() == b.spec_id()
    &&& a.spec_parents() == b.spec_parents()
    &&& a.spec_ts() == b.spec_ts()
    &&& a.spec_difficulty() == b.spec_difficulty()
    &&& a.spec_height() == b.spec_height()
    &&& a.spec_chain_id() == b.spec_chain_id()
    &&& a.spec_txs() == b.spec_txs()
    &&& a.spec_refl_weight() == b.spec_refl_weight()
    &&& a.spec_chain_weight() == b.spec_chain_weight()
    &&& a.spec_refl_ancestors() == b.spec_refl_ancestors()
}

/// Two blocks agree in every field but perhaps the timestamp.
pub open spec fn same_block_except_ts<B: BlockT>(a: B, b: B) -> bool {
    &&& a.spec_id() == b.spec_id()
    &&& a.spec_parents() == b.spec_parents()
    &&& a.spec_difficulty() == b.spec_difficulty()
    &&& a.spec_height() == b.spec_height()
    &&& a.spec_chain_id() == b.spec_chain_id()
    &&& a.spec_txs() == b.spec_txs()
    &&& a.spec_refl_weight() == b.spec_refl_weight()
    &&& a.spec_chain_weight() == b.spec_chain_weight()
    &&& a.spec_refl_ancestors() == b.spec_refl_ancestors()
}

/// The height of a new block on `parent`: one above the parent (saturating at `u32::MAX`),
/// or 0 when the parent is not in the store.
pub open spec fn height_after<B: BlockT>(store: &BlockStore<B>, parent: HashID) -> Height {
    if store@.contains_key(parent) {
        if store@[parent].0.spec_height() == u32::MAX {
            u32::MAX
        } else {
            (store@[parent].0.spec_height() + 1) as u32
        }
    } else {
        0
    }
}

/// Every block and its metadata, under the block's id, and the blocks that the difficulty
/// adjustment looks back over from each block.
pub struct BlockStore<B> {
    blocks: HashMap<HashID, (B, BlockMD)>,
    daa2: HashMap<HashID, Vec<HashID>>,
}

impl<B> BlockStore<B> {
    pub closed spec fn view(&self) -> Map<HashID, (B, BlockMD)> {
        self.blocks@
    }

    pub closed spec fn daa2_view(&self) -> Map<HashID, Seq<HashID>> {
        self.daa2@.map_values(|v: Vec<HashID>| v@)
    }

    pub fn new() -> (r: Self)
        ensures
            r@ == Map::<HashID, (B, BlockMD)>::empty(),
            r.daa2_view() == Map::<HashID, Seq<HashID>>::empty(),
    {
        let r = BlockStore { blocks: HashMap::new(), daa2: HashMap::new() };
        assert(r.daa2_view() =~= Map::<HashID, Seq<HashID>>::empty());
        r
    }

    pub fn get(&self, id: HashID) -> (r: Option<&(B, BlockMD)>)
        ensures
            match r {
                Some(e) => self@.contains_key(id) && *e == self@[id],
                None => !self@.contains_key(id),
            },
    {
        self.blocks.get(&id)
    }

    pub fn contains(&self, id: HashID) -> (r: bool)
        ensures
            r == self@.contains_key(id),
    {
        self.blocks.contains_key(&id)
    }

    /// The number of stored blocks.
    pub fn len(&self) -> (r: usize)
        ensures
            r == self@.len(),
    {
        self.blocks.len()
    }

    pub fn get_daa2(&self, id: HashID) -> (r: Option<&Vec<HashID>>)
        ensures
            match r {
                Some(v) => self.daa2_view().contains_key(id) && v@ == self.daa2_view()[id],
                None => !self.daa2_view().contains_key(id),
            },
    {
        self.daa2.get(&id)
    }

    pub fn set_daa2(&mut self, id: HashID, v: Vec<HashID>)
        ensures
            final(self)@ == old(self)@,
            final(self).daa2_view() == old(self).daa2_view().insert(id, v@),
    {
        self.daa2.insert(id, v);
        assert(self.daa2_view() =~= old(self).daa2_view().insert(id, v@));
    }
}

impl<B> BlockStore<B> {
    /// Every stored block has a recorded look-back list, and each list holds `n` ids (at least
    /// one): the block's own id first, then ids of stored blocks (or the block's own).
    pub open spec fn daa2_ok(&self, n: usize) -> bool {
        &&& n >= 1
        &&& forall|k: HashID| #[trigger] self@.contains_key(k) ==> self.daa2_view().contains_key(k)
        &&& forall|k: HashID|
            #[trigger] self.daa2_view().contains_key(k) ==> {
                &&& self.daa2_view()[k].len() == n
                &&& self.daa2_view()[k][0] == k
                &&& forall|i: int|
                    0 < i < self.daa2_view()[k].len() ==> self@.contains_key(#[trigger] self.daa2_view()[k][i])
                        || self.daa2_view()[k][i] == k
            }
    }
}

impl<B: BlockT> BlockStore<B> {
    /// The store's own invariant: each block is under its id, has parents, all of them
    /// stored; its recorded height is its own height, one above its first parent's (a genesis
    /// block, its own first parent, is at height 0).
    pub open spec fn wf(&self) -> bool {
        &&& self@.dom().finite()
        &&& forall|k: HashID| #[trigger] self@.contains_key(k) ==> block_wf(self@, k)
    }

    /// Stores the block and its metadata under the block's id.
    pub fn insert(&mut self, b: (B, BlockMD))
        ensures
            final(self)@ == old(self)@.insert(b.0.spec_id(), b),
            final(self).daa2_view() == old(self).daa2_view(),
    {
        let id = b.0.get_hash();
        self.blocks.insert(id, b);
        assert(self.daa2_view() =~= old(self).daa2_view());
    }
}

/// The block under `k` is well placed in the store `m` (see [`BlockStore::wf`]).
pub open spec fn block_wf<B: BlockT>(m: Map<HashID, (B, BlockMD)>, k: HashID) -> bool {
    let b = m[k].0;
    let md = m[k].1;
    &&& b.spec_id() == k
    &&& b.spec_parents().len() > 0
    &&& forall|i: int| 0 <= i < b.spec_parents().len() ==> m.contains_key(#[trigger] b.spec_parents()[i])
    &&& md.height == b.spec_height()
    &&& if b.spec_parents()[0] == k {
        b.spec_height() == 0
    } else {
        b.spec_height() > 0 && m[b.spec_parents()[0]].0.spec_height() + 1 == b.spec_height()
    }
}

} // verus!

verus! {

pub trait SingleParentBlockT: BlockT {}

pub trait ManyParentsBlockT: BlockT {
    /// A block on all of `parents` (at least one), one above the first parent's height.
    fn new_multi_parent(
        timestamp: u32,
        parents: Vec<HashID>,
        d: Difficulty,
        chain_id: HashID,
        cw: Difficulty,
        store: &BlockStore<Self>,
    ) -> (r: Self)
        requires
            parents@.len() > 0,
        ensures
            r.spec_parents() == parents@,
            r.spec_ts() == timestamp,
            r.spec_difficulty() == d,
            r.spec_chain_id() == chain_id,
            r.spec_chain_weight() == cw,
            r.spec_refl_weight() == 0,
            r.spec_txs() == Seq::<TxId>::empty(),
            r.spec_height() == (if store@.contains_key(parents@[0]) {
                if store@[parents@[0]].0.spec_height() == u32::MAX {
                    u32::MAX
                } else {
                    (store@[parents@[0]].0.spec_height() + 1) as u32
                }
            } else {
                0
            }),
    ;
}

#[derive(Debug, Clone, PartialEq, Eq, Hash)]
pub struct Block {
    pub id: HashID,
    pub parent: HashID,
    pub timestamp: u32,
    pub d: Difficulty,
    pub refl_weight: Difficulty,
    pub h: Height,
    pub txs: Vec<TxId>,
    pub chain_id: HashID,
    pub cw: Difficulty,
    pub reflected_ancestors: Vec<(HashID, HashID)>,
}

#[derive(Debug, Clone, PartialEq, Eq, PartialOrd, Hash)]
pub struct DagBlock {
    pub id: HashID,
    pub parents: Vec<HashID>,
    pub timestamp: u32,
    pub d: Difficulty,
    pub refl_weight: Difficulty,
    pub cw: Difficulty,
    pub h: Height,
    pub txs: Vec<TxId>,
    pub chain_id: HashID,
    pub reflected_ancestors: Vec<(HashID, HashID)>,
}

/// A copy of a list of id pairs.
fn copy_pairs(v: &Vec<(HashID, HashID)>) -> (r: Vec<(HashID, HashID)>)
    ensures
        r@ == v@,
{
    let mut r: Vec<(HashID, HashID)> = Vec::new();
    let mut i: usize = 0;
    while i < v.len()
        invariant
            i <= v.len(),
            r@ == v@.take(i as int),
        decreases v.len() - i,
    {
        r.push(v[i]);
        i += 1;
        assert(r@ =~= v@.take(i as int));
    }
    assert(v@.take(v.len() as int) =~= v@);
    r
}

/// The height of a block on `parent`, looked up in the store.
fn child_height<B>(store: &BlockStore<B>, parent: HashID, parent_height: Option<Height>) -> (r: Height)
    ensures
        r == (match parent_height {
            Some(ph) => if ph == u32::MAX {
                u32::MAX
            } else {
                (ph + 1) as u32
            },
            None => 0,
        }),
{
    match parent_height {
        Some(ph) => if ph < u32::MAX {
            ph + 1
        } else {
            u32::MAX
        },
        None => 0,
    }
}

impl SingleParentBlockT for Block {}

impl Block {
    /// Blocks in order of height, then difficulty, then id.
    pub fn cmp(&self, other: &Block) -> (r: Ordering)
        ensures
            r == (if self.h != other.h {
                if self.h < other.h {
                    Ordering::Less
                } else {
                    Ordering::Greater
                }
            } else if self.d != other.d {
                if self.d < other.d {
                    Ordering::Less
                } else {
                    Ordering::Greater
                }
            } else if self.id < other.id {
                Ordering::Less
            } else if self.id == other.id {
                Ordering::Equal
            } else {
                Ordering::Greater
            }),
    {
        if self.h != other.h {
            if self.h < other.h {
                Ordering::Less
            } else {
                Ordering::Greater
            }
        } else if self.d != other.d {
            if self.d < other.d {
                Ordering::Less
            } else {
                Ordering::Greater
            }
        } else if self.id < other.id {
            Ordering::Less
        } else if self.id == other.id {
            Ordering::Equal
        } else {
            Ordering::Greater
        }
    }
}


impl BlockT for Block {
    open spec fn spec_id(&self) -> HashID {
        self.id
    }

    open spec fn spec_parents(&self) -> Seq<HashID> {
        seq![self.parent]
    }

    open spec fn spec_ts(&self) -> u32 {
        self.timestamp
    }

    open spec fn spec_difficulty(&self) -> Difficulty {
        self.d
    }

    open spec fn spec_height(&self) -> Height {
        self.h
    }

    open spec fn spec_chain_id(&self) -> HashID {
        self.chain_id
    }

    open spec fn spec_txs(&self) -> Seq<TxId> {
        self.txs@
    }

    open spec fn spec_refl_weight(&self) -> Difficulty {
        self.refl_weight
    }

    open spec fn spec_chain_weight(&self) -> Difficulty {
        self.cw
    }

    open spec fn spec_refl_ancestors(&self) -> Seq<(HashID, HashID)> {
        self.reflected_ancestors@
    }

    /// One parent, one of the options.
    open spec fn parents_from(opts: Seq<HashID>, heads: Map<HashID, u64>, ps: Seq<HashID>) -> bool {
        ps.len() == 1 && opts.contains(ps[0])
    }

    fn new(ts: u32, parent: HashID, d: Difficulty, chain_id: HashID, cw: Difficulty, store: &BlockStore<Self>) -> (r: Self) {
        let id = Self::get_rand_id();
        let ph = match store.get(parent) {
            Some(p) => Some(p.0.h),
            None => None,
        };
        let h = child_height(store, parent, ph);
        Block {
            id,
            timestamp: ts,
            parent,
            d,
            h,
            refl_weight: 0,
            txs: Vec::new(),
            chain_id,
            cw,
            reflected_ancestors: Vec::new(),
        }
    }

    fn new_from(
        ts: u32,
        parent_opts: &Vec<HashID>,
        _chain_heads: &ChainHeads,
        d: Difficulty,
        chain_id: HashID,
        cw: Difficulty,
        store: &BlockStore<Self>,
    ) -> (r: Self) {
        let p = Self::select_parent_from(parent_opts);
        let r = Self::new(ts, p, d, chain_id, cw, store);
        assert(r.spec_parents()[0] == p);
        r
    }

    fn genesis(ts: u32) -> (r: Self) {
        let raw = Self::get_rand_id();
        let id = raw >> 10u64;
        assert(raw >> 10u64 < 0x40_0000_0000_0000) by (bit_vector);
        Block {
            id,
            timestamp: ts,
            parent: id,
            d: 0,
            h: 0,
            refl_weight: 0,
            txs: Vec::new(),
            chain_id: id,
            cw: 0,
            reflected_ancestors: Vec::new(),
        }
    }

    fn get_hash(&self) -> (r: HashID) {
        self.id
    }

    fn prev(&self) -> (r: HashID) {
        self.parent
    }

    fn all_parents(&self) -> (r: Vec<HashID>) {
        let mut v: Vec<HashID> = Vec::new();
        v.push(self.parent);
        assert(v@ =~= seq![self.parent]);
        v
    }

    fn get_ts(&self) -> (r: u32) {
        self.timestamp
    }

    fn set_ts(&mut self, ts: u32) {
        self.timestamp = ts
    }

    fn increment_nonce(&mut self) {
        self.id = hash_u64(self.id.wrapping_add(1337));
    }

    fn get_difficulty(&self) -> (r: Difficulty) {
        self.d
    }

    fn set_difficulty(&mut self, d: Difficulty) {
        self.d = d;
    }

    fn get_height(&self) -> (r: Height) {
        self.h
    }

    fn get_chain_id(&self) -> (r: HashID) {
        self.chain_id
    }

    fn test_set_work_bits(&mut self, n_bits: u8) -> (r: Self) {
        self.id = self.id & (u64::MAX >> n_bits);
        self.copy()
    }

    fn get_transactions(&self) -> (r: &Vec<TxId>) {
        &self.txs
    }

    fn _push_tx(&mut self, id: TxId) {
        self.txs.push(id)
    }

    fn add_refl_weight(&mut self, w: Difficulty) {
        self.refl_weight = self.refl_weight.saturating_add(w);
        self.cw = self.cw.saturating_add(w);
    }

    fn get_reflected_weight(&self) -> (r: Difficulty) {
        self.refl_weight
    }

    fn get_chain_weight(&self) -> (r: Difficulty) {
        self.cw
    }

    fn set_chain_weight(&mut self, cw: Difficulty) {
        self.cw = cw
    }

    fn copy(&self) -> (r: Self) {
        Block {
            id: self.id,
            parent: self.parent,
            timestamp: self.timestamp,
            d: self.d,
            refl_weight: self.refl_weight,
            h: self.h,
            txs: crate::collections::copy_ids(&self.txs),
            chain_id: self.chain_id,
            cw: self.cw,
            reflected_ancestors: copy_pairs(&self.reflected_ancestors),
        }
    }

    fn get_reflected_ancestors(&self) -> (r: Option<&Vec<(HashID, HashID)>>) {
        Some(&self.reflected_ancestors)
    }

    fn add_reflected_ancestor(&mut self, l_b_id: HashID, r_chain_id: HashID) {
        self.reflected_ancestors.push((l_b_id, r_chain_id));
        assert(self.spec_refl_ancestors() == old(self).spec_refl_ancestors().push((l_b_id, r_chain_id)));
    }
}

/// `hs` are the ids of the chain heads `heads`, each once, by chain weight and then id,
/// largest first.
pub open spec fn heaviest_first_ids(hs: Seq<HashID>, heads: Map<HashID, u64>) -> bool {
    &&& exists|es: Seq<(u64, u64)>|
        {
            &&& sorted_heaviest_first(es)
            &&& es.len() == hs.len()
            &&& forall|i: int| 0 <= i < es.len() ==> #[trigger] es[i].0 == hs[i]
                && heads.dom().contains(es[i].0) && heads[es[i].0] == es[i].1
        }
    &&& hs.no_duplicates()
    &&& hs.to_set() == heads.dom()
}

/// The ids of the chain heads, by chain weight and then id, largest first.
pub fn heads_heaviest_first(chain_heads: &ChainHeads) -> (r: Vec<HashID>)
    ensures
        heaviest_first_ids(r@, chain_heads@),
{
    broadcast use vstd::seq_lib::group_to_multiset_ensures;
    let es = chain_heads.entries();
    let sorted = crate::collections::sort_heaviest_first(&es);
    let mut r: Vec<HashID> = Vec::new();
    let mut i: usize = 0;
    while i < sorted.len()
        invariant
            i <= sorted.len(),
            r@ == sorted@.take(i as int).map_values(|e: (u64, u64)| e.0),
        decreases sorted.len() - i,
    {
        r.push(sorted[i].0);
        assert(sorted@.take(i + 1) =~= sorted@.take(i as int).push(sorted@[i as int]));
        assert(r@ =~= sorted@.take(i + 1).map_values(|e: (u64, u64)| e.0));
        i += 1;
    }
    proof {
        assert(sorted@.take(sorted.len() as int) =~= sorted@);
        assert forall|x: (u64, u64)| sorted@.contains(x) <==> es@.contains(x) by {
            if sorted@.contains(x) {
                assert(sorted@.to_multiset().count(x) > 0);
            }
            if es@.contains(x) {
                assert(es@.to_multiset().count(x) > 0);
            }
        }
        assert forall|k: int| 0 <= k < sorted@.len() implies chain_heads@.dom().contains(#[trigger] sorted@[k].0)
            && chain_heads@[sorted@[k].0] == sorted@[k].1 by {
            assert(sorted@.contains(sorted@[k]));
            let j = choose|j: int| 0 <= j < es@.len() && es@[j] == sorted@[k];
        }
        lemma_perm_keeps_ids_distinct(es@, sorted@);
        assert forall|a: int, b: int| 0 <= a < b < r@.len() implies r@[a] != r@[b] by {
            assert(sorted@.map_values(|e: (u64, u64)| e.0)[a] == r@[a]);
            assert(sorted@.map_values(|e: (u64, u64)| e.0)[b] == r@[b]);
        }
        assert forall|x: u64| r@.to_set().contains(x) <==> chain_heads@.dom().contains(x) by {
            if r@.to_set().contains(x) {
                let k = choose|k: int| 0 <= k < r@.len() && r@[k] == x;
                assert(chain_heads@.dom().contains(sorted@[k].0));
            }
            if chain_heads@.dom().contains(x) {
                let j = choose|j: int| 0 <= j < es@.len() && #[trigger] es@[j].0 == x;
                assert(es@.contains(es@[j]));
                assert(sorted@.contains(es@[j]));
                let k = choose|k: int| 0 <= k < sorted@.len() && sorted@[k] == es@[j];
                assert(r@[k] == x);
                assert(r@.contains(x));
            }
        }
        assert(r@.to_set() =~= chain_heads@.dom());
        assert forall|i: int| 0 <= i < sorted@.len() implies #[trigger] sorted@[i].0 == r@[i] by {}
    }
    r
}

impl ManyParentsBlockT for DagBlock {
    fn new_multi_parent(
        timestamp: u32,
        parents: Vec<HashID>,
        d: Difficulty,
        chain_id: HashID,
        cw: Difficulty,
        store: &BlockStore<Self>,
    ) -> (r: Self) {
        let ph = match store.get(parents[0]) {
            Some(p) => Some(p.0.h),
            None => None,
        };
        let h = child_height(store, parents[0], ph);
        DagBlock {
            timestamp,
            id: Self::get_rand_id(),
            parents,
            d,
            h,
            refl_weight: 0,
            txs: Vec::new(),
            chain_id,
            cw,
            reflected_ancestors: Vec::new(),
        }
    }
}

impl BlockT for DagBlock {
    open spec fn spec_id(&self) -> HashID {
        self.id
    }

    open spec fn spec_parents(&self) -> Seq<HashID> {
        self.parents@
    }

    open spec fn spec_ts(&self) -> u32 {
        self.timestamp
    }

    open spec fn spec_difficulty(&self) -> Difficulty {
        self.d
    }

    open spec fn spec_height(&self) -> Height {
        self.h
    }

    open spec fn spec_chain_id(&self) -> HashID {
        self.chain_id
    }

    open spec fn spec_txs(&self) -> Seq<TxId> {
        self.txs@
    }

    open spec fn spec_refl_weight(&self) -> Difficulty {
        self.refl_weight
    }

    open spec fn spec_chain_weight(&self) -> Difficulty {
        self.cw
    }

    open spec fn spec_refl_ancestors(&self) -> Seq<(HashID, HashID)> {
        self.reflected_ancestors@
    }

    /// The options followed by every chain head, heaviest first, each once.
    open spec fn parents_from(opts: Seq<HashID>, heads: Map<HashID, u64>, ps: Seq<HashID>) -> bool {
        &&& exists|hs: Seq<HashID>| #[trigger] heaviest_first_ids(hs, heads) && ps == crate::collections::dedup(opts + hs)
        &&& ps.to_set() == opts.to_set() + heads.dom()
    }

    fn new(timestamp: u32, parent: HashID, d: Difficulty, chain_id: HashID, cw: Difficulty, store: &BlockStore<Self>) -> (r: Self) {
        let mut ps: Vec<HashID> = Vec::new();
        ps.push(parent);
        assert(ps@ =~= seq![parent]);
        Self::new_multi_parent(timestamp, ps, d, chain_id, cw, store)
    }

    /// The parents are `parent_opts` followed by the chain heads (heaviest first), each once.
    fn new_from(
        ts: u32,
        parent_opts: &Vec<HashID>,
        chain_heads: &ChainHeads,
        d: Difficulty,
        chain_id: HashID,
        cw: Difficulty,
        store: &BlockStore<Self>,
    ) -> (r: Self) {
        let heads = heads_heaviest_first(chain_heads);
        let mut all = crate::collections::copy_ids(parent_opts);
        let mut i: usize = 0;
        while i < heads.len()
            invariant
                i <= heads.len(),
                all@ == parent_opts@ + heads@.take(i as int),
            decreases heads.len() - i,
        {
            all.push(heads[i]);
            assert(heads@.take(i + 1) =~= heads@.take(i as int).push(heads@[i as int]));
            assert(all@ =~= parent_opts@ + heads@.take(i + 1));
            i += 1;
        }
        assert(heads@.take(heads.len() as int) =~= heads@);
        let parents = unique(&all);
        proof {
            lemma_dedup_first(all@);
            assert(all@[0] == parent_opts@[0]);
            assert forall|k: int| 0 <= k < parents@.len() implies parent_opts@.contains(#[trigger] parents@[k])
                || chain_heads@.dom().contains(parents@[k]) by {
                assert(parents@.to_set().contains(parents@[k]));
                assert(all@.to_set().contains(parents@[k]));
                let j = choose|j: int| 0 <= j < all@.len() && all@[j] == parents@[k];
                if j < parent_opts@.len() {
                    assert(parent_opts@[j] == all@[j]);
                } else {
                    assert(heads@[j - parent_opts@.len()] == all@[j]);
                    assert(heads@.to_set().contains(all@[j]));
                }
            }
        }
        proof {
            assert((parent_opts@ + heads@).to_set() =~= parent_opts@.to_set() + chain_heads@.dom()) by {
                assert forall|x: HashID| (parent_opts@ + heads@).to_set().contains(x) implies (parent_opts@.to_set()
                    + chain_heads@.dom()).contains(x) by {
                    let j = choose|j: int| 0 <= j < (parent_opts@ + heads@).len() && (parent_opts@ + heads@)[j] == x;
                    if j >= parent_opts@.len() {
                        assert(heads@[j - parent_opts@.len()] == x);
                        assert(heads@.to_set().contains(x));
                    } else {
                        assert(parent_opts@[j] == x);
                    }
                }
                assert forall|x: HashID| (parent_opts@.to_set() + chain_heads@.dom()).contains(x) implies (parent_opts@
                    + heads@).to_set().contains(x) by {
                    if parent_opts@.to_set().contains(x) {
                        let j = choose|j: int| 0 <= j < parent_opts@.len() && parent_opts@[j] == x;
                        assert((parent_opts@ + heads@)[j] == x);
                    } else {
                        assert(heads@.to_set().contains(x));
                        let j = choose|j: int| 0 <= j < heads@.len() && heads@[j] == x;
                        assert((parent_opts@ + heads@)[parent_opts@.len() + j] == x);
                    }
                }
            }
            assert(heaviest_first_ids(heads@, chain_heads@));
        }
        Self::new_multi_parent(ts, parents, d, chain_id, cw, store)
    }

    fn genesis(ts: u32) -> (r: Self) {
        let raw = Self::get_rand_id();
        let id = raw >> 10u64;
        assert(raw >> 10u64 < 0x40_0000_0000_0000) by (bit_vector);
        let mut ps: Vec<HashID> = Vec::new();
        ps.push(id);
        assert(ps@ =~= seq![id]);
        DagBlock {
            timestamp: ts,
            id,
            parents: ps,
            d: 0,
            h: 0,
            refl_weight: 0,
            txs: Vec::new(),
            chain_id: id,
            cw: 0,
            reflected_ancestors: Vec::new(),
        }
    }

    fn get_hash(&self) -> (r: HashID) {
        self.id
    }

    fn prev(&self) -> (r: HashID) {
        self.parents[0]
    }

    fn all_parents(&self) -> (r: Vec<HashID>) {
        crate::collections::copy_ids(&self.parents)
    }

    fn get_ts(&self) -> (r: u32) {
        self.timestamp
    }

    fn set_ts(&mut self, ts: u32) {
        self.timestamp = ts
    }

    fn increment_nonce(&mut self) {
        self.id = hash_u64(self.id.wrapping_add(1337));
    }

    fn get_difficulty(&self) -> (r: Difficulty) {
        self.d
    }

    fn set_difficulty(&mut self, d: Difficulty) {
        self.d = d;
    }

    fn get_height(&self) -> (r: Height) {
        self.h
    }

    fn get_chain_id(&self) -> (r: HashID) {
        self.chain_id
    }

    fn test_set_work_bits(&mut self, n_bits: u8) -> (r: Self) {
        self.id = self.id & (u64::MAX >> n_bits);
        self.copy()
    }

    fn get_transactions(&self) -> (r: &Vec<TxId>) {
        &self.txs
    }

    fn _push_tx(&mut self, id: TxId) {
        self.txs.push(id)
    }

    fn add_refl_weight(&mut self, w: Difficulty) {
        self.refl_weight = self.refl_weight.saturating_add(w);
        self.cw = self.cw.saturating_add(w);
    }

    fn get_reflected_weight(&self) -> (r: Difficulty) {
        self.refl_weight
    }

    fn get_chain_weight(&self) -> (r: Difficulty) {
        self.cw
    }

    fn set_chain_weight(&mut self, cw: Difficulty) {
        self.cw = cw
    }

    fn copy(&self) -> (r: Self) {
        DagBlock {
            id: self.id,
            parents: crate::collections::copy_ids(&self.parents),
            timestamp: self.timestamp,
            d: self.d,
            refl_weight: self.refl_weight,
            cw: self.cw,
            h: self.h,
            txs: crate::collections::copy_ids(&self.txs),
            chain_id: self.chain_id,
            reflected_ancestors: copy_pairs(&self.reflected_ancestors),
        }
    }

    fn get_reflected_ancestors(&self) -> (r: Option<&Vec<(HashID, HashID)>>) {
        Some(&self.reflected_ancestors)
    }

    fn add_reflected_ancestor(&mut self, l_b_id: HashID, r_chain_id: HashID) {
        self.reflected_ancestors.push((l_b_id, r_chain_id));
        assert(self.spec_refl_ancestors() == old(self).spec_refl_ancestors().push((l_b_id, r_chain_id)));
    }
}

/// Reordering entries whose ids are distinct keeps the ids distinct.
pub proof fn lemma_perm_keeps_ids_distinct(es: Seq<(u64, u64)>, sorted: Seq<(u64, u64)>)
    requires
        es.map_values(|e: (u64, u64)| e.0).no_duplicates(),
        sorted.to_multiset() == es.to_multiset(),
    ensures
        sorted.map_values(|e: (u64, u64)| e.0).no_duplicates(),
{
    broadcast use vstd::seq_lib::group_to_multiset_ensures;
    broadcast use vstd::multiset::group_multiset_axioms;

    assert forall|p: int, q: int| 0 <= p < q < es.len() implies es[p] != es[q] by {
        assert(es.map_values(|e: (u64, u64)| e.0)[p] == es[p].0);
        assert(es.map_values(|e: (u64, u64)| e.0)[q] == es[q].0);
    }
    assert(es.no_duplicates());
    es.lemma_multiset_has_no_duplicates();
    let ids = sorted.map_values(|e: (u64, u64)| e.0);
    assert forall|a: int, b: int| 0 <= a < b < sorted.len() implies #[trigger] ids[a] != #[trigger] ids[b] by {
        let ea = sorted[a];
        let eb = sorted[b];
        if ea.0 == eb.0 {
            assert(sorted.contains(ea));
            assert(sorted.to_multiset().count(ea) > 0);
            assert(es.contains(ea));
            assert(sorted.contains(eb));
            assert(sorted.to_multiset().count(eb) > 0);
            assert(es.contains(eb));
            let ja = choose|j: int| 0 <= j < es.len() && es[j] == ea;
            let jb = choose|j: int| 0 <= j < es.len() && es[j] == eb;
            assert(es.map_values(|e: (u64, u64)| e.0)[ja] == es.map_values(|e: (u64, u64)| e.0)[jb]);
            assert(ja == jb);
            assert(ea == eb);
            vstd::seq_lib::to_multiset_remove(sorted, a);
            assert(sorted.remove(a)[b - 1] == eb);
            assert(sorted.remove(a).contains(eb));
            assert(sorted.remove(a).to_multiset().count(eb) > 0);
            assert(sorted.to_multiset().count(ea) >= 2);
            assert(es.to_multiset().count(ea) == 1);
        }
    }
}

/// A nonempty seq keeps its first element first when repeats are dropped.
pub proof fn lemma_dedup_first(s: Seq<u64>)
    requires
        s.len() > 0,
    ensures
        dedup(s).len() > 0,
        dedup(s)[0] == s[0],
    decreases s.len(),
{
    if s.len() == 1 {
        assert(s.drop_last().len() == 0);
        assert(dedup(s.drop_last()) =~= Seq::<u64>::empty());
    } else {
        lemma_dedup_first(s.drop_last());
    }
}

} // verus!

verus! {

/// `p` is a path of stored blocks, none of them in `excl`, each after the first a parent of
/// the one before it.
pub open spec fn is_anc_path<B: BlockT>(m: Map<HashID, (B, BlockMD)>, p: Seq<HashID>, excl: Set<HashID>) -> bool {
    &&& p.len() > 0
    &&& forall|i: int| 0 <= i < p.len() ==> m.contains_key(#[trigger] p[i]) && !excl.contains(p[i])
    &&& forall|i: int|
        0 <= i < p.len() - 1 ==> #[trigger] m[p[i]].0.spec_parents().contains(p[i + 1])
}

/// The blocks that can be reached from `start` by going to parents, without passing through
/// a block of `excl` (`start` itself included, unless it is excluded).
pub open spec fn ancestors<B: BlockT>(m: Map<HashID, (B, BlockMD)>, start: HashID, excl: Set<HashID>) -> Set<HashID> {
    Set::new(
        |x: HashID|
            exists|p: Seq<HashID>| #[trigger] is_anc_path(m, p, excl) && p[0] == start && p.last() == x,
    )
}

/// Every block reachable from `start` through blocks outside `exclude_blocks` (`start`
/// included), each once, in breadth-first order: `start` first unless it is excluded.
pub fn all_prev_iter_excluding<B: BlockT>(start: &B, store: &BlockStore<B>, exclude_blocks: &IdSet) -> (r: Vec<HashID>)
    requires
        store.wf(),
        store@.contains_key(start.spec_id()),
    ensures
        !exclude_blocks@.contains(start.spec_id()) ==> r@.len() > 0 && r@[0] == start.spec_id(),
        r@.no_duplicates(),
        r@.to_set() == ancestors(store@, start.spec_id(), exclude_blocks@),
{
    let ghost m = store@;
    let ghost excl = exclude_blocks@;
    let start_id = start.get_hash();
    let mut seen = IdSet::new();
    let mut out: Vec<HashID> = Vec::new();
    let mut edge: Vec<HashID> = Vec::new();
    edge.push(start_id);
    let mut i: usize = 0;
    while i < edge.len()
        invariant
            store.wf(),
            m == store@,
            excl == exclude_blocks@,
            m.contains_key(start_id),
            start_id == start.spec_id(),
            i <= edge.len(),
            edge@.len() > 0,
            edge@[0] == start_id,
            seen@ == out@.to_set(),
            out@.no_duplicates(),
            seen@.subset_of(m.dom()),
            forall|x: HashID| #[trigger] seen@.contains(x) ==> ancestors(m, start_id, excl).contains(x),
            forall|j: int|
                0 <= j < edge@.len() ==> edge@[j] == start_id || exists|y: HashID|
                    #[trigger] seen@.contains(y) && m[y].0.spec_parents().contains(edge@[j]),
            forall|y: HashID, q: HashID|
                #[trigger] seen@.contains(y) && #[trigger] m[y].0.spec_parents().contains(q) ==> edge@.contains(q),
            forall|j: int| 0 <= j < i ==> seen@.contains(#[trigger] edge@[j]) || excl.contains(edge@[j]),
            i == 0 ==> out@.len() == 0,
            i > 0 && !excl.contains(start_id) ==> out@.len() > 0 && out@[0] == start_id,
        decreases m.dom().difference(seen@).len(), edge@.len() - i,
    {
        let p_id = edge[i];
        i += 1;
        if seen.contains(p_id) || exclude_blocks.contains(p_id) {
            continue;
        }
        proof {
            if p_id != start_id {
                let y = choose|y: HashID| #[trigger] seen@.contains(y) && m[y].0.spec_parents().contains(p_id);
                assert(block_wf(m, y));
                let k = choose|k: int| 0 <= k < m[y].0.spec_parents().len() && m[y].0.spec_parents()[k] == p_id;
                assert(m.contains_key(m[y].0.spec_parents()[k]));
            }
        }
        match store.get(p_id) {
            None => {
                return out;
            },
            Some(e) => {
                proof {
                    // p_id is reachable
                    if p_id == start_id {
                        let p = seq![start_id];
                        assert(is_anc_path(m, p, excl));
                    } else {
                        let y = choose|y: HashID| #[trigger] seen@.contains(y) && m[y].0.spec_parents().contains(p_id);
                        assert(ancestors(m, start_id, excl).contains(y));
                        let py = choose|p: Seq<HashID>| #[trigger] is_anc_path(m, p, excl) && p[0] == start_id && p.last() == y;
                        let p2 = py.push(p_id);
                        assert forall|k: int| 0 <= k < p2.len() - 1 implies #[trigger] m[p2[k]].0.spec_parents().contains(p2[k + 1]) by {
                            if k < py.len() - 1 {
                                assert(p2[k] == py[k] && p2[k + 1] == py[k + 1]);
                            } else {
                                assert(p2[k] == y && p2[k + 1] == p_id);
                            }
                        }
                        assert(is_anc_path(m, p2, excl));
                        assert(p2[0] == start_id && p2.last() == p_id);
                    }
                    assert(ancestors(m, start_id, excl).contains(p_id));
                    assert(m.dom().finite());
                    assert(m.dom().difference(seen@.insert(p_id)) =~= m.dom().difference(seen@).remove(p_id));
                    crate::collections::lemma_push_to_set(out@, p_id);
                }
                let ghost old_edge = edge@;
                let ghost old_seen = seen@;
                seen.insert(p_id);
                out.push(p_id);
                let ps = e.0.all_parents();
                let mut k: usize = 0;
                while k < ps.len()
                    invariant
                        k <= ps.len(),
                        ps@ == m[p_id].0.spec_parents(),
                        seen@ == old_seen.insert(p_id),
                        edge@.len() == old_edge.len() + k,
                        forall|j: int| 0 <= j < old_edge.len() ==> #[trigger] edge@[j] == old_edge[j],
                        forall|j: int| 0 <= j < k ==> #[trigger] edge@[old_edge.len() + j] == ps@[j],
                    decreases ps.len() - k,
                {
                    edge.push(ps[k]);
                    k += 1;
                }
                proof {
                    assert forall|j: int|
                        0 <= j < edge@.len() implies edge@[j] == start_id || exists|y: HashID|
                            #[trigger] seen@.contains(y) && m[y].0.spec_parents().contains(edge@[j]) by {
                        if j < old_edge.len() {
                            assert(edge@[j] == old_edge[j]);
                            if old_edge[j] != start_id {
                                let y = choose|y: HashID| #[trigger] old_seen.contains(y) && m[y].0.spec_parents().contains(old_edge[j]);
                                assert(seen@.contains(y));
                            }
                        } else {
                            let jj = j - old_edge.len();
                            assert(edge@[old_edge.len() + jj] == ps@[jj]);
                            assert(m[p_id].0.spec_parents().contains(edge@[j]));
                            assert(seen@.contains(p_id));
                        }
                    }
                    assert forall|y: HashID, q: HashID|
                        #[trigger] seen@.contains(y) && #[trigger] m[y].0.spec_parents().contains(q) implies edge@.contains(q) by {
                        if y == p_id {
                            let jj = choose|jj: int| 0 <= jj < ps@.len() && ps@[jj] == q;
                            assert(edge@[old_edge.len() + jj] == q);
                        } else {
                            assert(old_edge.contains(q));
                            let j = choose|j: int| 0 <= j < old_edge.len() && old_edge[j] == q;
                            assert(edge@[j] == q);
                        }
                    }
                    assert forall|j: int| 0 <= j < i implies seen@.contains(#[trigger] edge@[j]) || excl.contains(edge@[j]) by {
                        assert(edge@[j] == old_edge[j]);
                    }
                }
            },
        }
    }
    proof {
        assert forall|x: HashID| ancestors(m, start_id, excl).contains(x) implies seen@.contains(x) by {
            let p = choose|p: Seq<HashID>| #[trigger] is_anc_path(m, p, excl) && p[0] == start_id && p.last() == x;
            lemma_path_in_seen(m, p, excl, seen@, edge@);
        }
        assert(seen@ =~= ancestors(m, start_id, excl));
    }
    out
}

/// Every block of a path from the first block of `edge` lies in `seen`, when `seen` holds
/// every block of `edge` that is not excluded and `edge` holds every parent of `seen`.
proof fn lemma_path_in_seen<B: BlockT>(
    m: Map<HashID, (B, BlockMD)>,
    p: Seq<HashID>,
    excl: Set<HashID>,
    seen: Set<HashID>,
    edge: Seq<HashID>,
)
    requires
        is_anc_path(m, p, excl),
        edge.len() > 0,
        p[0] == edge[0],
        forall|j: int| 0 <= j < edge.len() ==> seen.contains(#[trigger] edge[j]) || excl.contains(edge[j]),
        forall|y: HashID, q: HashID|
            #[trigger] seen.contains(y) && #[trigger] m[y].0.spec_parents().contains(q) ==> edge.contains(q),
    ensures
        forall|k: int| 0 <= k < p.len() ==> seen.contains(#[trigger] p[k]),
    decreases p.len(),
{
    if p.len() == 1 {
        assert(seen.contains(edge[0]) || excl.contains(edge[0]));
    } else {
        let q = p.drop_last();
        assert(is_anc_path(m, q, excl)) by {
            assert forall|i: int| 0 <= i < q.len() - 1 implies #[trigger] m[q[i]].0.spec_parents().contains(q[i + 1]) by {
                assert(m[p[i]].0.spec_parents().contains(p[i + 1]));
            }
        }
        lemma_path_in_seen(m, q, excl, seen, edge);
        let n = p.len() - 1;
        assert(seen.contains(q[n - 1]));
        let i = n - 1;
        assert(m[p[i]].0.spec_parents().contains(p[i + 1]));
        assert(p[i + 1] == p[n]);
        assert(edge.contains(p[n]));
        let j = choose|j: int| 0 <= j < edge.len() && edge[j] == p[n];
        assert(seen.contains(edge[j]) || excl.contains(edge[j]));
        assert forall|k: int| 0 <= k < p.len() implies seen.contains(#[trigger] p[k]) by {
            if k < n {
                assert(p[k] == q[k]);
            }
        }
    }
}

/// Every block reachable from `start` by going to parents (`start` included), each once.
pub fn all_prev_iter<B: BlockT>(start: &B, store: &BlockStore<B>) -> (r: Vec<HashID>)
    requires
        store.wf(),
        store@.contains_key(start.spec_id()),
    ensures
        r@.no_duplicates(),
        r@.to_set() == ancestors(store@, start.spec_id(), Set::empty()),
{
    let none = IdSet::new();
    all_prev_iter_excluding(start, store, &none)
}

/// The first-parent line below `id`, `n` steps at most, stopping at a genesis block.
pub open spec fn prev_line<B: BlockT>(m: Map<HashID, (B, BlockMD)>, id: HashID, n: nat) -> Seq<HashID>
    decreases n,
{
    if n == 0 || m[id].0.spec_parents()[0] == id {
        Seq::empty()
    } else {
        seq![m[id].0.spec_parents()[0]] + prev_line(m, m[id].0.spec_parents()[0], (n - 1) as nat)
    }
}

/// The blocks below `start` along first parents, nearest first, down to the genesis block.
pub fn prev_iter<B: BlockT>(start: &B, store: &BlockStore<B>) -> (r: Vec<HashID>)
    requires
        store.wf(),
        store@.contains_key(start.spec_id()),
    ensures
        r@ == prev_line(store@, start.spec_id(), store@[start.spec_id()].0.spec_height() as nat),
{
    let ghost m = store@;
    let start_id = start.get_hash();
    let ghost n0 = m[start_id].0.spec_height() as nat;
    let mut out: Vec<HashID> = Vec::new();
    let mut curr = start_id;
    loop
        invariant
            store.wf(),
            m == store@,
            m.contains_key(curr),
            m.contains_key(start_id),
            start_id == start.spec_id(),
            out@ + prev_line(m, curr, m[curr].0.spec_height() as nat) == prev_line(m, start_id, n0),
            n0 == m[start_id].0.spec_height() as nat,
        decreases m[curr].0.spec_height(),
    {
        let e = match store.get(curr) {
            Some(e) => e,
            None => {
                return out;
            },
        };
        proof {
            assert(block_wf(m, curr));
        }
        let p_id = e.0.prev();
        if p_id == curr {
            assert(prev_line(m, curr, m[curr].0.spec_height() as nat) =~= Seq::<HashID>::empty());
            assert(out@ + Seq::<HashID>::empty() =~= out@);
            return out;
        }
        proof {
            assert(m.contains_key(m[curr].0.spec_parents()[0]));
            let h = m[curr].0.spec_height() as nat;
            assert(h > 0);
            assert(prev_line(m, curr, h) =~= seq![p_id] + prev_line(m, p_id, (h - 1) as nat));
            assert(m[p_id].0.spec_height() as nat == (h - 1) as nat);
            assert(out@.push(p_id) + prev_line(m, p_id, (h - 1) as nat) =~= out@ + prev_line(m, curr, h));
        }
        out.push(p_id);
        curr = p_id;
    }
}

} // verus!
