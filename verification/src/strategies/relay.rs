use vstd::prelude::*;
use core::marker::PhantomData;
use crate::block::{ancestors, block_wf, is_anc_path, prev_iter, prev_line, same_block, BlockStore, BlockT};
use crate::block_metadata::BlockMD;
use crate::chain::Chain;
use crate::collections::IdSet;
use crate::cryptosystem::CSystemT;
use crate::msg::MsgToNode;
use crate::node::msgs_ok;
use crate::chain::validation::{sat, spec_is_ancestor};
use crate::types::{HashID, Height, Timestamp};

verus! {

/// A strategy that runs at a network level, on the messages it sees.
pub trait RelayStrategyT<S: CSystemT>: Sized {
    type ResultsTy;

    type Params: Copy;

    /// The strategy can run with these parameters.
    spec fn params_ok(p: Self::Params) -> bool;

    /// The strategy is in a state it can go on from.
    spec fn ready(&self) -> bool;

    fn init(c: &Chain<S::B, S::FR>, atk_start_h: Height, p: Self::Params) -> (r: Self)
        requires
            Self::params_ok(p),
        ensures
            r.ready(),
    ;

    /// Additional msgs that can be provided by attackers when certain conditions are met (e.g.,
    /// selfish mining requires releasing withheld blocks if the honest network releases one).
    fn on_msg(&mut self, store: &BlockStore<S::B>, m: &MsgToNode<S::B>, chain: &Chain<S::B, S::FR>) -> (r: Vec<MsgToNode<S::B>>)
        requires
            old(self).ready(),
            chain.inv(store),
            msgs_ok(store, seq![*m]),
        ensures
            final(self).ready(),
            msgs_ok(store, r@),
    ;

    /// `r` is what the strategy reports as achieved (see [`RelayStrategyT::get_results`]),
    /// with the store `store` and the attacker's chain `c`.
    spec fn results_ok(&self, store: &BlockStore<S::B>, c: &Chain<S::B, S::FR>, r: Option<Self::ResultsTy>) -> bool;

    /// `r` is whether the strategy calls for the simulation to stop at tick `ts` (see
    /// [`RelayStrategyT::should_stop_simulation`]).
    spec fn stop_ok(&self, store: &BlockStore<S::B>, ts: Timestamp, c: &Chain<S::B, S::FR>, r: bool) -> bool;

    /// What the attack achieved, if it is over.
    fn get_results(&self, store: &BlockStore<S::B>, c: &Chain<S::B, S::FR>) -> (r: Option<Self::ResultsTy>)
        requires
            c.inv(store),
        ensures
            self.results_ok(store, c, r),
    ;

    fn should_stop_simulation(&self, store: &BlockStore<S::B>, ts: Timestamp, c: &Chain<S::B, S::FR>) -> (r: bool)
        requires
            c.inv(store),
        ensures
            self.stop_ok(store, ts, c, r),
    ;
}

#[derive(Debug, PartialEq, Clone, Copy)]
pub struct DoubleSpendParams {
    pub attack_starts_at: Height,
    pub win_thres: Height,
}

impl DoubleSpendParams {
    pub fn new(attack_starts_at: Height, win_thres: Height) -> (r: Self)
        ensures
            r.attack_starts_at == attack_starts_at,
            r.win_thres == win_thres,
    {
        DoubleSpendParams { attack_starts_at, win_thres }
    }
}

/// Double spending: the attacker mines in private from the start of the attack and wins
/// once its private chain is ahead after enough public confirmations.
pub struct DoubleSpendStrat<S> {
    pub params: DoubleSpendParams,
    pub atk_start_h: Height,
    pub _s: PhantomData<S>,
}

impl<S: CSystemT> DoubleSpendStrat<S> {
    /// The attack has won: the private side is ahead by the fork rule, and the public height
    /// (of some public best block) is at least `win_thres` above the height the attack
    /// started at.
    pub fn won(&self, store: &BlockStore<S::B>, c: &Chain<S::B, S::FR>) -> (r: bool)
        requires
            c.inv(store),
        ensures
            exists|x: HashID|
                #[trigger] c.best_view(false).contains(x) && r == (c.best_measure(store, false) < c.best_measure(store, true)
                    && store@[x].1.height >= self.atk_start_h + self.params.win_thres),
    {
        let hs = c.get_heights_pub_priv(store);
        let fms = c.get_fork_measure_pub_priv(store);
        fms.public < fms.private && hs.public >= self.atk_start_h as u64 + self.params.win_thres as u64
    }
}

impl<S: CSystemT> RelayStrategyT<S> for DoubleSpendStrat<S> {
    type ResultsTy = (bool, bool);

    type Params = DoubleSpendParams;

    open spec fn params_ok(p: Self::Params) -> bool {
        true
    }

    open spec fn ready(&self) -> bool {
        true
    }

    open spec fn results_ok(&self, store: &BlockStore<S::B>, c: &Chain<S::B, S::FR>, r: Option<(bool, bool)>) -> bool {
        exists|x: HashID|
            #[trigger] c.best_view(false).contains(x) && r == (if c.best_measure(store, false) < c.best_measure(store, true)
                && store@[x].1.height >= self.atk_start_h + self.params.win_thres {
                Some((true, true))
            } else {
                None
            })
    }

    open spec fn stop_ok(&self, store: &BlockStore<S::B>, ts: Timestamp, c: &Chain<S::B, S::FR>, r: bool) -> bool {
        &&& ts < self.params.attack_starts_at ==> !r
        &&& ts >= self.params.attack_starts_at ==> exists|x: HashID|
            #[trigger] c.best_view(false).contains(x) && r == (c.best_measure(store, false) < c.best_measure(store, true)
                && store@[x].1.height > self.atk_start_h + self.params.win_thres)
    }

    fn init(c: &Chain<S::B, S::FR>, atk_start_h: Height, params: Self::Params) -> (r: Self)
        ensures
            r.params == params,
            r.atk_start_h == atk_start_h,
    {
        DoubleSpendStrat { params, atk_start_h, _s: PhantomData }
    }

    /// Double spending adds no messages.
    fn on_msg(&mut self, store: &BlockStore<S::B>, m: &MsgToNode<S::B>, chain: &Chain<S::B, S::FR>) -> (r: Vec<MsgToNode<S::B>>)
        ensures
            r@.len() == 0,
    {
        Vec::new()
    }

    /// `Some((true, true))` once the attack has won (see [`DoubleSpendStrat::won`]).
    fn get_results(&self, store: &BlockStore<S::B>, c: &Chain<S::B, S::FR>) -> (r: Option<(bool, bool)>)
        ensures
            exists|x: HashID|
                #[trigger] c.best_view(false).contains(x) && r == (if c.best_measure(store, false) < c.best_measure(store, true)
                    && store@[x].1.height >= self.atk_start_h + self.params.win_thres {
                    Some((true, true))
                } else {
                    None
                }),
    {
        if self.won(store, c) {
            Some((true, true))
        } else {
            None
        }
    }

    /// Never before the attack starts; then once the private side is ahead by the fork rule
    /// and the public height (of some public best block) is more than `win_thres` above the
    /// height the attack started at.
    fn should_stop_simulation(&self, store: &BlockStore<S::B>, ts: Timestamp, c: &Chain<S::B, S::FR>) -> (r: bool)
        ensures
            ts < self.params.attack_starts_at ==> !r,
            ts >= self.params.attack_starts_at ==> exists|x: HashID|
                #[trigger] c.best_view(false).contains(x) && r == (c.best_measure(store, false) < c.best_measure(store, true)
                    && store@[x].1.height > self.atk_start_h + self.params.win_thres),
    {
        if ts < self.params.attack_starts_at {
            false
        } else {
            let hs = c.get_heights_pub_priv(store);
            let fms = c.get_fork_measure_pub_priv(store);
            fms.public < fms.private && hs.public > self.atk_start_h as u64 + self.params.win_thres as u64
        }
    }
}

/// The kinds of chain selfish mining runs on.
#[derive(Debug, Clone, Copy, PartialEq, Eq)]
pub enum SmChainType {
    LongestChain,
    WeightedChain,
    WeightedDag,
}

impl SmChainType {
    /// The kind's name.
    pub fn name(&self) -> (r: String)
        ensures
            r@ == match *self {
                SmChainType::LongestChain => "LongestChain"@,
                SmChainType::WeightedChain => "WeightedChain"@,
                SmChainType::WeightedDag => "WeightedDag"@,
            },
    {
        match self {
            SmChainType::LongestChain => "LongestChain".to_owned(),
            SmChainType::WeightedChain => "WeightedChain".to_owned(),
            SmChainType::WeightedDag => "WeightedDag".to_owned(),
        }
    }
}

#[derive(Debug, Clone, Copy)]
pub struct SelfishMiningParams {
    pub chain_type: SmChainType,
}

/// The greatest heights of the private and public blocks processed so far.
#[derive(Debug, Clone, Copy, PartialEq, Eq)]
pub struct ProcessedHeights {
    pub private: Height,
    pub public: Height,
}

/// Selfish mining: the attacker withholds the blocks it mines and publishes them when that
/// makes the honest network waste work.
pub struct SelfishMining<S> {
    pub params: SelfishMiningParams,
    /// for selfish mining longest chain
    pub priv_branch_len: u32,
    /// for selfish mining ethereum -- https://arxiv.org/pdf/1901.04620.pdf
    pub l_s: u32,
    pub l_h: u32,
    pub blocks_from_private: IdSet,
    pub blocks_from_public: IdSet,
    pub best_processed_h: ProcessedHeights,
    pub atk_start_h: Height,
    pub _s: PhantomData<S>,
}

/// `r` is the messages that hand each of `bs` (then `b`, when `latest`) to chain `c`, on the
/// private side when `private`.
pub open spec fn sync_msgs<B: BlockT>(r: Seq<MsgToNode<B>>, bs: Seq<B>, b: B, latest: bool, c: HashID, private: bool) -> bool {
    &&& r.len() == bs.len() + (if latest { 1int } else { 0int })
    &&& forall|i: int|
        0 <= i < r.len() ==> match #[trigger] r[i] {
            MsgToNode::MsgBlock(mc, x, p) => mc == c && p == private && same_block(x, if i < bs.len() { bs[i] } else { b }),
        }
}

/// `bs` is what one side lacks of the other (see [`Chain::missing_ids`]), oldest first.
pub open spec fn missing_blocks<S: CSystemT>(bs: Seq<S::B>, store: &BlockStore<S::B>, chain: &Chain<S::B, S::FR>, from_private: bool) -> bool {
    &&& bs.map_values(|b: S::B| b.spec_id()).no_duplicates()
    &&& bs.map_values(|b: S::B| b.spec_id()).to_set() == chain.missing_ids(store, from_private)
    &&& forall|i: int|
        0 <= i < bs.len() ==> store@.contains_key(#[trigger] bs[i].spec_id()) && same_block(bs[i], store@[bs[i].spec_id()].0)
    &&& forall|i: int, j: int|
        0 <= i < j < bs.len() ==> #[trigger] bs[i].spec_ts() < #[trigger] bs[j].spec_ts() || (bs[i].spec_ts() == bs[j].spec_ts()
            && bs[i].spec_height() <= bs[j].spec_height())
}

/// `r` is the messages that publish the private blocks one better than the public ones (see
/// [`Chain::first_priv_better`]).
pub open spec fn first_better_msgs<S: CSystemT>(r: Seq<MsgToNode<S::B>>, store: &BlockStore<S::B>, chain: &Chain<S::B, S::FR>) -> bool {
    &&& r.map_values(|m: MsgToNode<S::B>| msg_block_id(m)).no_duplicates()
    &&& r.map_values(|m: MsgToNode<S::B>| msg_block_id(m)).to_set() == chain.first_priv_better(store)
    &&& forall|i: int|
        0 <= i < r.len() ==> match #[trigger] r[i] {
            MsgToNode::MsgBlock(mc, x, p) => mc == chain.chain_id && !p && store@.contains_key(x.spec_id()) && same_block(
                x,
                store@[x.spec_id()].0,
            ),
        }
}

/// The id of the block a message carries.
pub open spec fn msg_block_id<B: BlockT>(m: MsgToNode<B>) -> HashID {
    match m {
        MsgToNode::MsgBlock(_, b, _) => b.spec_id(),
    }
}

impl<S: CSystemT> SelfishMining<S> {
    /// Hands the public blocks the private side lacks (then `b`, when `include_latest`) to
    /// the private side.
    pub fn sync_pub_to_priv(b: &S::B, store: &BlockStore<S::B>, atk_chain: &Chain<S::B, S::FR>, include_latest: bool) -> (r: Vec<MsgToNode<S::B>>)
        requires
            atk_chain.inv(store),
        ensures
            exists|bs: Seq<S::B>|
                missing_blocks::<S>(bs, store, atk_chain, false) && #[trigger] sync_msgs(r@, bs, *b, include_latest, atk_chain.chain_id, true),
    {
        Self::sync_blocks(b, store, atk_chain, include_latest, true)
    }

    /// Hands the private blocks the public side lacks (then `b`, when `include_latest`) to
    /// the public side.
    pub fn sync_priv_to_pub(b: &S::B, store: &BlockStore<S::B>, atk_chain: &Chain<S::B, S::FR>, include_latest: bool) -> (r: Vec<MsgToNode<S::B>>)
        requires
            atk_chain.inv(store),
        ensures
            exists|bs: Seq<S::B>|
                missing_blocks::<S>(bs, store, atk_chain, true) && #[trigger] sync_msgs(r@, bs, *b, include_latest, atk_chain.chain_id, false),
    {
        Self::sync_blocks(b, store, atk_chain, include_latest, false)
    }

    fn sync_blocks(b: &S::B, store: &BlockStore<S::B>, atk_chain: &Chain<S::B, S::FR>, include_latest: bool, to_private: bool) -> (r: Vec<MsgToNode<S::B>>)
        requires
            atk_chain.inv(store),
        ensures
            exists|bs: Seq<S::B>|
                missing_blocks::<S>(bs, store, atk_chain, !to_private) && #[trigger] sync_msgs(r@, bs, *b, include_latest, atk_chain.chain_id, to_private),
    {
        let from_private = !to_private;
        let mut pre = atk_chain.find_missing_blocks_in(store, from_private);
        let ghost bs = pre@;
        let c = atk_chain.get_chain_id();
        let mut out: Vec<MsgToNode<S::B>> = Vec::new();
        let n = pre.len();
        let mut i: usize = 0;
        while i < n
            invariant
                i <= n,
                n == bs.len(),
                pre@ == bs.subrange(i as int, n as int),
                out@.len() == i,
                forall|t: int| 0 <= t < i ==> match #[trigger] out@[t] {
                    MsgToNode::MsgBlock(mc, x, p) => mc == c && p == !from_private && same_block(x, bs[t]),
                },
            decreases n - i,
        {
            let x = pre.remove(0);
            assert(x == bs[i as int]);
            assert(pre@ =~= bs.subrange(i + 1, n as int));
            out.push(MsgToNode::MsgBlock(c, x, !from_private));
            i += 1;
        }
        if include_latest {
            out.push(MsgToNode::MsgBlock(c, b.copy(), !from_private));
        }
        assert(sync_msgs(out@, bs, *b, include_latest, c, !from_private));
        out
    }

    /// Publishes the private blocks one better than the public ones.
    fn publish_first_better(store: &BlockStore<S::B>, atk_chain: &Chain<S::B, S::FR>) -> (r: Vec<MsgToNode<S::B>>)
        requires
            atk_chain.inv(store),
        ensures
            first_better_msgs::<S>(r@, store, atk_chain),
    {
        let bs = atk_chain.find_first_priv_blocks_better_than_public(store);
        let c = atk_chain.get_chain_id();
        let mut out: Vec<MsgToNode<S::B>> = Vec::new();
        let mut i: usize = 0;
        while i < bs.len()
            invariant
                i <= bs.len(),
                c == atk_chain.chain_id,
                out@.len() == i,
                forall|t: int| 0 <= t < bs@.len() ==> store@.contains_key(#[trigger] bs@[t].0.spec_id()) && store@[bs@[t].0.spec_id()] == *bs@[t],
                forall|t: int| 0 <= t < i ==> match #[trigger] out@[t] {
                    MsgToNode::MsgBlock(mc, x, p) => mc == c && !p && same_block(x, bs@[t].0),
                },
            decreases bs.len() - i,
        {
            out.push(MsgToNode::MsgBlock(c, bs[i].0.copy(), false));
            i += 1;
        }
        proof {
            let oid = out@.map_values(|m: MsgToNode<S::B>| msg_block_id(m));
            let bid = bs@.map_values(|e: &(S::B, crate::block_metadata::BlockMD)| e.0.spec_id());
            assert(oid =~= bid) by {
                assert forall|t: int| 0 <= t < oid.len() implies oid[t] == bid[t] by {
                    match out@[t] {
                        MsgToNode::MsgBlock(mc, x, p) => {
                            assert(same_block(x, bs@[t].0));
                        },
                    }
                }
            }
            assert forall|t: int| 0 <= t < out@.len() implies match #[trigger] out@[t] {
                MsgToNode::MsgBlock(mc, x, p) => mc == atk_chain.chain_id && !p && store@.contains_key(x.spec_id()) && same_block(
                    x,
                    store@[x.spec_id()].0,
                ),
            } by {
                match out@[t] {
                    MsgToNode::MsgBlock(mc, x, p) => {
                        assert(same_block(x, bs@[t].0));
                        assert(store@.contains_key(bs@[t].0.spec_id()));
                    },
                }
            }
        }
        out
    }
}

/// `a - b` wrapped to 64 bits.
pub open spec fn wrap_sub(a: u64, b: u64) -> u64 {
    if a >= b {
        (a - b) as u64
    } else {
        (a - b + 0x1_0000_0000_0000_0000) as u64
    }
}

/// `a + 1` wrapped to 32 bits.
pub open spec fn wrap_inc(a: u32) -> u32 {
    if a == u32::MAX {
        0
    } else {
        (a + 1) as u32
    }
}

impl<S: CSystemT> SelfishMining<S> {
    /// The other fields of the strategy are those of `o`.
    pub open spec fn same_but_sm(&self, o: &Self) -> bool {
        &&& self.params == o.params
        &&& self.l_s == o.l_s
        &&& self.l_h == o.l_h
        &&& self.best_processed_h == o.best_processed_h
        &&& self.atk_start_h == o.atk_start_h
    }

    /// What a message does under selfish mining on the longest chain to the strategy
    /// (`self` before, `new` after) and what it has published (`r`); see
    /// [`SelfishMining::on_msg_selfish_longest_chain`].
    pub open spec fn longest_chain_effect(
        &self,
        new: &Self,
        store: &BlockStore<S::B>,
        m: MsgToNode<S::B>,
        chain: &Chain<S::B, S::FR>,
        r: Seq<MsgToNode<S::B>>,
    ) -> bool {
        match m {
            MsgToNode::MsgBlock(c_id, b, is_private) => if c_id != chain.chain_id {
                &&& r.len() == 0
                &&& new.priv_branch_len == self.priv_branch_len
                &&& new.blocks_from_private@ == self.blocks_from_private@
                &&& new.blocks_from_public@ == self.blocks_from_public@
            } else {
                exists|hp: HashID, hq: HashID|
                    #![trigger chain.best_view(true).contains(hp), chain.best_view(false).contains(hq)]
                    chain.best_view(true).contains(hp) && chain.best_view(false).contains(hq) && {
                        let lead = wrap_sub(store@[hp].1.height as u64, store@[hq].1.height as u64);
                        if !is_private {
                            &&& new.blocks_from_public@ == self.blocks_from_public@.insert(b.spec_id())
                            &&& new.blocks_from_private@ == self.blocks_from_private@
                            &&& lead == 0 ==> new.priv_branch_len == 0 && exists|bs: Seq<S::B>|
                                missing_blocks::<S>(bs, store, chain, false) && #[trigger] sync_msgs(r, bs, b, true, c_id, true)
                            &&& lead == 1 ==> new.priv_branch_len == self.priv_branch_len && exists|bs: Seq<S::B>|
                                missing_blocks::<S>(bs, store, chain, true) && #[trigger] sync_msgs(r, bs, b, false, c_id, false)
                            &&& lead == 2 ==> new.priv_branch_len == 0 && exists|bs: Seq<S::B>|
                                missing_blocks::<S>(bs, store, chain, true) && #[trigger] sync_msgs(r, bs, b, false, c_id, false)
                            &&& lead > 2 ==> new.priv_branch_len == self.priv_branch_len && first_better_msgs::<S>(r, store, chain)
                        } else {
                            &&& new.blocks_from_private@ == self.blocks_from_private@.insert(b.spec_id())
                            &&& new.blocks_from_public@ == self.blocks_from_public@
                            &&& if lead == 0 && wrap_inc(self.priv_branch_len) == 2 {
                                &&& new.priv_branch_len == 0
                                &&& exists|bs: Seq<S::B>|
                                    missing_blocks::<S>(bs, store, chain, true) && #[trigger] sync_msgs(r, bs, b, true, c_id, false)
                            } else {
                                &&& new.priv_branch_len == wrap_inc(self.priv_branch_len)
                                &&& r.len() == 0
                            }
                        }
                    }
            },
        }
    }

    /// Selfish mining on the longest chain (Eyal and Sirer). With `lead` the private height
    /// less the public one (of some best block of each side) before the message: a public
    /// block is recorded and, with a lead of 0, the private side adopts the public one (and
    /// this block) and the private branch is reset; with a lead of 1 the private blocks the
    /// public side lacks are published; with 2 likewise, and the private branch is reset;
    /// above, the private blocks one better than the public ones are published. A private
    /// block is recorded and extends the private branch; with a lead of 0 and a branch of 2,
    /// the whole private side (and this block) is published and the branch reset. Messages
    /// of other chains change nothing.
    pub fn on_msg_selfish_longest_chain(&mut self, store: &BlockStore<S::B>, msg_from: &MsgToNode<S::B>, atk_chain: &Chain<S::B, S::FR>) -> (r: Vec<MsgToNode<S::B>>)
        requires
            atk_chain.inv(store),
        ensures
            final(self).same_but_sm(old(self)),
            msgs_ok(store, seq![*msg_from]) ==> msgs_ok(store, r@),
            old(self).longest_chain_effect(final(self), store, *msg_from, atk_chain, r@),
    {
        let h = atk_chain.get_heights_pub_priv(store);
        let delta_prev = h.private.wrapping_sub(h.public);
        let chain_id = atk_chain.get_chain_id();
        proof {
            if msgs_ok(store, seq![*msg_from]) {
                assert(seq![*msg_from][0] == *msg_from);
            }
        }
        match msg_from {
            MsgToNode::MsgBlock(c_id, b, is_private) => {
                if *c_id != chain_id {
                    return Vec::new();
                }
                if !*is_private {
                    self.blocks_from_public.insert(b.get_hash());
                    if delta_prev == 0 {
                        self.priv_branch_len = 0;
                        let out = Self::sync_pub_to_priv(b, store, atk_chain, true);
                        proof {
                            let bs = choose|bs: Seq<S::B>|
                                missing_blocks::<S>(bs, store, atk_chain, false) && #[trigger] sync_msgs(out@, bs, *b, true, chain_id, true);
                            if msgs_ok(store, seq![*msg_from]) {
                                lemma_sync_msgs_ok(out@, bs, *b, true, chain_id, true, store);
                            }
                        }
                        out
                    } else if delta_prev == 1 || delta_prev == 2 {
                        if delta_prev == 2 {
                            self.priv_branch_len = 0;
                        }
                        let out = Self::sync_priv_to_pub(b, store, atk_chain, false);
                        proof {
                            let bs = choose|bs: Seq<S::B>|
                                missing_blocks::<S>(bs, store, atk_chain, true) && #[trigger] sync_msgs(out@, bs, *b, false, chain_id, false);
                            lemma_sync_msgs_ok(out@, bs, *b, false, chain_id, false, store);
                        }
                        out
                    } else {
                        let out = Self::publish_first_better(store, atk_chain);
                        proof {
                            lemma_first_better_msgs_ok::<S>(out@, store, atk_chain);
                        }
                        out
                    }
                } else {
                    self.blocks_from_private.insert(b.get_hash());
                    self.priv_branch_len = self.priv_branch_len.wrapping_add(1);
                    if delta_prev == 0 && self.priv_branch_len == 2 {
                        self.priv_branch_len = 0;
                        let out = Self::sync_priv_to_pub(b, store, atk_chain, true);
                        proof {
                            let bs = choose|bs: Seq<S::B>|
                                missing_blocks::<S>(bs, store, atk_chain, true) && #[trigger] sync_msgs(out@, bs, *b, true, chain_id, false);
                            if msgs_ok(store, seq![*msg_from]) {
                                lemma_sync_msgs_ok(out@, bs, *b, true, chain_id, false, store);
                            }
                        }
                        out
                    } else {
                        Vec::new()
                    }
                }
            },
        }
    }
}

/// Messages that hand on stored blocks (then `b`, when `latest`) carry blocks that can be
/// taken in, when `b` can.
proof fn lemma_sync_msgs_ok<B: BlockT>(r: Seq<MsgToNode<B>>, bs: Seq<B>, b: B, latest: bool, c: HashID, p: bool, store: &BlockStore<B>)
    requires
        store.wf(),
        forall|i: int| 0 <= i < bs.len() ==> store@.contains_key(#[trigger] bs[i].spec_id()) && same_block(bs[i], store@[bs[i].spec_id()].0),
        sync_msgs(r, bs, b, latest, c, p),
        latest ==> b.spec_parents().len() > 0 && (!store@.contains_key(b.spec_id()) ==> b.spec_difficulty() > 0),
    ensures
        msgs_ok(store, r),
{
    assert forall|i: int| 0 <= i < r.len() implies match #[trigger] r[i] {
        MsgToNode::MsgBlock(_, x, _) => x.spec_parents().len() > 0 && (!store@.contains_key(x.spec_id()) ==> x.spec_difficulty() > 0),
    } by {
        match r[i] {
            MsgToNode::MsgBlock(_, x, _) => {
                if i < bs.len() {
                    assert(block_wf(store@, bs[i].spec_id()));
                }
            },
        }
    }
}

/// Messages that publish stored blocks carry blocks that can be taken in.
proof fn lemma_first_better_msgs_ok<S: CSystemT>(r: Seq<MsgToNode<S::B>>, store: &BlockStore<S::B>, chain: &Chain<S::B, S::FR>)
    requires
        store.wf(),
        first_better_msgs::<S>(r, store, chain),
    ensures
        msgs_ok(store, r),
{
    assert forall|i: int| 0 <= i < r.len() implies match #[trigger] r[i] {
        MsgToNode::MsgBlock(_, x, _) => x.spec_parents().len() > 0 && (!store@.contains_key(x.spec_id()) ==> x.spec_difficulty() > 0),
    } by {
        match r[i] {
            MsgToNode::MsgBlock(_, x, _) => {
                assert(block_wf(store@, x.spec_id()));
            },
        }
    }
}

/// The messages of `msgs` whose block's recorded chain weight is at most `max`, in order.
pub open spec fn keep_within<B: BlockT>(msgs: Seq<MsgToNode<B>>, store: &BlockStore<B>, max: u64) -> Seq<MsgToNode<B>>
    decreases msgs.len(),
{
    if msgs.len() == 0 {
        Seq::empty()
    } else {
        let r = keep_within(msgs.drop_last(), store, max);
        if store@[msg_block_id(msgs.last())].1.chain_weight <= max {
            r.push(msgs.last())
        } else {
            r
        }
    }
}

impl<S: CSystemT> SelfishMining<S> {
    /// Selfish mining as on Ethereum (Feng and Niu), on the counts `l_s` and `l_h` of the
    /// private and public blocks mined since the last fork. A private block is recorded and,
    /// if it is higher than every private block processed, counts; with `l_s` at 2 and `l_h`
    /// at 1 the counts are reset and the whole private side (and this block) published. A
    /// public block is recorded and, if it is higher than every public block processed,
    /// counts; then if the public side leads, the counts are reset and the private side adopts
    /// the public one (and this block); if the sides are even or the private side leads by
    /// one, the private blocks the public side lacks are published; otherwise, if the block
    /// is mined on an ancestor of a private best block, the counts become `l_s - l_h + 1` and
    /// 1, and the private blocks the public side lacks are published up to the chain weight
    /// of the block's parent plus twice its difficulty. Messages of other chains change
    /// nothing.
    pub fn on_msg_selfish_ethereum(&mut self, store: &BlockStore<S::B>, msg_from: &MsgToNode<S::B>, atk_chain: &Chain<S::B, S::FR>) -> (r: Vec<MsgToNode<S::B>>)
        requires
            atk_chain.inv(store),
            match *msg_from {
                MsgToNode::MsgBlock(c, b, p) => (c == atk_chain.chain_id && !p) ==> b.spec_parents().len() > 0
                    && store@.contains_key(b.spec_parents()[0]),
            },
        ensures
            final(self).params == old(self).params,
            final(self).atk_start_h == old(self).atk_start_h,
            final(self).priv_branch_len == old(self).priv_branch_len,
            match *msg_from {
                MsgToNode::MsgBlock(c, b, p) => if c != atk_chain.chain_id {
                    &&& r@.len() == 0
                    &&& final(self).l_s == old(self).l_s
                    &&& final(self).l_h == old(self).l_h
                    &&& final(self).best_processed_h == old(self).best_processed_h
                    &&& final(self).blocks_from_private@ == old(self).blocks_from_private@
                    &&& final(self).blocks_from_public@ == old(self).blocks_from_public@
                } else if p {
                    let counts = old(self).best_processed_h.private < b.spec_height();
                    let ls1 = if counts { wrap_inc(old(self).l_s) } else { old(self).l_s };
                    &&& final(self).blocks_from_private@ == old(self).blocks_from_private@.insert(b.spec_id())
                    &&& final(self).blocks_from_public@ == old(self).blocks_from_public@
                    &&& final(self).best_processed_h.public == old(self).best_processed_h.public
                    &&& final(self).best_processed_h.private == (if counts {
                        b.spec_height()
                    } else {
                        old(self).best_processed_h.private
                    })
                    &&& if ls1 == 2 && old(self).l_h == 1 {
                        &&& final(self).l_s == 0
                        &&& final(self).l_h == 0
                        &&& exists|bs: Seq<S::B>|
                            missing_blocks::<S>(bs, store, atk_chain, true) && #[trigger] sync_msgs(r@, bs, b, true, c, false)
                    } else {
                        &&& final(self).l_s == ls1
                        &&& final(self).l_h == old(self).l_h
                        &&& r@.len() == 0
                    }
                } else {
                    let counts = old(self).best_processed_h.public < b.spec_height();
                    let lh1 = if counts { wrap_inc(old(self).l_h) } else { old(self).l_h };
                    let ls = old(self).l_s;
                    &&& final(self).blocks_from_public@ == old(self).blocks_from_public@.insert(b.spec_id())
                    &&& final(self).blocks_from_private@ == old(self).blocks_from_private@
                    &&& final(self).best_processed_h.private == old(self).best_processed_h.private
                    &&& final(self).best_processed_h.public == (if counts {
                        b.spec_height()
                    } else {
                        old(self).best_processed_h.public
                    })
                    &&& if ls < lh1 {
                        &&& final(self).l_s == 0
                        &&& final(self).l_h == 0
                        &&& exists|bs: Seq<S::B>|
                            missing_blocks::<S>(bs, store, atk_chain, false) && #[trigger] sync_msgs(r@, bs, b, true, c, true)
                    } else if ls == lh1 || ls == lh1 + 1 {
                        &&& final(self).l_s == ls
                        &&& final(self).l_h == lh1
                        &&& exists|bs: Seq<S::B>|
                            missing_blocks::<S>(bs, store, atk_chain, true) && #[trigger] sync_msgs(r@, bs, b, false, c, false)
                    } else {
                        let prefix = exists|x: HashID|
                            #[trigger] atk_chain.best_view(true).contains(x) && spec_is_ancestor(store@, b.spec_parents()[0], x);
                        let max = sat(store@[b.spec_parents()[0]].1.chain_weight + 2 * b.spec_difficulty());
                        &&& final(self).l_s == (if prefix { wrap_inc((ls - lh1) as u32) } else { ls })
                        &&& final(self).l_h == (if prefix { 1 } else { lh1 })
                        &&& exists|bs: Seq<S::B>, all: Seq<MsgToNode<S::B>>|
                            missing_blocks::<S>(bs, store, atk_chain, true) && #[trigger] sync_msgs(all, bs, b, false, c, false)
                                && r@ == keep_within(all, store, max)
                    }
                },
            },
    {
        let chain_id = atk_chain.get_chain_id();
        match msg_from {
            MsgToNode::MsgBlock(c_id, b, true) => {
                if *c_id != chain_id {
                    return Vec::new();
                }
                self.blocks_from_private.insert(b.get_hash());
                if self.best_processed_h.private >= b.get_height() {
                } else {
                    self.best_processed_h.private = b.get_height();
                    self.l_s = self.l_s.wrapping_add(1);
                }
                if self.l_s == 2 && self.l_h == 1 {
                    self.l_h = 0;
                    self.l_s = 0;
                    Self::sync_priv_to_pub(b, store, atk_chain, true)
                } else {
                    Vec::new()
                }
            },
            MsgToNode::MsgBlock(c_id, b, false) => {
                if *c_id != chain_id {
                    return Vec::new();
                }
                self.blocks_from_public.insert(b.get_hash());
                if self.best_processed_h.public >= b.get_height() {
                } else {
                    self.best_processed_h.public = b.get_height();
                    self.l_h = self.l_h.wrapping_add(1);
                }
                if self.l_s < self.l_h {
                    self.l_h = 0;
                    self.l_s = 0;
                    Self::sync_pub_to_priv(b, store, atk_chain, true)
                } else if self.l_s == self.l_h {
                    Self::sync_priv_to_pub(b, store, atk_chain, false)
                } else if self.l_s as u64 == self.l_h as u64 + 1 {
                    Self::sync_priv_to_pub(b, store, atk_chain, false)
                } else {
                    let prev = b.prev();
                    let best_priv = atk_chain.get_best_blocks(true).to_vec();
                    let mut is_mined_on_prefix = false;
                    let mut i: usize = 0;
                    while i < best_priv.len()
                        invariant
                            atk_chain.inv(store),
                            i <= best_priv.len(),
                            best_priv@.to_set() == atk_chain.best_view(true),
                            is_mined_on_prefix == exists|t: int| 0 <= t < i && spec_is_ancestor(store@, prev, #[trigger] best_priv@[t]),
                        decreases best_priv.len() - i,
                    {
                        if atk_chain.block_is_ancestor_of(store, prev, best_priv[i]) {
                            is_mined_on_prefix = true;
                        }
                        i += 1;
                    }
                    proof {
                        if is_mined_on_prefix {
                            let t = choose|t: int| 0 <= t < best_priv@.len() && spec_is_ancestor(store@, prev, #[trigger] best_priv@[t]);
                            assert(best_priv@.to_set().contains(best_priv@[t]));
                        } else {
                            assert forall|x: HashID| #[trigger] atk_chain.best_view(true).contains(x) implies !spec_is_ancestor(store@, prev, x) by {
                                assert(best_priv@.to_set().contains(x));
                                let t = choose|t: int| 0 <= t < best_priv@.len() && best_priv@[t] == x;
                                assert(!spec_is_ancestor(store@, prev, best_priv@[t]));
                            }
                        }
                    }
                    if is_mined_on_prefix {
                        self.l_s = (self.l_s - self.l_h).wrapping_add(1);
                        self.l_h = 1;
                    }
                    let max_chain_weight = atk_chain.get_chain_weight_at(store, prev).saturating_add(
                        b.get_difficulty().saturating_add(b.get_difficulty()),
                    );
                    let mut all = Self::sync_priv_to_pub(b, store, atk_chain, false);
                    let ghost all0 = all@;
                    let ghost bs = choose|bs: Seq<S::B>|
                        missing_blocks::<S>(bs, store, atk_chain, true) && #[trigger] sync_msgs(all0, bs, *b, false, chain_id, false);
                    let mut out: Vec<MsgToNode<S::B>> = Vec::new();
                    let n = all.len();
                    let mut j: usize = 0;
                    assert(all0.take(0) =~= Seq::<MsgToNode<S::B>>::empty());
                    while j < n
                        invariant
                            atk_chain.inv(store),
                            n == all0.len(),
                            j <= n,
                            all@ == all0.subrange(j as int, n as int),
                            missing_blocks::<S>(bs, store, atk_chain, true),
                            sync_msgs(all0, bs, *b, false, chain_id, false),
                            out@ == keep_within(all0.take(j as int), store, max_chain_weight),
                        decreases n - j,
                    {
                        let m = all.remove(0);
                        assert(m == all0[j as int]);
                        assert(all@ =~= all0.subrange(j + 1, n as int));
                        assert(all0.take(j + 1).drop_last() =~= all0.take(j as int));
                        assert(all0.take(j + 1).last() == all0[j as int]);
                        let keep = match &m {
                            MsgToNode::MsgBlock(_, pb, _) => {
                                proof {
                                    assert(same_block(*pb, bs[j as int]));
                                    assert(store@.contains_key(bs[j as int].spec_id()));
                                }
                                atk_chain.get_chain_weight_at(store, pb.get_hash()) <= max_chain_weight
                            },
                        };
                        if keep {
                            out.push(m);
                        }
                        j += 1;
                    }
                    assert(all0.take(n as int) =~= all0);
                    out
                }
            },
        }
    }
}

/// What selfish mining counts once it is over: blocks in the public history by who mined
/// them, with their summed weights (saturating), the same along the main chain, and the
/// blocks each side mined.
#[derive(Debug, Clone, Copy, PartialEq, Eq)]
pub struct SmCounts {
    pub chain_priv_count: u64,
    pub chain_pub_count: u64,
    pub chain_other_count: u64,
    pub chain_priv_weight: u64,
    pub chain_pub_weight: u64,
    pub chain_other_weight: u64,
    pub main_chain_priv_c: u64,
    pub main_chain_pub_c: u64,
    pub main_chain_other_c: u64,
    pub n_priv_blocks: u64,
    pub n_pub_blocks: u64,
}

/// The blocks of `s` in `a` and not in `b`.
pub open spec fn count_in(s: Seq<HashID>, a: Set<HashID>, b: Set<HashID>) -> nat
    decreases s.len(),
{
    if s.len() == 0 {
        0
    } else {
        count_in(s.drop_last(), a, b) + (if a.contains(s.last()) && !b.contains(s.last()) { 1nat } else { 0nat })
    }
}

/// The summed weights of the stored blocks of `s` in `a` and not in `b`.
pub open spec fn weight_in<B: BlockT>(m: Map<HashID, (B, BlockMD)>, s: Seq<HashID>, a: Set<HashID>, b: Set<HashID>) -> int
    decreases s.len(),
{
    if s.len() == 0 {
        0
    } else {
        weight_in(m, s.drop_last(), a, b) + (if a.contains(s.last()) && !b.contains(s.last()) {
            m[s.last()].1.weight as int
        } else {
            0
        })
    }
}

/// Where every block of `s` weighs `d`, the weight of the blocks of `s` in `a` and not in `b`
/// is `d` times their number.
pub proof fn lemma_weight_is_count_times<B: BlockT>(m: Map<HashID, (B, BlockMD)>, s: Seq<HashID>, a: Set<HashID>, b: Set<HashID>, d: u64)
    requires
        forall|i: int| 0 <= i < s.len() ==> m[#[trigger] s[i]].1.weight == d,
    ensures
        weight_in(m, s, a, b) == d * count_in(s, a, b),
    decreases s.len(),
{
    if s.len() > 0 {
        let s0 = s.drop_last();
        assert forall|i: int| 0 <= i < s0.len() implies m[#[trigger] s0[i]].1.weight == d by {
            assert(s0[i] == s[i]);
        }
        lemma_weight_is_count_times(m, s0, a, b, d);
        assert(m[s[s.len() - 1]].1.weight == d);
        let c0 = count_in(s0, a, b);
        let w0 = weight_in(m, s0, a, b);
        if a.contains(s.last()) && !b.contains(s.last()) {
            assert(count_in(s, a, b) == c0 + 1);
            assert(weight_in(m, s, a, b) == w0 + d);
            assert(d * (c0 + 1) == d * c0 + d) by (nonlinear_arith);
        } else {
            assert(count_in(s, a, b) == c0);
            assert(weight_in(m, s, a, b) == w0);
        }
        assert(weight_in(m, s, a, b) == d * count_in(s, a, b));
    } else {
        assert(count_in(s, a, b) == 0);
        assert(weight_in(m, s, a, b) == 0);
    }
}

/// The weights selfish mining counts are sums of block weights (difficulties), not of chain
/// weights: where every block of the public history weighs `d`, each side's weight in it is
/// `d` times the number of its blocks (saturating).
pub proof fn lemma_counted_weights_uniform<B: BlockT>(
    r: SmCounts,
    m: Map<HashID, (B, BlockMD)>,
    s: Seq<HashID>,
    line: Seq<HashID>,
    p: Set<HashID>,
    q: Set<HashID>,
    d: u64,
)
    requires
        counts_of(r, m, s, line, p, q),
        forall|i: int| 0 <= i < s.len() ==> m[#[trigger] s[i]].1.weight == d,
    ensures
        r.chain_priv_weight == sat(d * r.chain_priv_count),
        r.chain_pub_weight == sat(d * r.chain_pub_count),
        r.chain_other_weight == sat(d * r.chain_other_count),
{
    lemma_weight_is_count_times(m, s, p, Set::empty(), d);
    lemma_weight_is_count_times(m, s, q, p, d);
    lemma_weight_is_count_times(m, s, all_ids(), p.union(q), d);
}

/// Every id.
pub open spec fn all_ids() -> Set<HashID> {
    Set::new(|x: HashID| true)
}

/// The blocks reachable from one of `starts`.
pub open spec fn reachable<B: BlockT>(m: Map<HashID, (B, BlockMD)>, starts: Set<HashID>) -> Set<HashID> {
    Set::new(|x: HashID| exists|s: HashID| #[trigger] starts.contains(s) && ancestors(m, s, Set::empty()).contains(x))
}

/// The counts of `s` (the public history) and `line` (the main chain) against the blocks
/// each side mined.
pub open spec fn counts_of<B: BlockT>(r: SmCounts, m: Map<HashID, (B, BlockMD)>, s: Seq<HashID>, line: Seq<HashID>, p: Set<HashID>, q: Set<HashID>) -> bool {
    &&& r.chain_priv_count == count_in(s, p, Set::empty())
    &&& r.chain_pub_count == count_in(s, q, p)
    &&& r.chain_other_count == count_in(s, all_ids(), p.union(q))
    &&& r.chain_priv_weight == sat(weight_in(m, s, p, Set::empty()))
    &&& r.chain_pub_weight == sat(weight_in(m, s, q, p))
    &&& r.chain_other_weight == sat(weight_in(m, s, all_ids(), p.union(q)))
    &&& r.main_chain_priv_c == count_in(line, p, Set::empty())
    &&& r.main_chain_pub_c == count_in(line, q, p)
    &&& r.main_chain_other_c == count_in(line, all_ids(), p.union(q))
}

/// Every block reachable from one of `starts`, each once.
fn reachable_ids<B: BlockT>(store: &BlockStore<B>, starts: &Vec<HashID>) -> (r: Vec<HashID>)
    requires
        store.wf(),
        forall|i: int| 0 <= i < starts@.len() ==> store@.contains_key(#[trigger] starts@[i]),
    ensures
        r@.no_duplicates(),
        r@.to_set() == reachable(store@, starts@.to_set()),
{
    let ghost m = store@;
    let mut seen = IdSet::new();
    let mut out: Vec<HashID> = Vec::new();
    let mut i: usize = 0;
    while i < starts.len()
        invariant
            store.wf(),
            m == store@,
            i <= starts.len(),
            forall|t: int| 0 <= t < starts@.len() ==> m.contains_key(#[trigger] starts@[t]),
            out@.no_duplicates(),
            seen@ == out@.to_set(),
            out@.to_set() == reachable(m, starts@.take(i as int).to_set()),
        decreases starts.len() - i,
    {
        let e = store.get(starts[i]).unwrap();
        proof {
            assert(block_wf(m, starts@[i as int]));
        }
        let ids = crate::block::all_prev_iter(&e.0, store);
        let ghost out0 = out@;
        let mut k: usize = 0;
        while k < ids.len()
            invariant
                k <= ids.len(),
                out@.no_duplicates(),
                seen@ == out@.to_set(),
                out@.to_set() == out0.to_set().union(ids@.take(k as int).to_set()),
            decreases ids.len() - k,
        {
            let x = ids[k];
            proof {
                assert(ids@.take(k + 1) =~= ids@.take(k as int).push(x));
                crate::collections::lemma_push_to_set(ids@.take(k as int), x);
            }
            if !seen.contains(x) {
                proof {
                    crate::collections::lemma_push_to_set(out@, x);
                }
                out.push(x);
                seen.insert(x);
            }
            k += 1;
        }
        proof {
            assert(ids@.take(ids.len() as int) =~= ids@);
            let st = starts@.take(i + 1);
            assert(st =~= starts@.take(i as int).push(starts@[i as int]));
            crate::collections::lemma_push_to_set(starts@.take(i as int), starts@[i as int]);
            assert(out@.to_set() =~= reachable(m, st.to_set())) by {
                assert forall|x: HashID| out@.to_set().contains(x) <==> reachable(m, st.to_set()).contains(x) by {
                    if reachable(m, st.to_set()).contains(x) {
                        let s0 = choose|s0: HashID| #[trigger] st.to_set().contains(s0) && ancestors(m, s0, Set::empty()).contains(x);
                        if s0 != starts@[i as int] {
                            assert(starts@.take(i as int).to_set().contains(s0));
                            assert(reachable(m, starts@.take(i as int).to_set()).contains(x));
                        }
                    }
                    if ids@.to_set().contains(x) {
                        assert(st.to_set().contains(starts@[i as int]));
                    }
                    if out0.to_set().contains(x) {
                        let s0 = choose|s0: HashID| #[trigger] starts@.take(i as int).to_set().contains(s0) && ancestors(m, s0, Set::empty()).contains(x);
                        assert(st.to_set().contains(s0));
                    }
                }
            }
        }
        i += 1;
    }
    assert(starts@.take(starts.len() as int) =~= starts@);
    out
}

impl<S: CSystemT> SelfishMining<S> {
    /// Counts the blocks of `s` each side mined (see [`SmCounts`]).
    fn count_history(&self, store: &BlockStore<S::B>, s: &Vec<HashID>) -> (r: (u64, u64, u64, u64, u64, u64))
        requires
            forall|i: int| 0 <= i < s@.len() ==> store@.contains_key(#[trigger] s@[i]),
        ensures
            r.0 == count_in(s@, self.blocks_from_private@, Set::empty()),
            r.1 == count_in(s@, self.blocks_from_public@, self.blocks_from_private@),
            r.2 == count_in(s@, all_ids(), self.blocks_from_private@.union(self.blocks_from_public@)),
            r.3 == sat(weight_in(store@, s@, self.blocks_from_private@, Set::empty())),
            r.4 == sat(weight_in(store@, s@, self.blocks_from_public@, self.blocks_from_private@)),
            r.5 == sat(weight_in(store@, s@, all_ids(), self.blocks_from_private@.union(self.blocks_from_public@))),
    {
        let ghost m = store@;
        let ghost p = self.blocks_from_private@;
        let ghost q = self.blocks_from_public@;
        let mut c = (0u64, 0u64, 0u64, 0u64, 0u64, 0u64);
        let mut i: usize = 0;
        assert(s@.take(0) =~= Seq::<HashID>::empty());
        while i < s.len()
            invariant
                m == store@,
                p == self.blocks_from_private@,
                q == self.blocks_from_public@,
                i <= s.len(),
                forall|t: int| 0 <= t < s@.len() ==> m.contains_key(#[trigger] s@[t]),
                c.0 == count_in(s@.take(i as int), p, Set::empty()),
                c.1 == count_in(s@.take(i as int), q, p),
                c.2 == count_in(s@.take(i as int), all_ids(), p.union(q)),
                c.0 + c.1 + c.2 == i,
                c.3 == sat(weight_in(m, s@.take(i as int), p, Set::empty())),
                c.4 == sat(weight_in(m, s@.take(i as int), q, p)),
                c.5 == sat(weight_in(m, s@.take(i as int), all_ids(), p.union(q))),
                weight_in(m, s@.take(i as int), p, Set::empty()) >= 0,
                weight_in(m, s@.take(i as int), q, p) >= 0,
                weight_in(m, s@.take(i as int), all_ids(), p.union(q)) >= 0,
            decreases s.len() - i,
        {
            let x = s[i];
            assert(s@.take(i + 1).drop_last() =~= s@.take(i as int));
            assert(s@.take(i + 1).last() == x);
            let w = store.get(x).unwrap().1.weight;
            let ghost t = s@.take(i as int);
            if self.blocks_from_private.contains(x) {
                proof {
                    lemma_sat_grow(weight_in(m, t, p, Set::empty()), w as int);
                }
                c.0 = c.0 + 1;
                c.3 = c.3.saturating_add(w);
            } else if self.blocks_from_public.contains(x) {
                proof {
                    lemma_sat_grow(weight_in(m, t, q, p), w as int);
                }
                c.1 = c.1 + 1;
                c.4 = c.4.saturating_add(w);
            } else {
                proof {
                    lemma_sat_grow(weight_in(m, t, all_ids(), p.union(q)), w as int);
                }
                c.2 = c.2 + 1;
                c.5 = c.5.saturating_add(w);
            }
            i += 1;
        }
        assert(s@.take(s.len() as int) =~= s@);
        c
    }

    /// Counts the blocks of `s` each side mined, without weights.
    fn count_line(&self, s: &Vec<HashID>) -> (r: (u64, u64, u64))
        ensures
            r.0 == count_in(s@, self.blocks_from_private@, Set::empty()),
            r.1 == count_in(s@, self.blocks_from_public@, self.blocks_from_private@),
            r.2 == count_in(s@, all_ids(), self.blocks_from_private@.union(self.blocks_from_public@)),
    {
        let ghost p = self.blocks_from_private@;
        let ghost q = self.blocks_from_public@;
        let mut c = (0u64, 0u64, 0u64);
        let mut i: usize = 0;
        assert(s@.take(0) =~= Seq::<HashID>::empty());
        while i < s.len()
            invariant
                p == self.blocks_from_private@,
                q == self.blocks_from_public@,
                i <= s.len(),
                c.0 == count_in(s@.take(i as int), p, Set::empty()),
                c.1 == count_in(s@.take(i as int), q, p),
                c.2 == count_in(s@.take(i as int), all_ids(), p.union(q)),
                c.0 + c.1 + c.2 == i,
            decreases s.len() - i,
        {
            let x = s[i];
            assert(s@.take(i + 1).drop_last() =~= s@.take(i as int));
            assert(s@.take(i + 1).last() == x);
            if self.blocks_from_private.contains(x) {
                c.0 = c.0 + 1;
            } else if self.blocks_from_public.contains(x) {
                c.1 = c.1 + 1;
            } else {
                c.2 = c.2 + 1;
            }
            i += 1;
        }
        assert(s@.take(s.len() as int) =~= s@);
        c
    }

    /// The counts once the attack is over (see [`SmCounts`]): over the blocks reachable from
    /// the public best blocks, each once, and over the main chain from one public best block
    /// (chosen at random) down to the genesis block.
    pub fn get_counts(&self, store: &BlockStore<S::B>, c: &Chain<S::B, S::FR>) -> (r: SmCounts)
        requires
            c.inv(store),
        ensures
            exists|s: Seq<HashID>, top: HashID|
                #![trigger c.best_view(false).contains(top), s.to_set()]
                s.no_duplicates() && s.to_set() == reachable(store@, c.best_view(false)) && c.best_view(false).contains(top)
                    && counts_of(
                    r,
                    store@,
                    s,
                    seq![top] + prev_line(store@, top, store@[top].0.spec_height() as nat),
                    self.blocks_from_private@,
                    self.blocks_from_public@,
                ),
            r.n_priv_blocks == self.blocks_from_private@.len(),
            r.n_pub_blocks == self.blocks_from_public@.len(),
    {
        let ghost m = store@;
        let heads = c.get_best_blocks(false).to_vec();
        proof {
            assert forall|i: int| 0 <= i < heads@.len() implies m.contains_key(#[trigger] heads@[i]) by {
                assert(heads@.to_set().contains(heads@[i]));
            }
        }
        let hist = reachable_ids(store, &heads);
        proof {
            assert forall|i: int| 0 <= i < hist@.len() implies m.contains_key(#[trigger] hist@[i]) by {
                assert(hist@.to_set().contains(hist@[i]));
                let s0 = choose|s0: HashID| #[trigger] heads@.to_set().contains(s0) && ancestors(m, s0, Set::empty()).contains(hist@[i]);
                let p = choose|p: Seq<HashID>| #[trigger] is_anc_path(m, p, Set::empty()) && p[0] == s0 && p.last() == hist@[i];
                assert(m.contains_key(p[p.len() - 1]));
            }
        }
        let h = self.count_history(store, &hist);
        let top = c.select_best_block(false);
        let e = store.get(top).unwrap();
        proof {
            assert(block_wf(m, top));
        }
        let below = prev_iter(&e.0, store);
        let mut line: Vec<HashID> = Vec::new();
        line.push(top);
        let mut k: usize = 0;
        while k < below.len()
            invariant
                k <= below.len(),
                line@ == seq![top] + below@.take(k as int),
            decreases below.len() - k,
        {
            line.push(below[k]);
            assert(below@.take(k + 1) =~= below@.take(k as int).push(below@[k as int]));
            k += 1;
        }
        assert(below@.take(below.len() as int) =~= below@);
        let mc = self.count_line(&line);
        let r = SmCounts {
            chain_priv_count: h.0,
            chain_pub_count: h.1,
            chain_other_count: h.2,
            chain_priv_weight: h.3,
            chain_pub_weight: h.4,
            chain_other_weight: h.5,
            main_chain_priv_c: mc.0,
            main_chain_pub_c: mc.1,
            main_chain_other_c: mc.2,
            n_priv_blocks: self.blocks_from_private.len() as u64,
            n_pub_blocks: self.blocks_from_public.len() as u64,
        };
        proof {
            assert(heads@.to_set() == c.best_view(false));
            assert(c.best_view(false).contains(top));
            assert(hist@.to_set() == reachable(m, c.best_view(false)));
        }
        r
    }
}

proof fn lemma_sat_grow(a: int, w: int)
    requires
        a >= 0,
        w >= 0,
    ensures
        (if sat(a) + w > u64::MAX { u64::MAX } else { (sat(a) + w) as u64 }) == sat(a + w),
{
}

impl<S: CSystemT> RelayStrategyT<S> for SelfishMining<S> {
    type ResultsTy = SmCounts;

    type Params = SelfishMiningParams;

    /// Only selfish mining on the longest chain runs: the other kinds are not implemented.
    open spec fn params_ok(p: Self::Params) -> bool {
        p.chain_type == SmChainType::LongestChain
    }

    open spec fn ready(&self) -> bool {
        self.params.chain_type == SmChainType::LongestChain
    }

    open spec fn results_ok(&self, store: &BlockStore<S::B>, c: &Chain<S::B, S::FR>, r: Option<SmCounts>) -> bool {
        &&& r matches Some(x) && exists|s: Seq<HashID>, top: HashID|
            #![trigger c.best_view(false).contains(top), s.to_set()]
            s.no_duplicates() && s.to_set() == reachable(store@, c.best_view(false)) && c.best_view(false).contains(top)
                && counts_of(
                x,
                store@,
                s,
                seq![top] + prev_line(store@, top, store@[top].0.spec_height() as nat),
                self.blocks_from_private@,
                self.blocks_from_public@,
            )
        &&& r matches Some(x) && x.n_priv_blocks == self.blocks_from_private@.len() && x.n_pub_blocks
            == self.blocks_from_public@.len()
    }

    open spec fn stop_ok(&self, store: &BlockStore<S::B>, ts: Timestamp, c: &Chain<S::B, S::FR>, r: bool) -> bool {
        !r
    }

    fn init(_chain: &Chain<S::B, S::FR>, atk_start_h: Height, params: Self::Params) -> (r: Self)
        ensures
            r.params == params,
            r.priv_branch_len == 0,
            r.l_s == 0,
            r.l_h == 0,
            r.blocks_from_private@ == Set::<HashID>::empty(),
            r.blocks_from_public@ == Set::<HashID>::empty(),
            r.best_processed_h == (ProcessedHeights { private: 0, public: 0 }),
            r.atk_start_h == atk_start_h,
    {
        SelfishMining {
            params,
            priv_branch_len: 0,
            l_s: 0,
            l_h: 0,
            blocks_from_private: IdSet::new(),
            blocks_from_public: IdSet::new(),
            best_processed_h: ProcessedHeights { private: 0, public: 0 },
            atk_start_h,
            _s: PhantomData,
        }
    }

    /// Selfish mining on the longest chain (see [`SelfishMining::on_msg_selfish_longest_chain`]).
    fn on_msg(&mut self, store: &BlockStore<S::B>, m: &MsgToNode<S::B>, chain: &Chain<S::B, S::FR>) -> (r: Vec<MsgToNode<S::B>>)
        ensures
            final(self).same_but_sm(old(self)),
            old(self).longest_chain_effect(final(self), store, *m, chain, r@),
    {
        self.on_msg_selfish_longest_chain(store, m, chain)
    }

    /// The counts (see [`SelfishMining::get_counts`]); always `Some`.
    fn get_results(&self, store: &BlockStore<S::B>, c: &Chain<S::B, S::FR>) -> (r: Option<SmCounts>)
        ensures
            r matches Some(x) && exists|s: Seq<HashID>, top: HashID|
                #![trigger c.best_view(false).contains(top), s.to_set()]
                s.no_duplicates() && s.to_set() == reachable(store@, c.best_view(false)) && c.best_view(false).contains(top)
                    && counts_of(
                    x,
                    store@,
                    s,
                    seq![top] + prev_line(store@, top, store@[top].0.spec_height() as nat),
                    self.blocks_from_private@,
                    self.blocks_from_public@,
                ),
            r matches Some(x) && x.n_priv_blocks == self.blocks_from_private@.len()
                && x.n_pub_blocks == self.blocks_from_public@.len(),
    {
        Some(self.get_counts(store, c))
    }

    /// Selfish mining never stops the simulation.
    fn should_stop_simulation(&self, store: &BlockStore<S::B>, ts: Timestamp, c: &Chain<S::B, S::FR>) -> (r: bool)
        ensures
            !r,
    {
        false
    }
}

} // verus!
