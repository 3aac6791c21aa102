use vstd::prelude::*;
use crate::block::{cached_txs, same_block, same_block_except_ts, BlockStore, BlockT};
use crate::block_metadata::BlockMD;
use crate::chain::lca::extends;
use crate::chain::fork_rules::ForkRules;
use crate::chain::{Chain, ChainErr, ChainTxErr};
use crate::cryptosystem::CSystemT;
use crate::msg::{Msg, MsgToNode};
use crate::transactions::{
    spec_tx_id, NonEmptyIds, ReflectedCw, ReflectionData, Transaction, TxCache, TxId,
};
use crate::types::{Difficulty, HashID, Timestamp};

verus! {

/// Why a node could not take in a message.
#[derive(Debug, PartialEq, Eq)]
pub enum StepErr {
    /// A block of its own chain was refused.
    Block(ChainErr),
    /// A reflection of a block of another chain was refused.
    Tx(ChainTxErr),
}

/// A miner of one chain, honest or attacking.
pub struct Node<S: CSystemT> {
    pub id: usize,
    pub chain: Chain<S::B, S::FR>,
    pub is_attacker: bool,
    pub mining_attempts_per_tick: Difficulty,
    pub curr_draft_block: Option<S::B>,
    pub add_mined_block_instant: bool,
}

/// The blocks of chain `c` that the transactions `txs` name as reflecting blocks.
pub open spec fn reflecting_blocks(txs: Seq<Transaction>, c: HashID) -> Seq<HashID>
    decreases txs.len(),
{
    if txs.len() == 0 {
        Seq::empty()
    } else {
        let r = reflecting_blocks(txs.drop_last(), c);
        match txs.last() {
            Transaction::ReflectAndProve(d) => if d.r_chain == c {
                r.push(d.r_block)
            } else {
                r
            },
            _ => r,
        }
    }
}

/// The stored one of `ids` with the greatest (chain weight, id), with its chain weight.
pub open spec fn best_reflected<B: BlockT>(m: Map<HashID, (B, BlockMD)>, ids: Seq<HashID>) -> Option<(u64, HashID)>
    decreases ids.len(),
{
    if ids.len() == 0 {
        None
    } else {
        let r = best_reflected(m, ids.drop_last());
        let x = ids.last();
        if !m.contains_key(x) {
            r
        } else {
            let c = (m[x].1.chain_weight, x);
            match r {
                None => Some(c),
                Some(p) => if c.0 > p.0 || (c.0 == p.0 && c.1 >= p.1) {
                    Some(c)
                } else {
                    Some(p)
                },
            }
        }
    }
}

/// `tx` is the reflection by chain `my_id` of the block `b` of chain `c_id`: it records the
/// blocks of `my_id` that `b`'s stored transactions name as reflecting blocks, and the
/// heaviest of them (or `my_id` with weight 0 when none is stored).
pub open spec fn is_reflection_of<B: BlockT>(
    tx: Transaction,
    m: Map<HashID, (B, BlockMD)>,
    cache: Map<TxId, Transaction>,
    b: B,
    c_id: HashID,
    my_id: HashID,
) -> bool {
    let anc = reflecting_blocks(cached_txs(b.spec_txs(), cache), my_id);
    let l = match best_reflected(m, anc) {
        Some(p) => p,
        None => (0u64, my_id),
    };
    match tx {
        Transaction::ReflectAndProve(d) => {
            &&& d.r_chain == c_id
            &&& d.r_block == b.spec_id()
            &&& d.r_cw == b.spec_chain_weight()
            &&& d.weight == b.spec_difficulty()
            &&& d.l_headers@ == anc
            &&& d.l_cw.cw == l.0
            &&& d.l_cw.blocks@ == seq![l.1]
        },
        _ => false,
    }
}

/// What [`best_reflected`] picks is the heaviest: it is `None` exactly when none of `ids` is
/// stored; otherwise it is one of the stored ones with its chain weight, and no stored one has
/// a greater chain weight.
pub proof fn lemma_best_reflected_is_heaviest<B: BlockT>(m: Map<HashID, (B, BlockMD)>, ids: Seq<HashID>)
    ensures
        best_reflected(m, ids) is None <==> forall|i: int| 0 <= i < ids.len() ==> !m.contains_key(#[trigger] ids[i]),
        best_reflected(m, ids) matches Some(p) ==> {
            &&& exists|i: int| 0 <= i < ids.len() && #[trigger] ids[i] == p.1 && m.contains_key(ids[i]) && m[ids[i]].1.chain_weight == p.0
            &&& forall|i: int| 0 <= i < ids.len() && m.contains_key(#[trigger] ids[i]) ==> m[ids[i]].1.chain_weight <= p.0
        },
    decreases ids.len(),
{
    if ids.len() > 0 {
        let ids0 = ids.drop_last();
        lemma_best_reflected_is_heaviest(m, ids0);
        let n = ids.len() - 1;
        assert forall|i: int| 0 <= i < ids0.len() implies ids0[i] == ids[i] by {}
        if best_reflected(m, ids0) is None {
            assert forall|i: int| 0 <= i < n implies !m.contains_key(#[trigger] ids[i]) by {
                assert(ids0[i] == ids[i]);
                assert(!m.contains_key(ids0[i]));
            }
        }
        match best_reflected(m, ids0) {
            Some(p) => {
                let i0 = choose|i: int| 0 <= i < ids0.len() && #[trigger] ids0[i] == p.1 && m.contains_key(ids0[i]) && m[ids0[i]].1.chain_weight == p.0;
                assert(ids[i0] == p.1);
                assert forall|i: int| 0 <= i < n && m.contains_key(#[trigger] ids[i]) implies m[ids[i]].1.chain_weight <= p.0 by {
                    assert(ids0[i] == ids[i]);
                }
            },
            None => {},
        }
        if best_reflected(m, ids) is None {
            assert forall|i: int| 0 <= i < ids.len() implies !m.contains_key(#[trigger] ids[i]) by {
                if i < n {
                    assert(ids0[i] == ids[i]);
                }
            }
        }
    }
}

/// A reflection proves the heaviest reflecting block: the chain weight it records (`l_cw`)
/// is no less than that of any stored block its headers name, and, where one is stored, it is
/// the chain weight of a stored named block, the one it records.
pub proof fn lemma_reflection_records_heaviest<B: BlockT>(
    tx: Transaction,
    m: Map<HashID, (B, BlockMD)>,
    cache: Map<TxId, Transaction>,
    b: B,
    c_id: HashID,
    my_id: HashID,
)
    requires
        is_reflection_of(tx, m, cache, b, c_id, my_id),
    ensures
        tx matches Transaction::ReflectAndProve(d) && {
            &&& forall|i: int|
                0 <= i < d.l_headers@.len() && m.contains_key(#[trigger] d.l_headers@[i]) ==> m[d.l_headers@[i]].1.chain_weight <= d.l_cw.cw
            &&& (exists|i: int| 0 <= i < d.l_headers@.len() && m.contains_key(#[trigger] d.l_headers@[i])) ==> exists|i: int|
                0 <= i < d.l_headers@.len() && #[trigger] d.l_headers@[i] == d.l_cw.blocks.first && m.contains_key(d.l_headers@[i])
                    && m[d.l_headers@[i]].1.chain_weight == d.l_cw.cw
        },
{
    let anc = reflecting_blocks(cached_txs(b.spec_txs(), cache), my_id);
    lemma_best_reflected_is_heaviest(m, anc);
    match tx {
        Transaction::ReflectAndProve(d) => {
            assert(d.l_headers@ == anc);
            assert(d.l_cw.blocks@[0] == d.l_cw.blocks.first);
            if exists|i: int| 0 <= i < anc.len() && m.contains_key(#[trigger] anc[i]) {
                assert(best_reflected(m, anc) is Some);
            }
        },
        _ => {},
    }
}

/// Every message carries a block with parents, and one the store does not hold has a
/// difficulty.
pub open spec fn msgs_ok<B: BlockT>(store: &BlockStore<B>, msgs: Seq<MsgToNode<B>>) -> bool {
    forall|i: int|
        0 <= i < msgs.len() ==> match #[trigger] msgs[i] {
            MsgToNode::MsgBlock(_, b, _) => b.spec_parents().len() > 0 && (!store@.contains_key(b.spec_id())
                ==> b.spec_difficulty() > 0),
        }
}

/// `m` sends a block mined on chain `c`: private when `private`, public otherwise; the block
/// has parents and meets the target of its difficulty, which is not 0.
pub open spec fn mined_msg<B: BlockT>(m: Msg<B>, c: HashID, private: bool) -> bool {
    match m {
        Msg::MsgBlock(mc, b) => !private && mc == c && b.spec_parents().len() > 0 && b.spec_difficulty() > 0
            && b.spec_id() < u64::MAX / b.spec_difficulty(),
        Msg::MsgPrivBlock(mc, b) => private && mc == c && b.spec_parents().len() > 0 && b.spec_difficulty() > 0
            && b.spec_id() < u64::MAX / b.spec_difficulty(),
    }
}

/// Every block `a` has seen, on either side, `b` has seen too.
pub open spec fn seen_grows<B: BlockT, F: ForkRules<B>>(a: &Chain<B, F>, b: &Chain<B, F>) -> bool {
    forall|p: bool, k: HashID| #[trigger] a.seen_view(p).contains(k) ==> b.seen_view(p).contains(k)
}

/// A block of a node's own chain goes to `side` (private when true): a public block to the
/// public side, and to the private side too for an attacker before the attack starts; a
/// private block to the private side of an attacker only.
pub open spec fn goes_to(is_attacker: bool, attack_started: bool, is_private: bool, side: bool) -> bool {
    if is_private {
        is_attacker && side
    } else {
        !side || (is_attacker && !attack_started)
    }
}

/// The chain `c` has seen the block of `m`, if it is of `c`, on each side it goes to.
pub open spec fn taken_in<B: BlockT, F: ForkRules<B>>(c: &Chain<B, F>, m: MsgToNode<B>, is_attacker: bool, attack_started: bool) -> bool {
    match m {
        MsgToNode::MsgBlock(mc, b, bp) => mc == c.chain_id ==> forall|side: bool|
            goes_to(is_attacker, attack_started, bp, side) ==> #[trigger] c.seen_view(side).contains(b.spec_id()),
    }
}

/// The block `d`, stamped `ts`, meets the target of its difficulty and is valid on side
/// `side` of chain `c` (see [`Chain::validation_fault`]).
pub open spec fn mines_at_once<B: BlockT, F: ForkRules<B>>(c: &Chain<B, F>, store: &BlockStore<B>, tx_cache: &TxCache, d: B, ts: u32, side: bool) -> bool {
    &&& d.spec_difficulty() > 0
    &&& d.spec_id() < u64::MAX / d.spec_difficulty()
    &&& forall|d1: B| #[trigger] same_block_except_ts(d1, d) && d1.spec_ts() == ts ==> c.validation_fault(store, tx_cache, d1, side) is None
}

/// Block `b` is valid on side `side` of chain `c` over a store of the blocks `m` (see
/// [`Chain::validation_fault`]).
pub open spec fn valid_on<B: BlockT, F: ForkRules<B>>(c: &Chain<B, F>, m: Map<HashID, (B, BlockMD)>, tx_cache: &TxCache, b: B, side: bool) -> bool {
    exists|st: BlockStore<B>| st@ == m && #[trigger] c.validation_fault(&st, tx_cache, b, side) is None
}

/// What a step result is for a chain's result on a block.
pub open spec fn as_step(r: Result<(), ChainErr>) -> Result<(), StepErr> {
    match r {
        Ok(()) => Ok(()),
        Err(e) => Err(StepErr::Block(e)),
    }
}

/// Adding a copy of `b` to side `side` of `c0` in store `s0` gave `c1`, `s1` and `r` (see
/// [`Chain::added`]).
pub open spec fn block_added<B: BlockT, F: ForkRules<B>>(
    c0: &Chain<B, F>,
    c1: &Chain<B, F>,
    s0: &BlockStore<B>,
    s1: &BlockStore<B>,
    tx_cache: &TxCache,
    b: B,
    side: bool,
    r: Result<(), ChainErr>,
) -> bool {
    exists|c: B| same_block(c, b) && #[trigger] c0.added(c1, s0, s1, tx_cache, c, side, r)
}

/// A node (attacking when `is_attacker`) took in block `b` of its own chain, sent on side
/// `is_private`: `c0` and `s0` became `c1` and `s1`, with result `r`. A private block reaches
/// an honest node's chain not at all. A public block of an attacker before the attack is
/// added to the public side and, if that succeeded, to the private side. Otherwise the block
/// is added to the side it was sent on.
pub open spec fn block_taken<B: BlockT, F: ForkRules<B>>(
    c0: &Chain<B, F>,
    c1: &Chain<B, F>,
    s0: &BlockStore<B>,
    s1: &BlockStore<B>,
    tx_cache: &TxCache,
    b: B,
    is_private: bool,
    is_attacker: bool,
    attack_started: bool,
    r: Result<(), StepErr>,
) -> bool {
    if is_private && !is_attacker {
        r is Ok && *c1 == *c0 && *s1 == *s0
    } else if !is_private && is_attacker && !attack_started {
        exists|cm: Chain<B, F>, sm: BlockStore<B>, r1: Result<(), ChainErr>|
            #[trigger] block_added(c0, &cm, s0, &sm, tx_cache, b, false, r1) && match r1 {
                Err(e) => r == Err::<(), StepErr>(StepErr::Block(e)) && *c1 == cm && *s1 == sm,
                Ok(()) => exists|r2: Result<(), ChainErr>| #[trigger] block_added(&cm, c1, &sm, s1, tx_cache, b, true, r2) && r == as_step(r2),
            }
    } else {
        exists|r1: Result<(), ChainErr>| #[trigger] block_added(c0, c1, s0, s1, tx_cache, b, is_private, r1) && r == as_step(r1)
    }
}

/// `c1` and the transaction store `k1` are `c0` and `k0` after a reflection (see
/// [`is_reflection_of`]) of block `b` of chain `c_id` joined the mempool of side `side`; the
/// rest of the chain stays.
pub open spec fn reflected_into<B: BlockT, F: ForkRules<B>>(
    c0: &Chain<B, F>,
    c1: &Chain<B, F>,
    m: Map<HashID, (B, BlockMD)>,
    k0: Map<TxId, Transaction>,
    k1: Map<TxId, Transaction>,
    b: B,
    c_id: HashID,
    side: bool,
) -> bool {
    &&& exists|tx: Transaction|
        #[trigger] is_reflection_of(tx, m, k0, b, c_id, c0.chain_id) && k1 == k0.insert(spec_tx_id(tx), tx)
            && c1.mempool_view(side) == c0.mempool_view(side).insert(spec_tx_id(tx))
    &&& c1.mempool_view(!side) == c0.mempool_view(!side)
    &&& c1.chain_id == c0.chain_id
    &&& c1.net_args == c0.net_args
    &&& forall|p: bool| #![auto] c1.best_view(p) == c0.best_view(p)
    &&& forall|p: bool| #![auto] c1.seen_view(p) == c0.seen_view(p)
    &&& forall|p: bool| #![auto] c1.heads_view(p) == c0.heads_view(p)
}

/// A node (attacking when `is_attacker`) took in block `b` of another chain `c_id`, sent on
/// side `is_private`: it reflects the block on the sides a block of its own chain would go to
/// (see [`goes_to`]), the public side first.
pub open spec fn reflection_taken<B: BlockT, F: ForkRules<B>>(
    c0: &Chain<B, F>,
    c1: &Chain<B, F>,
    m: Map<HashID, (B, BlockMD)>,
    k0: Map<TxId, Transaction>,
    k1: Map<TxId, Transaction>,
    b: B,
    c_id: HashID,
    is_private: bool,
    is_attacker: bool,
    attack_started: bool,
) -> bool {
    if is_private && !is_attacker {
        *c1 == *c0 && k1 == k0
    } else if !is_private && is_attacker && !attack_started {
        exists|cm: Chain<B, F>, km: Map<TxId, Transaction>|
            #[trigger] reflected_into(c0, &cm, m, k0, km, b, c_id, false) && reflected_into(&cm, c1, m, km, k1, b, c_id, true)
    } else {
        reflected_into(c0, c1, m, k0, k1, b, c_id, is_private)
    }
}

/// A node `n0` took in message `m`: with store `s0` and transaction store `k0`, it became
/// `n1`, `s1` and `k1`, with result `r`. A block of its own chain is taken in (see
/// [`block_taken`]) and the block being mined on dropped; a block of another chain is
/// reflected (see [`reflection_taken`]), always successfully.
#[verifier::opaque]
pub open spec fn msg_taken<S: CSystemT>(
    n0: Node<S>,
    n1: Node<S>,
    s0: BlockStore<S::B>,
    s1: BlockStore<S::B>,
    k0: TxCache,
    k1: TxCache,
    m: MsgToNode<S::B>,
    attack_started: bool,
    r: Result<(), StepErr>,
) -> bool {
    match m {
        MsgToNode::MsgBlock(c_id, b, is_private) => if c_id == n0.chain.chain_id {
            &&& block_taken(
                &n0.chain,
                &n1.chain,
                &s0,
                &s1,
                &k0,
                b,
                is_private,
                n0.is_attacker,
                attack_started,
                r,
            )
            &&& n1.curr_draft_block is None
            &&& k1 == k0
        } else {
            &&& r is Ok
            &&& reflection_taken(
                &n0.chain,
                &n1.chain,
                s0@,
                k0@,
                k1@,
                b,
                c_id,
                is_private,
                n0.is_attacker,
                attack_started,
            )
            &&& n1.curr_draft_block == n0.curr_draft_block
            &&& s1 == s0
        },
    }
}

/// The node took in the first `n` of `msgs` in turn, each successfully: `ns`, `ss` and `ks`
/// are the node, the store and the transaction store before each message and after the
/// last.
pub open spec fn msgs_taken<S: CSystemT>(
    ns: Seq<Node<S>>,
    ss: Seq<BlockStore<S::B>>,
    ks: Seq<TxCache>,
    msgs: Seq<MsgToNode<S::B>>,
    n: int,
    attack_started: bool,
) -> bool {
    &&& 0 <= n <= msgs.len()
    &&& ns.len() == n + 1
    &&& ss.len() == n + 1
    &&& ks.len() == n + 1
    &&& forall|j: int|
        0 <= j < n ==> #[trigger] msg_taken(ns[j], ns[j + 1], ss[j], ss[j + 1], ks[j], ks[j + 1], msgs[j], attack_started, Ok(()))
}

/// The messages that send the mined blocks `bs` of chain `c`: private ones when `private`.
pub open spec fn sent_as<B: BlockT>(out: Seq<Msg<B>>, bs: Seq<B>, c: HashID, private: bool) -> bool {
    &&& out.len() == bs.len()
    &&& forall|i: int|
        0 <= i < out.len() ==> #[trigger] out[i] == (if private {
            Msg::MsgPrivBlock(c, bs[i])
        } else {
            Msg::MsgBlock(c, bs[i])
        })
}

/// Mining: node `n0`, with store `s0`, made up to `max` attempts at tick `ts` (see
/// [`Node::attempt_mining`]), became `n1` with store `s1` and mined the blocks `bs`.
pub open spec fn mined_by<S: CSystemT>(
    n0: Node<S>,
    n1: Node<S>,
    s0: BlockStore<S::B>,
    s1: BlockStore<S::B>,
    k: TxCache,
    ts: u32,
    max: u16,
    attack_started: bool,
    bs: Seq<S::B>,
) -> bool {
    let side = n0.is_attacker && attack_started;
    &&& n1.curr_draft_block is Some
    &&& bs.len() <= max
    &&& forall|i: int|
        0 <= i < bs.len() ==> (#[trigger] bs[i]).spec_ts() == ts && bs[i].spec_parents().len() > 0 && bs[i].spec_difficulty() > 0
            && bs[i].spec_id() < u64::MAX / bs[i].spec_difficulty()
    &&& !n0.add_mined_block_instant ==> n1.chain == n0.chain && s1@ == s0@ && forall|i: int|
        0 <= i < bs.len() ==> valid_on(&n0.chain, s0@, &k, #[trigger] bs[i], side)
    &&& match n0.curr_draft_block {
        Some(d) => (max > 0 && mines_at_once(&n0.chain, &s0, &k, d, ts, side)) ==> bs.len() > 0 && same_block_except_ts(bs[0], d)
            && bs[0].spec_ts() == ts,
        None => true,
    }
    &&& extends(s0@, s1@)
    &&& seen_grows(&n0.chain, &n1.chain)
    &&& n1.chain.chain_id == n0.chain.chain_id
    &&& n1.chain.net_args == n0.chain.net_args
    &&& n1.id == n0.id
    &&& n1.is_attacker == n0.is_attacker
    &&& n1.mining_attempts_per_tick == n0.mining_attempts_per_tick
    &&& n1.add_mined_block_instant == n0.add_mined_block_instant
}

/// A step of node `n0` at tick `ts` on the messages `msgs` (see [`Node::step`]): with store
/// `s0` and transaction store `k0` it became `n1`, `s1` and `k1`, with result `r`. It took in
/// the messages in turn; the first refusal ends the step with its error; otherwise it mined
/// (making `mining_attempts_per_tick` attempts, as a `u16`) and sends what it mined.
pub open spec fn stepped<S: CSystemT>(
    n0: Node<S>,
    n1: Node<S>,
    s0: BlockStore<S::B>,
    s1: BlockStore<S::B>,
    k0: TxCache,
    k1: TxCache,
    ts: u32,
    msgs: Seq<MsgToNode<S::B>>,
    attack_started: bool,
    r: Result<Vec<Msg<S::B>>, StepErr>,
) -> bool {
    exists|ns: Seq<Node<S>>, ss: Seq<BlockStore<S::B>>, ks: Seq<TxCache>, n: int|
        #[trigger] msgs_taken(ns, ss, ks, msgs, n, attack_started) && ns[0] == n0 && ss[0] == s0 && ks[0] == k0 && match r {
            Err(e) => n < msgs.len() && msg_taken(ns[n], n1, ss[n], s1, ks[n], k1, msgs[n], attack_started, Err(e)),
            Ok(out) => n == msgs.len() && k1 == ks[n] && exists|bs: Seq<S::B>|
                #[trigger] mined_by(ns[n], n1, ss[n], s1, ks[n], ts, n0.mining_attempts_per_tick as u16, attack_started, bs)
                    && sent_as(out@, bs, n0.chain.chain_id, n0.is_attacker && attack_started),
        }
}

/// A message that a node can refuse: a block of its own chain that reaches one of its sides.
pub open spec fn refusable<B: BlockT>(m: MsgToNode<B>, chain_id: HashID, is_attacker: bool) -> bool {
    match m {
        MsgToNode::MsgBlock(c, _, p) => c == chain_id && (!p || is_attacker),
    }
}

/// What a chain has taken in, a chain that has seen more has taken in too.
proof fn lemma_taken_in_grows<B: BlockT, F: ForkRules<B>>(a: &Chain<B, F>, b: &Chain<B, F>, ms: Seq<MsgToNode<B>>, is_attacker: bool, attack_started: bool)
    requires
        seen_grows(a, b),
        a.chain_id == b.chain_id,
        forall|j: int| 0 <= j < ms.len() ==> taken_in(a, #[trigger] ms[j], is_attacker, attack_started),
    ensures
        forall|j: int| 0 <= j < ms.len() ==> taken_in(b, #[trigger] ms[j], is_attacker, attack_started),
{
    assert forall|j: int| 0 <= j < ms.len() implies taken_in(b, #[trigger] ms[j], is_attacker, attack_started) by {
        assert(taken_in(a, ms[j], is_attacker, attack_started));
        match ms[j] {
            MsgToNode::MsgBlock(mc, x, bp) => {
                if mc == b.chain_id {
                    assert forall|side: bool| goes_to(is_attacker, attack_started, bp, side) implies #[trigger] b.seen_view(side).contains(
                        x.spec_id(),
                    ) by {
                        assert(a.seen_view(side).contains(x.spec_id()));
                    }
                }
            },
        }
    }
}

impl<S: CSystemT> Node<S> {
    pub fn new(id: usize, chain: Chain<S::B, S::FR>, is_attacker: bool, mining_attempts_per_tick: Difficulty, add_mined_block_instant: bool) -> (r: Self)
        ensures
            r.id == id,
            r.chain == chain,
            r.is_attacker == is_attacker,
            r.mining_attempts_per_tick == mining_attempts_per_tick,
            r.curr_draft_block is None,
            r.add_mined_block_instant == add_mined_block_instant,
    {
        Node { id, chain, is_attacker, mining_attempts_per_tick, curr_draft_block: None, add_mined_block_instant }
    }

    /// Adds a block of the node's own chain to one side (see [`Chain::add_block`]).
    pub fn got_block(&mut self, store: &mut BlockStore<S::B>, tx_cache: &TxCache, b: &S::B, is_private: bool) -> (r: Result<(), ChainErr>)
        requires
            old(self).chain.inv(old(store)),
            b.spec_parents().len() > 0,
            !old(store)@.contains_key(b.spec_id()) ==> b.spec_difficulty() > 0,
        ensures
            exists|c: S::B|
                same_block(c, *b) && #[trigger] old(self).chain.added(&final(self).chain, old(store), final(store), tx_cache, c, is_private, r),
            final(self).chain.inv(final(store)),
            final(self).id == old(self).id,
            final(self).is_attacker == old(self).is_attacker,
            final(self).mining_attempts_per_tick == old(self).mining_attempts_per_tick,
            final(self).curr_draft_block == old(self).curr_draft_block,
            final(self).add_mined_block_instant == old(self).add_mined_block_instant,
    {
        let c = b.copy();
        let ghost gc = c;
        let r = self.chain.add_block(store, tx_cache, c, is_private);
        assert(same_block(gc, *b));
        r
    }

    /// Lets the stored block `id` of the node's chain compete with one side's best blocks (see
    /// [`Chain::notify_block`]); always `Ok`.
    pub fn notify_of_block(&mut self, store: &BlockStore<S::B>, id: HashID, p: bool) -> (r: Result<(), ChainErr>)
        requires
            old(self).chain.inv(store),
            old(self).chain.in_chain(store, id),
        ensures
            r is Ok,
            final(self).chain.best_view(p) == old(self).chain.best_after(store, p, id, store@[id].1),
            final(self).chain.best_view(!p) == old(self).chain.best_view(!p),
            final(self).chain.chain_id == old(self).chain.chain_id,
            final(self).chain.net_args == old(self).chain.net_args,
            forall|q: bool| #![auto] final(self).chain.seen_view(q) == old(self).chain.seen_view(q),
            forall|q: bool| #![auto] final(self).chain.heads_view(q) == old(self).chain.heads_view(q),
            forall|q: bool| #![auto] final(self).chain.mempool_view(q) == old(self).chain.mempool_view(q),
            final(self).chain.inv(store),
            final(self).id == old(self).id,
            final(self).is_attacker == old(self).is_attacker,
            final(self).mining_attempts_per_tick == old(self).mining_attempts_per_tick,
            final(self).curr_draft_block == old(self).curr_draft_block,
            final(self).add_mined_block_instant == old(self).add_mined_block_instant,
    {
        self.chain.notify_block(store, id, p)
    }

    /// Reflects a block `b` of another chain `c_id`: the reflection transaction (see
    /// [`is_reflection_of`]) is stored and joins one side's mempool; always `Ok`.
    pub fn got_reflectable(&mut self, store: &BlockStore<S::B>, tx_cache: &mut TxCache, c_id: HashID, b: &S::B, is_private: bool) -> (r: Result<(), ChainTxErr>)
        ensures
            r is Ok,
            exists|tx: Transaction|
                #[trigger] is_reflection_of(tx, store@, old(tx_cache)@, *b, c_id, old(self).chain.chain_id)
                    && final(tx_cache)@ == old(tx_cache)@.insert(spec_tx_id(tx), tx)
                    && final(self).chain.mempool_view(is_private) == old(self).chain.mempool_view(is_private).insert(spec_tx_id(tx)),
            final(self).chain.mempool_view(!is_private) == old(self).chain.mempool_view(!is_private),
            final(self).chain.chain_id == old(self).chain.chain_id,
            final(self).chain.net_args == old(self).chain.net_args,
            forall|p: bool| #![auto] final(self).chain.best_view(p) == old(self).chain.best_view(p),
            forall|p: bool| #![auto] final(self).chain.seen_view(p) == old(self).chain.seen_view(p),
            forall|p: bool| #![auto] final(self).chain.heads_view(p) == old(self).chain.heads_view(p),
            final(self).id == old(self).id,
            final(self).is_attacker == old(self).is_attacker,
            final(self).mining_attempts_per_tick == old(self).mining_attempts_per_tick,
            final(self).curr_draft_block == old(self).curr_draft_block,
            final(self).add_mined_block_instant == old(self).add_mined_block_instant,
    {
        let ghost m = store@;
        let my_chain_id = self.chain.get_chain_id();
        let ghost ct = cached_txs(b.spec_txs(), tx_cache@);
        let mut anc: Vec<HashID> = Vec::new();
        {
            let txs = b.get_txs(tx_cache);
            let mut i: usize = 0;
            assert(ct.take(0) =~= Seq::<Transaction>::empty());
            while i < txs.len()
                invariant
                    i <= txs.len(),
                    txs@.len() == ct.len(),
                    forall|k: int| 0 <= k < txs@.len() ==> *txs@[k] == #[trigger] ct[k],
                    anc@ == reflecting_blocks(ct.take(i as int), my_chain_id),
                decreases txs.len() - i,
            {
                let tx = txs[i];
                assert(*tx == ct[i as int]);
                assert(ct.take(i + 1).drop_last() =~= ct.take(i as int));
                assert(ct.take(i + 1).last() == ct[i as int]);
                match tx.get_reflecting_r_block(my_chain_id) {
                    Some(x) => {
                        anc.push(x);
                    },
                    None => {},
                }
                i += 1;
            }
            assert(ct.take(txs.len() as int) =~= ct);
        }
        let mut best: Option<(u64, HashID)> = None;
        let mut k: usize = 0;
        assert(anc@.take(0) =~= Seq::<HashID>::empty());
        while k < anc.len()
            invariant
                m == store@,
                k <= anc.len(),
                best == best_reflected(m, anc@.take(k as int)),
            decreases anc.len() - k,
        {
            let x = anc[k];
            assert(anc@.take(k + 1).drop_last() =~= anc@.take(k as int));
            assert(anc@.take(k + 1).last() == x);
            match store.get(x) {
                Some(e) => {
                    let c = (e.1.chain_weight, x);
                    best = match best {
                        None => Some(c),
                        Some(p) => if c.0 > p.0 || (c.0 == p.0 && c.1 >= p.1) {
                            Some(c)
                        } else {
                            Some(p)
                        },
                    };
                },
                None => {},
            }
            k += 1;
        }
        assert(anc@.take(anc.len() as int) =~= anc@);
        let l = match best {
            Some(p) => p,
            None => (0u64, my_chain_id),
        };
        let weight = b.get_difficulty();
        let tx = Transaction::ReflectAndProve(ReflectionData {
            r_chain: c_id,
            r_block: b.get_hash(),
            r_cw: b.get_chain_weight(),
            weight,
            l_headers: anc,
            l_cw: ReflectedCw { cw: l.0, blocks: NonEmptyIds::singleton(l.1) },
        });
        let ghost gtx = tx;
        assert(is_reflection_of(gtx, m, tx_cache@, *b, c_id, my_chain_id));
        let tx_id = tx.get_hash();
        Transaction::set_cached_tx(tx_cache, tx);
        let r = self.chain.add_tx_to_mempool(tx_id, is_private);
        r
    }

    /// The node's invariant: its chain's, and the block it is mining on, if any, has parents,
    /// all of them blocks of its chain.
    pub open spec fn inv(&self, store: &BlockStore<S::B>) -> bool {
        &&& self.chain.inv(store)
        &&& match self.curr_draft_block {
            Some(b) => b.spec_parents().len() > 0 && forall|i: int|
                0 <= i < b.spec_parents().len() ==> self.chain.in_chain(store, #[trigger] b.spec_parents()[i]),
            None => true,
        }
    }

    /// The node's invariant survives the shared store growing.
    pub proof fn lemma_inv_extends(&self, s1: &BlockStore<S::B>, s2: &BlockStore<S::B>)
        requires
            self.inv(s1),
            extends(s1@, s2@),
            s2.wf(),
            s2.daa2_ok(self.chain.net_args.daa2_n_blocks),
        ensures
            self.inv(s2),
    {
        self.chain.lemma_inv_extends(s1, s2);
        match self.curr_draft_block {
            Some(b) => {
                assert forall|i: int| 0 <= i < b.spec_parents().len() implies self.chain.in_chain(s2, #[trigger] b.spec_parents()[i]) by {
                    crate::chain::lca::lemma_rooted_extends(s1@, s2@, b.spec_parents()[i], self.chain.chain_id);
                }
            },
            None => {},
        }
    }

    /// Mines for up to `max_attempts` attempts on the block it was mining on (its timestamp
    /// set to `ts`) or on a new draft; each attempt whose id is below the target and whose
    /// block is valid yields a mined block (stored right away when the node adds its mined
    /// blocks at once), and mining goes on with a new draft. Every attempt moves to the next
    /// id. Mining stops where a draft's difficulty is 0. Mined blocks are private when the
    /// node attacks and the attack has started.
    #[verifier::rlimit(40)]
    pub fn attempt_mining(&mut self, store: &mut BlockStore<S::B>, tx_cache: &TxCache, ts: u32, max_attempts: u16, attack_started: bool) -> (r: Vec<S::B>)
        requires
            old(self).inv(old(store)),
        ensures
            final(self).inv(final(store)),
            extends(old(store)@, final(store)@),
            final(self).chain.chain_id == old(self).chain.chain_id,
            final(self).chain.net_args == old(self).chain.net_args,
            final(self).id == old(self).id,
            final(self).is_attacker == old(self).is_attacker,
            final(self).mining_attempts_per_tick == old(self).mining_attempts_per_tick,
            final(self).add_mined_block_instant == old(self).add_mined_block_instant,
            r@.len() <= max_attempts,
            forall|i: int|
                0 <= i < r@.len() ==> (#[trigger] r@[i]).spec_parents().len() > 0 && r@[i].spec_difficulty() > 0
                    && r@[i].spec_id() < u64::MAX / r@[i].spec_difficulty(),
            seen_grows(&old(self).chain, &final(self).chain),
            final(self).curr_draft_block is Some,
            max_attempts == 0 ==> r@.len() == 0,
            mined_by(*old(self), *final(self), *old(store), *final(store), *tx_cache, ts, max_attempts, attack_started, r@),
            forall|i: int| 0 <= i < r@.len() ==> (#[trigger] r@[i]).spec_ts() == ts,
            !old(self).add_mined_block_instant ==> forall|i: int|
                0 <= i < r@.len() ==> valid_on(&old(self).chain, old(store)@, tx_cache, #[trigger] r@[i], old(self).is_attacker && attack_started),
            !old(self).add_mined_block_instant ==> final(self).chain == old(self).chain && final(store)@ == old(store)@,
            match old(self).curr_draft_block {
                Some(d) => (max_attempts > 0 && mines_at_once(&old(self).chain, old(store), tx_cache, d, ts, old(self).is_attacker && attack_started))
                    ==> r@.len() > 0 && same_block_except_ts(r@[0], d) && r@[0].spec_ts() == ts,
                None => true,
            },
    {
        let mine_in_private = self.is_attacker && attack_started;
        let ghost first = max_attempts > 0 && match old(self).curr_draft_block {
            Some(d) => mines_at_once(&old(self).chain, old(store), tx_cache, d, ts, mine_in_private),
            None => false,
        };
        let ghost d0 = old(self).curr_draft_block.unwrap();
        let ghost s0 = *store;
        assert(s0@ == old(store)@);
        let mut b = match self.curr_draft_block.take() {
            Some(b0) => {
                let mut b1 = b0;
                b1.set_ts(ts);
                b1
            },
            None => self.chain.draft_block(store, tx_cache, ts, mine_in_private),
        };
        let mut bs_out: Vec<S::B> = Vec::new();
        proof {
            assert forall|i: int| 0 <= i < b.spec_parents().len() implies self.chain.in_chain(store, #[trigger] b.spec_parents()[i]) by {
                if old(self).curr_draft_block is None {
                    assert(self.chain.best_view(mine_in_private).contains(b.spec_parents()[i])
                        || self.chain.heads_view(mine_in_private).contains_key(b.spec_parents()[i]));
                }
            }
        }
        if b.get_difficulty() == 0 {
            self.curr_draft_block = Some(b);
            return bs_out;
        }
        let mut target = self.chain.target_from_difficulty(b.get_difficulty());
        let mut attempt: u16 = 0;
        while attempt < max_attempts
            invariant
                self.chain.inv(store),
                extends(s0@, store@),
                s0@ == old(store)@,
                b.spec_parents().len() > 0,
                forall|i: int| 0 <= i < b.spec_parents().len() ==> self.chain.in_chain(store, #[trigger] b.spec_parents()[i]),
                b.spec_difficulty() > 0,
                target == u64::MAX / b.spec_difficulty(),
                self.chain.chain_id == old(self).chain.chain_id,
                self.chain.net_args == old(self).chain.net_args,
                self.id == old(self).id,
                self.is_attacker == old(self).is_attacker,
                self.mining_attempts_per_tick == old(self).mining_attempts_per_tick,
                self.add_mined_block_instant == old(self).add_mined_block_instant,
                mine_in_private == (self.is_attacker && attack_started),
                attempt <= max_attempts,
                seen_grows(&old(self).chain, &self.chain),
                !self.add_mined_block_instant ==> self.chain == old(self).chain && store@ == old(store)@,
                first ==> (attempt == 0 ==> same_block_except_ts(b, d0) && b.spec_ts() == ts && *store == *old(store)
                    && self.chain == old(self).chain),
                first ==> (attempt > 0 ==> bs_out@.len() > 0 && same_block_except_ts(bs_out@[0], d0) && bs_out@[0].spec_ts() == ts),
                first == (max_attempts > 0 && match old(self).curr_draft_block {
                    Some(d) => mines_at_once(&old(self).chain, old(store), tx_cache, d, ts, mine_in_private),
                    None => false,
                }),
                d0 == old(self).curr_draft_block.unwrap(),
                bs_out@.len() <= attempt,
                b.spec_ts() == ts,
                forall|i: int| 0 <= i < bs_out@.len() ==> (#[trigger] bs_out@[i]).spec_ts() == ts,
                !self.add_mined_block_instant ==> forall|i: int|
                    0 <= i < bs_out@.len() ==> valid_on(&old(self).chain, old(store)@, tx_cache, #[trigger] bs_out@[i], mine_in_private),
                forall|i: int|
                    0 <= i < bs_out@.len() ==> (#[trigger] bs_out@[i]).spec_parents().len() > 0 && bs_out@[i].spec_difficulty() > 0
                        && bs_out@[i].spec_id() < u64::MAX / bs_out@[i].spec_difficulty(),
            decreases max_attempts - attempt,
        {
            proof {
                if first && attempt == 0 {
                    assert(same_block_except_ts(b, d0) && b.spec_ts() == ts);
                    assert(self.chain.validation_fault(store, tx_cache, b, mine_in_private) is None);
                    assert(b.spec_id() < target);
                }
            }
            if b.get_hash() < target {
                proof {
                    assert(self.chain.in_chain(store, b.spec_parents()[0]));
                }
                let ghost s1 = *store;
                match self.chain.validate_block(store, tx_cache, &b, mine_in_private) {
                    Ok(_md) => {
                        assert(self.chain.validation_fault(&s1, tx_cache, b, mine_in_private) is None);
                        if self.add_mined_block_instant {
                            let ghost s2 = *store;
                            let ghost c2 = self.chain;
                            let c = b.copy();
                            let res = self.chain.add_block(store, tx_cache, c, mine_in_private);
                            proof {
                                c2.lemma_added_extends(&self.chain, &s2, &*store, tx_cache, c, mine_in_private, res);
                                assert forall|p: bool, k: HashID| #[trigger] old(self).chain.seen_view(p).contains(k)
                                    implies self.chain.seen_view(p).contains(k) by {
                                    assert(c2.seen_view(p).contains(k));
                                    if res is Ok && p != mine_in_private {
                                        assert(p == !mine_in_private);
                                    }
                                }
                            }
                        }
                        proof {
                            assert(extends(s0@, store@));
                        }
                        bs_out.push(b);
                        b = self.chain.draft_block(store, tx_cache, ts, mine_in_private);
                        proof {
                            assert forall|i: int| 0 <= i < b.spec_parents().len() implies self.chain.in_chain(store, #[trigger] b.spec_parents()[i]) by {
                                assert(self.chain.best_view(mine_in_private).contains(b.spec_parents()[i])
                                    || self.chain.heads_view(mine_in_private).contains_key(b.spec_parents()[i]));
                            }
                        }
                        if b.get_difficulty() == 0 {
                            self.curr_draft_block = Some(b);
                            assert(s0@ == old(store)@);
                            assert(extends(s0@, store@));
                            return bs_out;
                        }
                        target = self.chain.target_from_difficulty(b.get_difficulty());
                    },
                    Err(_) => {},
                }
            }
            b.increment_nonce();
            attempt += 1;
        }
        self.curr_draft_block = Some(b);
        bs_out
    }

    /// Takes in a block of the node's own chain (see [`Self::step`] and [`block_taken`]); the
    /// block being mined on is dropped.
    fn take_in_block(&mut self, store: &mut BlockStore<S::B>, tx_cache: &TxCache, b: &S::B, is_private: bool, attack_started: bool) -> (r: Result<(), StepErr>)
        requires
            old(self).inv(old(store)),
            b.spec_parents().len() > 0,
            !old(store)@.contains_key(b.spec_id()) ==> b.spec_difficulty() > 0,
        ensures
            block_taken(&old(self).chain, &final(self).chain, old(store), final(store), tx_cache, *b, is_private, old(self).is_attacker, attack_started, r),
            final(self).curr_draft_block is None,
            r matches Err(e) ==> e is Block,
            seen_grows(&old(self).chain, &final(self).chain),
            r is Ok ==> forall|side: bool|
                goes_to(old(self).is_attacker, attack_started, is_private, side) ==> #[trigger] final(self).chain.seen_view(side).contains(
                    b.spec_id(),
                ),
            final(self).inv(final(store)),
            extends(old(store)@, final(store)@),
            final(self).chain.chain_id == old(self).chain.chain_id,
            final(self).chain.net_args == old(self).chain.net_args,
            final(self).id == old(self).id,
            final(self).is_attacker == old(self).is_attacker,
            final(self).mining_attempts_per_tick == old(self).mining_attempts_per_tick,
            final(self).add_mined_block_instant == old(self).add_mined_block_instant,
    {
        self.curr_draft_block = None;
        if !is_private || self.is_attacker {
            let ghost sa = *store;
            let ghost ca = self.chain;
            let r1 = self.got_block(store, tx_cache, b, is_private);
            let ghost sm = *store;
            let ghost cm = self.chain;
            proof {
                let c = choose|c: S::B| same_block(c, *b) && #[trigger] ca.added(&self.chain, &sa, &*store, tx_cache, c, is_private, r1);
                ca.lemma_added_extends(&self.chain, &sa, &*store, tx_cache, c, is_private, r1);
                assert(block_added(&ca, &cm, &sa, &sm, tx_cache, *b, is_private, r1));
                assert forall|p: bool, k: HashID| #[trigger] ca.seen_view(p).contains(k) implies cm.seen_view(p).contains(k) by {
                    if p != is_private {
                        assert(p == !is_private);
                    }
                }
            }
            match r1 {
                Ok(()) => {},
                Err(e) => {
                    proof {
                        assert(block_taken(&ca, &cm, &sa, &sm, tx_cache, *b, is_private, self.is_attacker, attack_started, Err::<(), StepErr>(StepErr::Block(e)))) by {
                            if !is_private && self.is_attacker && !attack_started {
                                assert(block_added(&ca, &cm, &sa, &sm, tx_cache, *b, false, r1));
                            } else {
                                assert(as_step(r1) == Err::<(), StepErr>(StepErr::Block(e)));
                            }
                        }
                    }
                    return Err(StepErr::Block(e));
                },
            }
            proof {
                assert(self.chain.seen_view(is_private).contains(b.spec_id()));
            }
            if !is_private && self.is_attacker && !attack_started {
                let ghost sb = *store;
                let ghost cb = self.chain;
                let r2 = self.got_block(store, tx_cache, b, true);
                proof {
                    let c = choose|c: S::B| same_block(c, *b) && #[trigger] cb.added(&self.chain, &sb, &*store, tx_cache, c, true, r2);
                    cb.lemma_added_extends(&self.chain, &sb, &*store, tx_cache, c, true, r2);
                    assert(block_added(&cb, &self.chain, &sb, &*store, tx_cache, *b, true, r2));
                    assert(block_added(&ca, &cm, &sa, &sm, tx_cache, *b, false, r1));
                    assert forall|p: bool, k: HashID| #[trigger] cm.seen_view(p).contains(k) implies self.chain.seen_view(p).contains(k) by {
                        if p != true {
                            assert(p == !true);
                        }
                    }
                }
                match r2 {
                    Ok(()) => {},
                    Err(e) => {
                        proof {
                            assert(as_step(r2) == Err::<(), StepErr>(StepErr::Block(e)));
                        }
                        return Err(StepErr::Block(e));
                    },
                }
                proof {
                    assert(as_step(r2) == Ok::<(), StepErr>(()));
                    assert(cm.seen_view(false).contains(b.spec_id()));
                }
            } else {
                proof {
                    assert(as_step(r1) == Ok::<(), StepErr>(()));
                }
            }
            proof {
                assert forall|side: bool| goes_to(old(self).is_attacker, attack_started, is_private, side) implies #[trigger] self.chain.seen_view(side).contains(
                    b.spec_id(),
                ) by {
                    if side != is_private {
                        assert(!is_private && side);
                    }
                }
            }
        }
        Ok(())
    }

    /// Reflects a block of another chain (see [`Self::step`]).
    fn take_in_reflectable(&mut self, store: &BlockStore<S::B>, tx_cache: &mut TxCache, c_id: HashID, b: &S::B, is_private: bool, attack_started: bool) -> (r: Result<(), StepErr>)
        requires
            old(self).inv(store),
        ensures
            r is Ok,
            reflection_taken(
                &old(self).chain,
                &final(self).chain,
                store@,
                old(tx_cache)@,
                final(tx_cache)@,
                *b,
                c_id,
                is_private,
                old(self).is_attacker,
                attack_started,
            ),
            final(self).curr_draft_block == old(self).curr_draft_block,
            forall|p: bool| #![auto] final(self).chain.seen_view(p) == old(self).chain.seen_view(p),
            final(self).inv(store),
            old(tx_cache)@.dom().subset_of(final(tx_cache)@.dom()),
            final(self).chain.chain_id == old(self).chain.chain_id,
            final(self).chain.net_args == old(self).chain.net_args,
            final(self).id == old(self).id,
            final(self).is_attacker == old(self).is_attacker,
            final(self).mining_attempts_per_tick == old(self).mining_attempts_per_tick,
            final(self).add_mined_block_instant == old(self).add_mined_block_instant,
    {
        let ghost c0 = self.chain;
        let ghost k0 = tx_cache@;
        if !is_private || self.is_attacker {
            self.reflect_keeping_inv(store, tx_cache, c_id, b, is_private)?;
            let ghost c1 = self.chain;
            let ghost k1 = tx_cache@;
            if !is_private && self.is_attacker && !attack_started {
                self.reflect_keeping_inv(store, tx_cache, c_id, b, true)?;
                proof {
                    assert(reflected_into(&c0, &c1, store@, k0, k1, *b, c_id, false));
                }
            }
        }
        Ok(())
    }

    /// [`Self::got_reflectable`], which keeps the node's invariant.
    fn reflect_keeping_inv(&mut self, store: &BlockStore<S::B>, tx_cache: &mut TxCache, c_id: HashID, b: &S::B, is_private: bool) -> (r: Result<(), StepErr>)
        requires
            old(self).inv(store),
        ensures
            r is Ok,
            reflected_into(&old(self).chain, &final(self).chain, store@, old(tx_cache)@, final(tx_cache)@, *b, c_id, is_private),
            final(self).curr_draft_block == old(self).curr_draft_block,
            forall|p: bool| #![auto] final(self).chain.seen_view(p) == old(self).chain.seen_view(p),
            final(self).inv(store),
            old(tx_cache)@.dom().subset_of(final(tx_cache)@.dom()),
            final(self).chain.chain_id == old(self).chain.chain_id,
            final(self).chain.net_args == old(self).chain.net_args,
            final(self).id == old(self).id,
            final(self).is_attacker == old(self).is_attacker,
            final(self).mining_attempts_per_tick == old(self).mining_attempts_per_tick,
            final(self).add_mined_block_instant == old(self).add_mined_block_instant,
    {
        let ghost ch = self.chain;
        match self.got_reflectable(store, tx_cache, c_id, b, is_private) {
            Ok(()) => {},
            Err(e) => {
                return Err(StepErr::Tx(e));
            },
        }
        proof {
            assert(self.chain.best_view(false) == ch.best_view(false));
            assert(self.chain.best_view(true) == ch.best_view(true));
            assert forall|p: bool, k: HashID| #[trigger] self.chain.seen_view(p).contains(k) implies self.chain.in_chain(store, k) by {
                assert(ch.seen_view(p).contains(k));
            }
            assert forall|p: bool, k: HashID| #[trigger] self.chain.best_view(p).contains(k) implies self.chain.in_chain(store, k) by {
                assert(ch.best_view(p).contains(k));
            }
            assert forall|p: bool, k: HashID| #[trigger] self.chain.heads_view(p).contains_key(k) implies self.chain.in_chain(store, k) by {
                assert(ch.heads_view(p).contains_key(k));
            }
        }
        Ok(())
    }

    /// Takes in one message (see [`Self::step`]).
    fn take_in_msg(&mut self, store: &mut BlockStore<S::B>, tx_cache: &mut TxCache, msg: &MsgToNode<S::B>, attack_started: bool) -> (r: Result<(), StepErr>)
        requires
            old(self).inv(old(store)),
            match *msg {
                MsgToNode::MsgBlock(_, b, _) => b.spec_parents().len() > 0 && (!old(store)@.contains_key(b.spec_id())
                    ==> b.spec_difficulty() > 0),
            },
        ensures
            msg_taken(*old(self), *final(self), *old(store), *final(store), *old(tx_cache), *final(tx_cache), *msg, attack_started, r),
            r is Err ==> refusable(*msg, old(self).chain.chain_id, old(self).is_attacker),
            r matches Err(e) ==> e is Block,
            seen_grows(&old(self).chain, &final(self).chain),
            r is Ok ==> taken_in(&final(self).chain, *msg, old(self).is_attacker, attack_started),
            final(self).inv(final(store)),
            extends(old(store)@, final(store)@),
            old(tx_cache)@.dom().subset_of(final(tx_cache)@.dom()),
            final(self).chain.chain_id == old(self).chain.chain_id,
            final(self).chain.net_args == old(self).chain.net_args,
            final(self).id == old(self).id,
            final(self).is_attacker == old(self).is_attacker,
            final(self).mining_attempts_per_tick == old(self).mining_attempts_per_tick,
            final(self).add_mined_block_instant == old(self).add_mined_block_instant,
    {
        proof {
            reveal(msg_taken);
        }
        match msg {
            MsgToNode::MsgBlock(c_id, b, is_private) => {
                if *c_id == self.chain.get_chain_id() {
                    self.take_in_block(store, tx_cache, b, *is_private, attack_started)
                } else {
                    self.take_in_reflectable(store, tx_cache, *c_id, b, *is_private, attack_started)
                }
            },
        }
    }

    /// Takes in the messages in order, then mines. A block of the node's own chain drops the
    /// block being mined on and is added: a public one to the public side (and, for an
    /// attacker before the attack starts, to the private side too), a private one to the
    /// private side of an attacker only. A block of another chain is reflected on the same
    /// sides. The first refusal ends the step with its error. The mined blocks go out as
    /// private messages when the node attacks and the attack has started, as public ones
    /// otherwise, each named by the node's chain.
    pub fn step(
        &mut self,
        store: &mut BlockStore<S::B>,
        tx_cache: &mut TxCache,
        ts: Timestamp,
        msgs: &Vec<MsgToNode<S::B>>,
        attack_started: bool,
    ) -> (r: Result<Vec<Msg<S::B>>, StepErr>)
        requires
            old(self).inv(old(store)),
            msgs_ok(old(store), msgs@),
        ensures
            final(self).inv(final(store)),
            extends(old(store)@, final(store)@),
            old(tx_cache)@.dom().subset_of(final(tx_cache)@.dom()),
            final(self).chain.chain_id == old(self).chain.chain_id,
            final(self).chain.net_args == old(self).chain.net_args,
            final(self).id == old(self).id,
            final(self).is_attacker == old(self).is_attacker,
            final(self).mining_attempts_per_tick == old(self).mining_attempts_per_tick,
            final(self).add_mined_block_instant == old(self).add_mined_block_instant,
            match r {
                Ok(out) => forall|i: int|
                    0 <= i < out@.len() ==> mined_msg(#[trigger] out@[i], old(self).chain.chain_id, old(self).is_attacker && attack_started),
                Err(_) => true,
            },
            r is Ok ==> seen_grows(&old(self).chain, &final(self).chain),
            r is Ok ==> forall|i: int|
                0 <= i < msgs@.len() ==> taken_in(&final(self).chain, #[trigger] msgs@[i], old(self).is_attacker, attack_started),
            r is Err ==> exists|i: int|
                0 <= i < msgs@.len() && #[trigger] refusable(msgs@[i], old(self).chain.chain_id, old(self).is_attacker) && forall|j: int|
                    0 <= j < i ==> taken_in(&final(self).chain, #[trigger] msgs@[j], old(self).is_attacker, attack_started),
            r matches Err(e) ==> e is Block,
            stepped(*old(self), *final(self), *old(store), *final(store), *old(tx_cache), *final(tx_cache), ts, msgs@, attack_started, r),
            match r {
                Ok(out) => out@.len() <= (#[verifier::truncate] (old(self).mining_attempts_per_tick as u16)) && final(self).curr_draft_block is Some,
                Err(_) => true,
            },
    {
        let l_chain_id = self.chain.get_chain_id();
        let ghost mut ns: Seq<Node<S>> = seq![*self];
        let ghost mut ss: Seq<BlockStore<S::B>> = seq![*store];
        let ghost mut ks: Seq<TxCache> = seq![*tx_cache];
        let ghost s0 = *store;
        let mut i: usize = 0;
        while i < msgs.len()
            invariant
                self.inv(store),
                extends(s0@, store@),
                s0@ == old(store)@,
                old(tx_cache)@.dom().subset_of(tx_cache@.dom()),
                msgs_ok(old(store), msgs@),
                l_chain_id == self.chain.chain_id,
                self.chain.chain_id == old(self).chain.chain_id,
                self.chain.net_args == old(self).chain.net_args,
                self.id == old(self).id,
                self.is_attacker == old(self).is_attacker,
                self.mining_attempts_per_tick == old(self).mining_attempts_per_tick,
                self.add_mined_block_instant == old(self).add_mined_block_instant,
                i <= msgs.len(),
                seen_grows(&old(self).chain, &self.chain),
                forall|j: int| 0 <= j < i ==> taken_in(&self.chain, #[trigger] msgs@[j], old(self).is_attacker, attack_started),
                msgs_taken(ns, ss, ks, msgs@, i as int, attack_started),
                ns[0] == *old(self),
                ss[0] == *old(store),
                ks[0] == *old(tx_cache),
                ns[i as int] == *self,
                ss[i as int] == *store,
                ks[i as int] == *tx_cache,
            decreases msgs.len() - i,
        {
            let ghost c0 = self.chain;
            let ghost pre_n = *self;
            let ghost pre_s = *store;
            let ghost pre_k = *tx_cache;
            let res = self.take_in_msg(store, tx_cache, &msgs[i], attack_started);
            match res {
                Ok(()) => {
                    proof {
                        assert(msg_taken(pre_n, *self, pre_s, *store, pre_k, *tx_cache, msgs@[i as int], attack_started, res));
                        let ns1 = ns.push(*self);
                        let ss1 = ss.push(*store);
                        let ks1 = ks.push(*tx_cache);
                        assert forall|j: int| 0 <= j < i + 1 implies #[trigger] msg_taken(
                            ns1[j],
                            ns1[j + 1],
                            ss1[j],
                            ss1[j + 1],
                            ks1[j],
                            ks1[j + 1],
                            msgs@[j],
                            attack_started,
                            Ok(()),
                        ) by {
                            if j < i {
                                assert(ns.len() == i + 1);
                                assert(ns1[j] == ns[j] && ns1[j + 1] == ns[j + 1]);
                                assert(ss1[j] == ss[j] && ss1[j + 1] == ss[j + 1]);
                                assert(ks1[j] == ks[j] && ks1[j + 1] == ks[j + 1]);
                                assert(msg_taken(ns[j], ns[j + 1], ss[j], ss[j + 1], ks[j], ks[j + 1], msgs@[j], attack_started, Ok(())));
                            } else {
                                assert(ns1[j] == pre_n && ss1[j] == pre_s && ks1[j] == pre_k);
                                assert(ns1[j + 1] == *self && ss1[j + 1] == *store && ks1[j + 1] == *tx_cache);
                                assert(j == i);
                                assert(res is Ok);
                                assert(res == Ok::<(), StepErr>(())) by {
                                    let u: () = res->Ok_0;
                                    assert(u == ());
                                }
                                assert(msg_taken(pre_n, *self, pre_s, *store, pre_k, *tx_cache, msgs@[j], attack_started, Ok(())));
                            }
                        }
                        ns = ns1;
                        ss = ss1;
                        ks = ks1;
                    }
                },
                Err(e) => {
                    proof {
                        assert(msgs_taken(ns, ss, ks, msgs@, i as int, attack_started));
                    }
                    proof {
                        lemma_taken_in_grows(&c0, &self.chain, msgs@.take(i as int), old(self).is_attacker, attack_started);
                        assert forall|j: int| 0 <= j < i implies taken_in(&self.chain, #[trigger] msgs@[j], old(self).is_attacker, attack_started) by {
                            assert(msgs@.take(i as int)[j] == msgs@[j]);
                        }
                        assert(refusable(msgs@[i as int], old(self).chain.chain_id, old(self).is_attacker));
                    }
                    return Err(e);
                },
            }
            proof {
                lemma_taken_in_grows(&c0, &self.chain, msgs@.take(i as int), old(self).is_attacker, attack_started);
                assert forall|j: int| 0 <= j < i implies taken_in(&self.chain, #[trigger] msgs@[j], old(self).is_attacker, attack_started) by {
                    assert(msgs@.take(i as int)[j] == msgs@[j]);
                }
            }
            i += 1;
        }
        let ghost c1 = self.chain;
        let attempts = #[verifier::truncate] (self.mining_attempts_per_tick as u16);
        let ghost n_in = *self;
        let ghost s_in = *store;
        let mined = self.attempt_mining(store, tx_cache, ts, attempts, attack_started);
        proof {
            lemma_taken_in_grows(&c1, &self.chain, msgs@, old(self).is_attacker, attack_started);
        }
        let mut out: Vec<Msg<S::B>> = Vec::new();
        let priv_out = self.is_attacker && attack_started;
        let mut mined = mined;
        let ghost mined0 = mined@;
        while mined.len() > 0
            invariant
                forall|t: int| 0 <= t < out@.len() ==> mined_msg(#[trigger] out@[t], l_chain_id, priv_out),
                forall|t: int|
                    0 <= t < mined@.len() ==> (#[trigger] mined@[t]).spec_parents().len() > 0 && mined@[t].spec_difficulty() > 0
                        && mined@[t].spec_id() < u64::MAX / mined@[t].spec_difficulty(),
                out@.len() + mined@.len() == mined0.len(),
                mined@ == mined0.subrange(out@.len() as int, mined0.len() as int),
                forall|t: int|
                    0 <= t < out@.len() ==> #[trigger] out@[t] == (if priv_out {
                        Msg::MsgPrivBlock(l_chain_id, mined0[t])
                    } else {
                        Msg::MsgBlock(l_chain_id, mined0[t])
                    }),
            decreases mined.len(),
        {
            let ghost m0 = mined@;
            let b = mined.remove(0);
            assert(b == mined0[out@.len() as int]);
            if priv_out {
                out.push(Msg::MsgPrivBlock(l_chain_id, b));
            } else {
                out.push(Msg::MsgBlock(l_chain_id, b));
            }
            assert(mined@ =~= mined0.subrange(out@.len() as int, mined0.len() as int));
        }
        proof {
            assert(mined_by(n_in, *self, s_in, *store, *tx_cache, ts, attempts, attack_started, mined0));
            assert(sent_as(out@, mined0, old(self).chain.chain_id, old(self).is_attacker && attack_started));
            assert(msgs_taken(ns, ss, ks, msgs@, msgs@.len() as int, attack_started));
        }
        Ok(out)
    }
}

} // verus!
