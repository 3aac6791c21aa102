use vstd::prelude::*;
use std::collections::HashMap;
use crate::block::{ancestors, all_prev_iter, block_wf, is_anc_path, BlockStore, BlockT, cached_txs, refl_sum};
use crate::block_metadata::BlockMD;
use crate::chain::fork_rules::ForkRules;
use crate::chain::lca::{extends, lca_and_intermediates, lca_spec, lemma_lca_levels, lemma_lca_some, lemma_rooted_child, max_height, rooted};
use crate::chain::{BInfo, Chain, ChainErr};
use crate::collections::{unique, vec_contains};
use crate::transactions::{spec_reflected_l_block, spec_reflected_weight2, Transaction, TxCache, TxId};
use crate::types::{ChainWeight, Difficulty, HashID, Height, NetworkArgs};

verus! {

/// `x`, or `u64::MAX` where it does not fit.
pub open spec fn sat(x: int) -> u64 {
    if x > u64::MAX {
        u64::MAX
    } else if x < 0 {
        0
    } else {
        x as u64
    }
}

/// `a - b`, or 0 where that is negative.
pub open spec fn sub_or_zero(a: int, b: int) -> int {
    if a < b {
        0
    } else {
        a - b
    }
}

proof fn lemma_sat_add(a: int, b: int)
    requires
        a >= 0,
        b >= 0,
    ensures
        (if sat(a) + b > u64::MAX { u64::MAX } else { (sat(a) + b) as u64 }) == sat(a + b),
{
}

/// The ids of the transactions of the blocks reachable from the stored block `p` (itself
/// included).
pub open spec fn history_txs<B: BlockT>(m: Map<HashID, (B, BlockMD)>, p: HashID) -> Set<TxId> {
    Set::new(
        |t: TxId|
            exists|x: HashID| #[trigger] ancestors(m, p, Set::empty()).contains(x) && m[x].0.spec_txs().contains(t),
    )
}

/// A stored block's own transactions are in its history.
pub proof fn lemma_history_holds_own_txs<B: BlockT>(m: Map<HashID, (B, BlockMD)>, p: HashID, t: TxId)
    requires
        m.contains_key(p),
        m[p].0.spec_txs().contains(t),
    ensures
        history_txs(m, p).contains(t),
{
    let path = seq![p];
    assert(is_anc_path(m, path, Set::empty()));
    assert(ancestors(m, p, Set::empty()).contains(p));
}

/// The history of a stored block holds the history of each of its parents: a transaction of
/// any block reached from a parent is in the history of the child.
pub proof fn lemma_history_holds_parents_history<B: BlockT>(m: Map<HashID, (B, BlockMD)>, p: HashID, q: HashID, t: TxId)
    requires
        m.contains_key(p),
        m[p].0.spec_parents().contains(q),
        history_txs(m, q).contains(t),
    ensures
        history_txs(m, p).contains(t),
{
    let x = choose|x: HashID| #[trigger] ancestors(m, q, Set::empty()).contains(x) && m[x].0.spec_txs().contains(t);
    let pq = choose|pq: Seq<HashID>| #[trigger] is_anc_path(m, pq, Set::empty()) && pq[0] == q && pq.last() == x;
    let path = seq![p] + pq;
    assert forall|i: int| 0 <= i < path.len() implies m.contains_key(#[trigger] path[i]) && !Set::<HashID>::empty().contains(path[i]) by {
        if i > 0 {
            assert(path[i] == pq[i - 1]);
        }
    }
    assert forall|i: int| 0 <= i < path.len() - 1 implies #[trigger] m[path[i]].0.spec_parents().contains(path[i + 1]) by {
        if i == 0 {
            assert(path[1] == pq[0]);
        } else {
            assert(path[i] == pq[i - 1] && path[i + 1] == pq[i]);
            let j = i - 1;
            assert(m[pq[j]].0.spec_parents().contains(pq[j + 1]));
        }
    }
    assert(is_anc_path(m, path, Set::empty()));
    assert(path.last() == x);
    assert(ancestors(m, p, Set::empty()).contains(x));
}

/// The index of the first element of `s` that `t` holds (meaningful when there is one).
pub open spec fn first_in(s: Seq<u64>, t: Set<u64>) -> int {
    choose|j: int| 0 <= j < s.len() && t.contains(s[j]) && forall|k: int| 0 <= k < j ==> !t.contains(#[trigger] s[k])
}

/// What is wrong, if anything, with `p` as a parent of `b`: it is unknown, newer than `b`, or
/// already holds (in its history) one of the transactions of `b`.
pub open spec fn parent_fault<B: BlockT>(m: Map<HashID, (B, BlockMD)>, b: B, is_private: bool, p: HashID) -> Option<ChainErr> {
    if !m.contains_key(p) {
        Some(ChainErr::BlockRefsUnkParent(b.spec_id(), p, is_private))
    } else if b.spec_ts() < m[p].0.spec_ts() {
        Some(ChainErr::TsBeforeParent)
    } else if exists|j: int| 0 <= j < b.spec_txs().len() && history_txs(m, p).contains(#[trigger] b.spec_txs()[j]) {
        Some(ChainErr::TxInParent { b: b.spec_id(), txid: b.spec_txs()[first_in(b.spec_txs(), history_txs(m, p))] })
    } else {
        None
    }
}

/// A steady chain keeps its difficulty. Above height 5, where the block `b` (metadata `md`)
/// lies `k` blocks of difficulty `d` above the oldest block of its look-back list (its local
/// chain weight `k * d` more than that block's) and `k` block targets of time after it, the
/// next difficulty is `d` again.
pub proof fn lemma_steady_difficulty<B: BlockT>(store: &BlockStore<B>, net: NetworkArgs, b: B, md: BlockMD, k: int, d: int)
    requires
        md.height >= 5,
        net.block_target > 0,
        k > 0,
        0 <= d <= u64::MAX,
        md.local_chain_weight == store@[store.daa2_view()[b.spec_id()].last()].1.local_chain_weight + k * d,
        b.spec_ts() == store@[store.daa2_view()[b.spec_id()].last()].0.spec_ts() + k * net.block_target,
    ensures
        spec_next_difficulty(store, net, b, md) == d,
{
    let t = net.block_target as int;
    assert(k * t > 0) by (nonlinear_arith)
        requires
            k > 0,
            t > 0,
    ;
    assert(k * d >= 0) by (nonlinear_arith)
        requires
            k > 0,
            d >= 0,
    ;
    assert(t * (k * d) / (k * t) == d) by (nonlinear_arith)
        requires
            k > 0,
            t > 0,
            d >= 0,
    {
        assert(t * (k * d) == (k * t) * d);
        vstd::arithmetic::div_mod::lemma_div_multiples_vanish(d, k * t);
    }
}

/// A parent does not take a transaction again: where `b` holds a transaction that a block
/// reached from its stored parent `p` (going to parents, `p` included) already holds, and `b`
/// is not older than `p`, `p` is a faulty parent of `b` for that reason.
pub proof fn lemma_repeated_tx_refused<B: BlockT>(m: Map<HashID, (B, BlockMD)>, b: B, is_private: bool, p: HashID, x: HashID, j: int)
    requires
        m.contains_key(p),
        b.spec_ts() >= m[p].0.spec_ts(),
        ancestors(m, p, Set::empty()).contains(x),
        0 <= j < b.spec_txs().len(),
        m[x].0.spec_txs().contains(b.spec_txs()[j]),
    ensures
        parent_fault(m, b, is_private, p) matches Some(ChainErr::TxInParent { .. }),
{
    assert(history_txs(m, p).contains(b.spec_txs()[j]));
}

/// The fault of the first of the first `n` parents of `b` that has one.
pub open spec fn parents_fault<B: BlockT>(m: Map<HashID, (B, BlockMD)>, b: B, is_private: bool, n: nat) -> Option<ChainErr>
    decreases n,
{
    if n == 0 {
        None
    } else {
        match parents_fault(m, b, is_private, (n - 1) as nat) {
            Some(e) => Some(e),
            None => parent_fault(m, b, is_private, b.spec_parents()[n - 1]),
        }
    }
}

/// The first of the first `n` neighbouring pairs of `ps` where the chain weight goes up.
pub open spec fn order_fault<B: BlockT>(m: Map<HashID, (B, BlockMD)>, ps: Seq<HashID>, n: nat) -> Option<(HashID, ChainWeight, HashID, ChainWeight)>
    decreases n,
{
    if n == 0 {
        None
    } else {
        match order_fault(m, ps, (n - 1) as nat) {
            Some(f) => Some(f),
            None => {
                let a = ps[n - 1];
                let c = ps[n as int];
                if m[a].1.chain_weight < m[c].1.chain_weight {
                    Some((a, m[a].1.chain_weight, c, m[c].1.chain_weight))
                } else {
                    None
                }
            },
        }
    }
}

/// The difficulty a child of the stored block `b` must have: 1000 below height 5; above, the
/// work the chain did since the oldest block of `b`'s look-back list (by local chain
/// weight), over the time it took, times the block target.
pub open spec fn spec_next_difficulty<B: BlockT>(store: &BlockStore<B>, net: NetworkArgs, b: B, md: BlockMD) -> Difficulty {
    if md.height < 5 {
        1000
    } else {
        let p = store@[store.daa2_view()[b.spec_id()].last()];
        let bt = sub_or_zero(b.spec_ts() as int, p.0.spec_ts() as int);
        let wr = sub_or_zero(md.local_chain_weight as int, p.1.local_chain_weight as int);
        sat(net.block_target * wr / (if bt == 0 { 1 } else { bt }))
    }
}

/// `a` is in the history of the stored block `d`: `d` itself, or a block reached from `d` by
/// going from blocks to their parents, in a DAG through any of them.
pub open spec fn spec_is_ancestor<B: BlockT>(m: Map<HashID, (B, BlockMD)>, a: HashID, d: HashID) -> bool {
    m.contains_key(d) && ancestors(m, d, Set::empty()).contains(a)
}

/// `a` is one of `parents`, or an ancestor of one of them.
pub open spec fn spec_in_history_of<B: BlockT>(m: Map<HashID, (B, BlockMD)>, a: HashID, parents: Seq<HashID>) -> bool {
    parents.contains(a) || exists|i: int| 0 <= i < parents.len() && spec_is_ancestor(m, a, #[trigger] parents[i])
}

/// The weight that `txs` reflect onto `chain`, counting only the reflections of blocks in the
/// history of `parents`.
pub open spec fn refl_expected<B: BlockT>(m: Map<HashID, (B, BlockMD)>, txs: Seq<Transaction>, parents: Seq<HashID>, chain: HashID) -> int
    decreases txs.len(),
{
    if txs.len() == 0 {
        0
    } else {
        refl_expected(m, txs.drop_last(), parents, chain) + match spec_reflected_l_block(txs.last()) {
            Some(pb) => if spec_in_history_of(m, pb, parents) {
                spec_reflected_weight2(txs.last(), chain) as int
            } else {
                0
            },
            None => 0,
        }
    }
}

/// The sum of the weights (or of the reflected weights) of the stored blocks `ids`.
pub open spec fn ids_weight<B: BlockT>(m: Map<HashID, (B, BlockMD)>, ids: Seq<HashID>, refl: bool) -> int
    decreases ids.len(),
{
    if ids.len() == 0 {
        0
    } else {
        ids_weight(m, ids.drop_last(), refl) + (if refl {
            m[ids.last()].1.reflected_weight as int
        } else {
            m[ids.last()].1.weight as int
        })
    }
}

/// The sum of [`ids_weight`] over the levels of `s` from `lo` to `hi`.
pub open spec fn levels_weight<B: BlockT>(m: Map<HashID, (B, BlockMD)>, s: Map<Height, Seq<HashID>>, lo: int, hi: int, refl: bool) -> int
    decreases hi - lo + 1,
{
    if hi < lo {
        0
    } else {
        levels_weight(m, s, lo, hi - 1, refl) + (if 0 <= hi <= u32::MAX && s.contains_key(hi as Height) {
            ids_weight(m, s[hi as Height], refl)
        } else {
            0
        })
    }
}

/// The first check that a block fails.
pub enum Fault {
    /// Any error but the one on the order of parents.
    Check(ChainErr),
    /// The first pair of neighbouring parents whose chain weight goes up, with their weights.
    ParentOrder((HashID, ChainWeight), (HashID, ChainWeight)),
}

/// `e` is the error that reports the fault `f`.
pub open spec fn fault_is(e: ChainErr, f: Fault) -> bool {
    match f {
        Fault::Check(x) => e == x,
        Fault::ParentOrder(a, c) => match e {
            ChainErr::BadParentOrder(s, x, y) => s@ == "total"@ && x == a && y == c,
            _ => false,
        },
    }
}

impl<B: BlockT, F: ForkRules<B>> Chain<B, F> {
    /// The first check that `b` fails, in the order they are made: its id meets the target of
    /// its difficulty; its height is one above its first parent's; each parent is known, not
    /// newer than it, and holds none of its transactions in its history; its parents come
    /// heaviest first; its difficulty is the one its first parent calls for; and its first
    /// parent's claimed reflected weight is the one its transactions give, and (where not 0)
    /// the one its reflections of blocks in the history of `b`'s parents give.
    pub open spec fn validation_fault(&self, store: &BlockStore<B>, tx_cache: &TxCache, b: B, is_private: bool) -> Option<Fault> {
        let m = store@;
        let ps = b.spec_parents();
        let pm = m[ps[0]];
        let target = u64::MAX / b.spec_difficulty();
        if b.spec_id() > target {
            Some(Fault::Check(ChainErr::BadPoW(b.spec_id(), target)))
        } else if b.spec_height() != pm.0.spec_height() + 1 {
            Some(Fault::Check(ChainErr::BlockHeightInvalid))
        } else if parents_fault(m, b, is_private, ps.len()) is Some {
            Some(Fault::Check(parents_fault(m, b, is_private, ps.len()).unwrap()))
        } else if order_fault(m, ps, (ps.len() - 1) as nat) is Some {
            let f = order_fault(m, ps, (ps.len() - 1) as nat).unwrap();
            Some(Fault::ParentOrder((f.0, f.1), (f.2, f.3)))
        } else if spec_next_difficulty(store, self.net_args, pm.0, pm.1) != b.spec_difficulty() {
            Some(Fault::Check(ChainErr::BadDifficulty))
        } else if pm.0.spec_refl_weight() != refl_sum(pm.0.spec_txs(), tx_cache@, pm.0.spec_chain_id()) {
            Some(Fault::Check(ChainErr::BadReflWeightInBlock))
        } else if pm.0.spec_refl_weight() > 0 && sat(
            refl_expected(m, cached_txs(pm.0.spec_txs(), tx_cache@), ps, self.chain_id),
        ) != pm.0.spec_refl_weight() {
            Some(Fault::Check(ChainErr::BadReflWeightInBlock))
        } else {
            None
        }
    }

    /// The metadata of a valid block `b`: its difficulty and weight are its difficulty, its
    /// height one above its first parent's; its local chain weight is that of the common
    /// ancestor of its parents, plus the weights of the blocks found above that ancestor, plus
    /// its own; its chain weight adds to that the reflected weights of those blocks and its
    /// own. When the common ancestor is the first parent, only the first parent counts.
    pub open spec fn expected_md(&self, store: &BlockStore<B>, b: B) -> BlockMD {
        let m = store@;
        let ps = b.spec_parents();
        let pm = m[ps[0]];
        let d = b.spec_difficulty();
        let l = lca_spec(m, ps).unwrap();
        let lmd = m[l.0].1;
        let lcw: int = if l.0 == ps[0] { pm.1.chain_weight as int } else { lmd.chain_weight as int };
        let llcw: int = if l.0 == ps[0] { pm.1.local_chain_weight as int } else { lmd.local_chain_weight as int };
        let dw: int = if l.0 == ps[0] { 0 } else { levels_weight(m, l.1, lmd.height + 1, max_height(m, ps) as int, false) };
        let rdw: int = if l.0 == ps[0] { 0 } else { levels_weight(m, l.1, lmd.height + 1, max_height(m, ps) as int, true) };
        BlockMD {
            difficulty: d,
            height: (pm.1.height + 1) as u32,
            weight: d,
            local_chain_weight: sat(llcw + dw + d),
            reflected_weight: b.spec_refl_weight(),
            chain_weight: sat(lcw + dw + d + rdw + b.spec_refl_weight()),
        }
    }

    /// A block on one stored parent weighs, locally, its parent's local chain weight plus its
    /// own difficulty (saturating), and its chain weight is its parent's plus its difficulty
    /// and reflected weight: the common ancestor of one block is that block.
    pub proof fn lemma_single_parent_weight(&self, store: &BlockStore<B>, b: B)
        requires
            b.spec_parents().len() == 1,
            store@.contains_key(b.spec_parents()[0]),
        ensures
            self.expected_md(store, b).local_chain_weight == sat(
                store@[b.spec_parents()[0]].1.local_chain_weight + b.spec_difficulty(),
            ),
            self.expected_md(store, b).chain_weight == sat(
                store@[b.spec_parents()[0]].1.chain_weight + b.spec_difficulty() + b.spec_refl_weight(),
            ),
    {
        let m = store@;
        let ps = b.spec_parents();
        let p = ps[0];
        let h = m[p].1.height;
        assert(ps =~= seq![p]);
        assert(ps.drop_last() =~= Seq::<HashID>::empty());
        let r0 = crate::chain::lca::queue_ids(m, Map::empty(), u32::MAX, ps.drop_last());
        assert(r0 == (Map::<Height, Seq<HashID>>::empty(), u32::MAX));
        let r = crate::chain::lca::queue_ids(m, Map::empty(), u32::MAX, ps);
        assert(r == crate::chain::lca::queue_id(r0.0, r0.1, p, h));
        assert(Seq::<HashID>::empty().push(p) =~= seq![p]);
        assert(r.0 =~= Map::<Height, Seq<HashID>>::empty().insert(h, seq![p]));
        assert(r.1 == h);
        assert(max_height(m, ps.drop_last()) == 0);
        assert(max_height(m, ps) == h);
        assert(r.0[h] =~= seq![p]);
        assert(lca_spec(m, ps) == Some((p, Map::<Height, Seq<HashID>>::empty().insert(h, seq![p]))));
    }

    /// The look-back lists after validating `b`: unless it has one, `b` gets its own id
    /// followed by the first `n - 1` of its first parent's.
    pub open spec fn daa2_after(&self, store: &BlockStore<B>, b: B) -> Map<HashID, Seq<HashID>> {
        if store.daa2_view().contains_key(b.spec_id()) {
            store.daa2_view()
        } else {
            store.daa2_view().insert(
                b.spec_id(),
                seq![b.spec_id()] + store.daa2_view()[b.spec_parents()[0]].take(self.net_args.daa2_n_blocks - 1),
            )
        }
    }

    /// The transactions in the history of `tip` (its own included), each once.
    pub fn get_all_txs_in_history_of(&self, store: &BlockStore<B>, tip: &B) -> (r: Vec<TxId>)
        requires
            store.wf(),
            store@.contains_key(tip.spec_id()),
        ensures
            r@.no_duplicates(),
            r@.to_set() == history_txs(store@, tip.spec_id()),
    {
        let ghost m = store@;
        let ids = all_prev_iter(tip, store);
        let ghost anc = ancestors(m, tip.spec_id(), Set::empty());
        let mut out: Vec<TxId> = Vec::new();
        let mut i: usize = 0;
        while i < ids.len()
            invariant
                store.wf(),
                m == store@,
                i <= ids.len(),
                ids@.to_set() == anc,
                anc == ancestors(m, tip.spec_id(), Set::empty()),
                out@.to_set() == Set::new(
                    |t: TxId| exists|j: int| 0 <= j < i && #[trigger] m[ids@[j]].0.spec_txs().contains(t),
                ),
            decreases ids.len() - i,
        {
            let id = ids[i];
            proof {
                assert(ids@.to_set().contains(id));
                let p = choose|p: Seq<HashID>| #[trigger] crate::block::is_anc_path(m, p, Set::empty()) && p[0] == tip.spec_id() && p.last() == id;
                assert(m.contains_key(p[p.len() - 1]));
            }
            let e = store.get(id).unwrap();
            let txs = e.0.get_transactions();
            let ghost out0 = out@;
            let mut k: usize = 0;
            while k < txs.len()
                invariant
                    k <= txs.len(),
                    txs@ == m[id].0.spec_txs(),
                    out@ == out0 + txs@.take(k as int),
                decreases txs.len() - k,
            {
                out.push(txs[k]);
                assert(txs@.take(k + 1) =~= txs@.take(k as int).push(txs@[k as int]));
                k += 1;
            }
            proof {
                assert(txs@.take(txs.len() as int) =~= txs@);
                assert forall|t: TxId| out@.to_set().contains(t) <==> (exists|j: int| 0 <= j < i + 1 && #[trigger] m[ids@[j]].0.spec_txs().contains(t)) by {
                    if out@.contains(t) {
                        let x = choose|x: int| 0 <= x < out@.len() && out@[x] == t;
                        if x < out0.len() {
                            assert(out0[x] == t);
                            assert(out0.to_set().contains(t));
                        } else {
                            assert(txs@[x - out0.len()] == t);
                            assert(m[ids@[i as int]].0.spec_txs().contains(t));
                        }
                    }
                    if exists|j: int| 0 <= j < i + 1 && #[trigger] m[ids@[j]].0.spec_txs().contains(t) {
                        let j = choose|j: int| 0 <= j < i + 1 && #[trigger] m[ids@[j]].0.spec_txs().contains(t);
                        if j < i {
                            assert(out0.to_set().contains(t));
                            let x = choose|x: int| 0 <= x < out0.len() && out0[x] == t;
                            assert(out@[x] == t);
                        } else {
                            let x = choose|x: int| 0 <= x < txs@.len() && txs@[x] == t;
                            assert(out@[out0.len() + x] == t);
                        }
                    }
                }
                assert(out@.to_set() =~= Set::new(
                    |t: TxId| exists|j: int| 0 <= j < i + 1 && #[trigger] m[ids@[j]].0.spec_txs().contains(t),
                ));
            }
            i += 1;
        }
        let r = unique(&out);
        proof {
            assert forall|t: TxId| r@.to_set().contains(t) <==> history_txs(m, tip.spec_id()).contains(t) by {
                if out@.to_set().contains(t) {
                    let j = choose|j: int| 0 <= j < ids@.len() && #[trigger] m[ids@[j]].0.spec_txs().contains(t);
                    assert(ids@.to_set().contains(ids@[j]));
                    assert(anc.contains(ids@[j]));
                }
                if history_txs(m, tip.spec_id()).contains(t) {
                    let x = choose|x: HashID| #[trigger] anc.contains(x) && m[x].0.spec_txs().contains(t);
                    assert(ids@.to_set().contains(x));
                    let j = choose|j: int| 0 <= j < ids@.len() && ids@[j] == x;
                    assert(m[ids@[j]].0.spec_txs().contains(t));
                }
            }
            assert(r@.to_set() =~= history_txs(m, tip.spec_id()));
        }
        r
    }
}

proof fn lemma_parents_fault_stable<B: BlockT>(m: Map<HashID, (B, BlockMD)>, b: B, is_private: bool, n: nat, n2: nat)
    requires
        n <= n2,
        parents_fault(m, b, is_private, n) is Some,
    ensures
        parents_fault(m, b, is_private, n2) == parents_fault(m, b, is_private, n),
    decreases n2,
{
    if n2 > n {
        lemma_parents_fault_stable(m, b, is_private, n, (n2 - 1) as nat);
    }
}

proof fn lemma_order_fault_stable<B: BlockT>(m: Map<HashID, (B, BlockMD)>, ps: Seq<HashID>, n: nat, n2: nat)
    requires
        n <= n2,
        order_fault(m, ps, n) is Some,
    ensures
        order_fault(m, ps, n2) == order_fault(m, ps, n),
    decreases n2,
{
    if n2 > n {
        lemma_order_fault_stable(m, ps, n, (n2 - 1) as nat);
    }
}

impl<B: BlockT, F: ForkRules<B>> Chain<B, F> {
    /// Checks each parent of `b` in turn (see [`parent_fault`]).
    fn check_parents(&self, store: &BlockStore<B>, b: &B, is_private: bool) -> (r: Result<(), ChainErr>)
        requires
            store.wf(),
        ensures
            match r {
                Ok(()) => parents_fault(store@, *b, is_private, b.spec_parents().len()) is None,
                Err(e) => parents_fault(store@, *b, is_private, b.spec_parents().len()) == Some(e),
            },
    {
        let ghost m = store@;
        let ps = b.all_parents();
        let b_txs = b.get_transactions();
        let b_id = b.get_hash();
        let mut i: usize = 0;
        while i < ps.len()
            invariant
                store.wf(),
                m == store@,
                i <= ps.len(),
                ps@ == b.spec_parents(),
                b_txs@ == b.spec_txs(),
                b_id == b.spec_id(),
                parents_fault(m, *b, is_private, i as nat) is None,
            decreases ps.len() - i,
        {
            let p = ps[i];
            assert(b.spec_parents()[(i + 1) - 1] == p);
            let e = match store.get(p) {
                Some(e) => e,
                None => {
                    proof {
                        lemma_parents_fault_stable(m, *b, is_private, (i + 1) as nat, b.spec_parents().len());
                    }
                    return Err(ChainErr::BlockRefsUnkParent(b_id, p, is_private));
                },
            };
            proof {
                assert(block_wf(m, p));
            }
            if b.get_ts() < e.0.get_ts() {
                proof {
                    lemma_parents_fault_stable(m, *b, is_private, (i + 1) as nat, b.spec_parents().len());
                }
                return Err(ChainErr::TsBeforeParent);
            }
            let hist = self.get_all_txs_in_history_of(store, &e.0);
            let ghost t = history_txs(m, p);
            let mut j: usize = 0;
            while j < b_txs.len()
                invariant
                    j <= b_txs.len(),
                    b_txs@ == b.spec_txs(),
                    hist@.to_set() == t,
                    t == history_txs(m, p),
                    m == store@,
                    i < ps.len(),
                    ps@ == b.spec_parents(),
                    p == ps@[i as int],
                    m.contains_key(p),
                    b.spec_ts() >= m[p].0.spec_ts(),
                    b_id == b.spec_id(),
                    parents_fault(m, *b, is_private, i as nat) is None,
                    forall|k: int| 0 <= k < j ==> !t.contains(#[trigger] b_txs@[k]),
                decreases b_txs.len() - j,
            {
                let tx = b_txs[j];
                if vec_contains(&hist, tx) {
                    proof {
                        assert(hist@.to_set().contains(tx));
                        assert(t.contains(b_txs@[j as int]));
                        let f = first_in(b_txs@, t);
                        assert(0 <= f < b_txs@.len() && t.contains(b_txs@[f]));
                        if f < j {
                            assert(!t.contains(b_txs@[f]));
                        }
                        if f > j {
                            assert(!t.contains(b_txs@[j as int]));
                        }
                        assert(f == j);
                        lemma_parents_fault_stable(m, *b, is_private, (i + 1) as nat, b.spec_parents().len());
                    }
                    return Err(ChainErr::TxInParent { b: b_id, txid: tx });
                }
                j += 1;
            }
            i += 1;
        }
        Ok(())
    }

    /// Checks that neighbouring parents of `b` never go up in chain weight; the error names
    /// the first pair that does.
    fn check_parent_order(&self, store: &BlockStore<B>, ps: &Vec<HashID>) -> (r: Result<(), ChainErr>)
        requires
            ps@.len() > 0,
            forall|i: int| 0 <= i < ps@.len() ==> store@.contains_key(#[trigger] ps@[i]),
        ensures
            match r {
                Ok(()) => order_fault(store@, ps@, (ps@.len() - 1) as nat) is None,
                Err(e) => {
                    &&& order_fault(store@, ps@, (ps@.len() - 1) as nat) is Some
                    &&& {
                        let f = order_fault(store@, ps@, (ps@.len() - 1) as nat).unwrap();
                        fault_is(e, Fault::ParentOrder((f.0, f.1), (f.2, f.3)))
                    }
                },
            },
    {
        let ghost m = store@;
        let mut i: usize = 0;
        while i + 1 < ps.len()
            invariant
                m == store@,
                i + 1 <= ps.len(),
                forall|k: int| 0 <= k < ps@.len() ==> m.contains_key(#[trigger] ps@[k]),
                order_fault(m, ps@, i as nat) is None,
            decreases ps.len() - i,
        {
            let a = ps[i];
            let c = ps[i + 1];
            let wa = store.get(a).unwrap().1.chain_weight;
            let wc = store.get(c).unwrap().1.chain_weight;
            assert(ps@[(i + 1) - 1] == a);
            if wa < wc {
                proof {
                    lemma_order_fault_stable(m, ps@, (i + 1) as nat, (ps@.len() - 1) as nat);
                }
                let label = "total".to_owned();
                return Err(ChainErr::BadParentOrder(label, (a, wa), (c, wc)));
            }
            i += 1;
        }
        Ok(())
    }

    /// The difficulty a child of the stored block `b` must have (see [`spec_next_difficulty`]).
    pub fn next_difficulty(&self, store: &BlockStore<B>, b: &B, b_meta: &BlockMD) -> (r: Difficulty)
        requires
            store.daa2_ok(self.net_args.daa2_n_blocks),
            store@.contains_key(b.spec_id()) || b_meta.height < 5,
        ensures
            r == spec_next_difficulty(store, self.net_args, *b, *b_meta),
    {
        if b_meta.height < 5 {
            return 1000;
        }
        let b_id = b.get_hash();
        let daa2 = store.get_daa2(b_id).unwrap();
        let last = daa2[daa2.len() - 1];
        assert(store@.contains_key(store.daa2_view()[b_id][daa2.len() - 1]) || store.daa2_view()[b_id][daa2.len() - 1] == b_id);
        let p = store.get(last).unwrap();
        let b_ts = b.get_ts();
        let p_ts = p.0.get_ts();
        let bt: u32 = if b_ts >= p_ts { b_ts - p_ts } else { 0 };
        let wr: u64 = if b_meta.local_chain_weight >= p.1.local_chain_weight {
            b_meta.local_chain_weight - p.1.local_chain_weight
        } else {
            0
        };
        let den: u128 = if bt == 0 { 1 } else { bt as u128 };
        let bt_target: u128 = self.net_args.block_target as u128;
        let wr_wide: u128 = wr as u128;
        assert(bt_target * wr_wide <= 0xffff * 0xffff_ffff_ffff_ffffu128) by (nonlinear_arith)
            requires
                bt_target <= 0xffff,
                wr_wide <= 0xffff_ffff_ffff_ffffu128,
        ;
        let num: u128 = bt_target * wr_wide;
        let v = num / den;
        if v > u64::MAX as u128 {
            u64::MAX
        } else {
            v as u64
        }
    }

    /// Whether `ancestor` is in the history of the stored block `descendant` (see
    /// [`spec_is_ancestor`]): every block reached from it through parents counts, also one
    /// that a sibling of it shares a descendant with.
    pub fn block_is_ancestor_of(&self, store: &BlockStore<B>, ancestor: HashID, descendant: HashID) -> (r: bool)
        requires
            store.wf(),
        ensures
            r == spec_is_ancestor(store@, ancestor, descendant),
    {
        match store.get(descendant) {
            Some(e) => {
                proof {
                    assert(block_wf(store@, descendant));
                }
                let ids = all_prev_iter(&e.0, store);
                vec_contains(&ids, ancestor)
            },
            None => false,
        }
    }

    /// Whether `ancestor` is one of `parents` or in the history of one of them.
    pub fn block_is_in_history_of(&self, store: &BlockStore<B>, ancestor: HashID, parents: &Vec<HashID>) -> (r: bool)
        requires
            store.wf(),
        ensures
            r == spec_in_history_of(store@, ancestor, parents@),
    {
        if vec_contains(parents, ancestor) {
            return true;
        }
        let mut i: usize = 0;
        while i < parents.len()
            invariant
                store.wf(),
                i <= parents.len(),
                !parents@.contains(ancestor),
                forall|j: int| 0 <= j < i ==> !spec_is_ancestor(store@, ancestor, #[trigger] parents@[j]),
            decreases parents.len() - i,
        {
            if self.block_is_ancestor_of(store, ancestor, parents[i]) {
                return true;
            }
            i += 1;
        }
        false
    }

    /// Whether `ancestor` is one of the side's best blocks or in the history of one of them.
    pub fn block_is_in_best_chain(&self, store: &BlockStore<B>, ancestor: HashID, is_private: bool) -> (r: bool)
        requires
            store.wf(),
        ensures
            r == (self.best_view(is_private).contains(ancestor) || exists|x: HashID|
                #[trigger] self.best_view(is_private).contains(x) && spec_is_ancestor(store@, ancestor, x)),
    {
        let bbs = self.get_best_blocks(is_private).to_vec();
        let r = self.block_is_in_history_of(store, ancestor, &bbs);
        proof {
            if r {
                if !bbs@.contains(ancestor) {
                    let i = choose|i: int| 0 <= i < bbs@.len() && spec_is_ancestor(store@, ancestor, #[trigger] bbs@[i]);
                    assert(bbs@.to_set().contains(bbs@[i]));
                } else {
                    assert(bbs@.to_set().contains(ancestor));
                }
            } else {
                assert forall|x: HashID| #[trigger] self.best_view(is_private).contains(x) implies !spec_is_ancestor(store@, ancestor, x) by {
                    assert(bbs@.to_set().contains(x));
                    let i = choose|i: int| 0 <= i < bbs@.len() && bbs@[i] == x;
                    assert(!spec_is_ancestor(store@, ancestor, bbs@[i]));
                }
                if self.best_view(is_private).contains(ancestor) {
                    assert(bbs@.to_set().contains(ancestor));
                }
            }
        }
        r
    }

    /// The weight that the stored transactions of `pm` reflect onto this chain, counting only
    /// reflections of blocks in the history of `parents` (saturating).
    fn expected_reflected_weight(&self, store: &BlockStore<B>, tx_cache: &TxCache, pm: &B, parents: &Vec<HashID>) -> (r: u64)
        requires
            store.wf(),
        ensures
            r == sat(refl_expected(store@, cached_txs(pm.spec_txs(), tx_cache@), parents@, self.chain_id)),
    {
        let ghost m = store@;
        let txv = pm.get_txs(tx_cache);
        let ghost ct = cached_txs(pm.spec_txs(), tx_cache@);
        let mut acc: u64 = 0;
        let mut i: usize = 0;
        assert(ct.take(0) =~= Seq::<Transaction>::empty());
        while i < txv.len()
            invariant
                store.wf(),
                m == store@,
                i <= txv.len(),
                txv@.len() == ct.len(),
                forall|k: int| 0 <= k < txv@.len() ==> *txv@[k] == #[trigger] ct[k],
                acc == sat(refl_expected(m, ct.take(i as int), parents@, self.chain_id)),
                refl_expected(m, ct.take(i as int), parents@, self.chain_id) >= 0,
            decreases txv.len() - i,
        {
            let tx = txv[i];
            assert(*tx == ct[i as int]);
            assert(ct.take(i + 1).drop_last() =~= ct.take(i as int));
            assert(ct.take(i + 1).last() == ct[i as int]);
            let ghost prev = refl_expected(m, ct.take(i as int), parents@, self.chain_id);
            match tx.get_reflected_l_block() {
                Some(pb) => {
                    if self.block_is_in_history_of(store, pb, parents) {
                        let w = tx.get_reflected_weight2(self.chain_id);
                        proof {
                            lemma_sat_add(prev, w as int);
                        }
                        acc = acc.saturating_add(w);
                    }
                },
                None => {},
            }
            i += 1;
        }
        assert(ct.take(txv.len() as int) =~= ct);
        acc
    }

    /// The greatest height among the stored blocks `ps`.
    pub(crate) fn max_parent_height(&self, store: &BlockStore<B>, ps: &Vec<HashID>) -> (r: Height)
        requires
            forall|i: int| 0 <= i < ps@.len() ==> store@.contains_key(#[trigger] ps@[i]),
        ensures
            r == max_height(store@, ps@),
    {
        let mut h: Height = 0;
        let mut i: usize = 0;
        assert(ps@.take(0) =~= Seq::<HashID>::empty());
        while i < ps.len()
            invariant
                i <= ps.len(),
                forall|k: int| 0 <= k < ps@.len() ==> store@.contains_key(#[trigger] ps@[k]),
                h == max_height(store@, ps@.take(i as int)),
            decreases ps.len() - i,
        {
            let ph = store.get(ps[i]).unwrap().1.height;
            assert(ps@.take(i + 1).drop_last() =~= ps@.take(i as int));
            assert(ps@.take(i + 1).last() == ps@[i as int]);
            if ph > h {
                h = ph;
            }
            i += 1;
        }
        assert(ps@.take(ps.len() as int) =~= ps@);
        h
    }
}

/// The summed weights and reflected weights (each saturating) of the levels `lo` to `hi` of
/// the LCA's record `levels`, which records the levels `s`.
pub(crate) fn levels_weights<B: BlockT>(
    store: &BlockStore<B>,
    levels: &HashMap<Height, Vec<BInfo>>,
    Ghost(s): Ghost<Map<Height, Seq<HashID>>>,
    lo: Height,
    hi: Height,
) -> (r: (u64, u64))
    requires
        crate::chain::lca::levels_match(store@, levels@, s),
    ensures
        r.0 == sat(levels_weight(store@, s, lo as int, hi as int, false)),
        r.1 == sat(levels_weight(store@, s, lo as int, hi as int, true)),
{
    let ghost m = store@;
    let mut w: u64 = 0;
    let mut rw: u64 = 0;
    let mut k: u64 = lo as u64;
    while k <= hi as u64
        invariant
            crate::chain::lca::levels_match(m, levels@, s),
            m == store@,
            lo <= k <= hi as u64 + 1 || (k == lo && lo > hi),
            w == sat(levels_weight(m, s, lo as int, k - 1, false)),
            rw == sat(levels_weight(m, s, lo as int, k - 1, true)),
            levels_weight(m, s, lo as int, k - 1, false) >= 0,
            levels_weight(m, s, lo as int, k - 1, true) >= 0,
        decreases hi as u64 + 1 - k,
    {
        let kh = k as Height;
        let ghost w0 = levels_weight(m, s, lo as int, k - 1, false);
        let ghost rw0 = levels_weight(m, s, lo as int, k - 1, true);
        match levels.get(&kh) {
            Some(v) => {
                assert(levels@.contains_key(kh));
                let ghost ids = s[kh];
                assert(v@ == ids.map_values(|id: HashID| crate::chain::lca::binfo_of(m, id)));
                let mut j: usize = 0;
                assert(ids.take(0) =~= Seq::<HashID>::empty());
                while j < v.len()
                    invariant
                        j <= v.len(),
                        v@.len() == ids.len(),
                        forall|t: int| 0 <= t < v@.len() ==> #[trigger] v@[t] == crate::chain::lca::binfo_of(m, ids[t]),
                        w == sat(w0 + ids_weight(m, ids.take(j as int), false)),
                        rw == sat(rw0 + ids_weight(m, ids.take(j as int), true)),
                        w0 >= 0,
                        rw0 >= 0,
                        ids_weight(m, ids.take(j as int), false) >= 0,
                        ids_weight(m, ids.take(j as int), true) >= 0,
                    decreases v.len() - j,
                {
                    let bi = v[j];
                    assert(bi == crate::chain::lca::binfo_of(m, ids[j as int]));
                    assert(ids.take(j + 1).drop_last() =~= ids.take(j as int));
                    assert(ids.take(j + 1).last() == ids[j as int]);
                    proof {
                        lemma_sat_add(w0 + ids_weight(m, ids.take(j as int), false), bi.weight as int);
                        lemma_sat_add(rw0 + ids_weight(m, ids.take(j as int), true), bi.reflected_weight as int);
                    }
                    w = w.saturating_add(bi.weight);
                    rw = rw.saturating_add(bi.reflected_weight);
                    j += 1;
                }
                assert(ids.take(v.len() as int) =~= ids);
            },
            None => {
                assert(!s.contains_key(kh));
            },
        }
        k += 1;
    }
    (w, rw)
}

impl<B: BlockT, F: ForkRules<B>> Chain<B, F> {
    /// Validates `b` against one side of the chain: the first check it fails gives the error
    /// (see [`Self::validation_fault`]); a valid block gets its metadata (see
    /// [`Self::expected_md`]) and, unless it has one, a look-back list (see
    /// [`Self::daa2_after`]). No block is stored.
    #[verifier::spinoff_prover]
    #[verifier::rlimit(40)]
    pub fn validate_block(&self, store: &mut BlockStore<B>, tx_cache: &TxCache, b: &B, is_private: bool) -> (r: Result<BlockMD, ChainErr>)
        requires
            self.inv(old(store)),
            b.spec_difficulty() > 0,
            b.spec_parents().len() > 0,
            old(store)@.contains_key(b.spec_parents()[0]),
            forall|i: int|
                0 <= i < b.spec_parents().len() && old(store)@.contains_key(#[trigger] b.spec_parents()[i])
                    ==> rooted(old(store)@, b.spec_parents()[i], self.chain_id),
        ensures
            final(store)@ == old(store)@,
            self.inv(final(store)),
            match r {
                Ok(md) => {
                    &&& self.validation_fault(old(store), tx_cache, *b, is_private) is None
                    &&& md == self.expected_md(old(store), *b)
                    &&& final(store).daa2_view() == self.daa2_after(old(store), *b)
                },
                Err(e) => {
                    &&& self.validation_fault(old(store), tx_cache, *b, is_private) is Some
                    &&& fault_is(e, self.validation_fault(old(store), tx_cache, *b, is_private).unwrap())
                    &&& final(store).daa2_view() == old(store).daa2_view()
                },
            },
    {
        let ghost m = store@;
        let b_id = b.get_hash();
        let d_b = b.get_difficulty();
        let target = self.target_from_difficulty(d_b);
        if b_id > target {
            return Err(ChainErr::BadPoW(b_id, target));
        }
        let pm_id = b.prev();
        let pm = store.get(pm_id).unwrap();
        if b.get_height() as u64 != pm.0.get_height() as u64 + 1 {
            return Err(ChainErr::BlockHeightInvalid);
        }
        self.check_parents(store, b, is_private)?;
        let ps = b.all_parents();
        assert forall|i: int| 0 <= i < ps@.len() implies store@.contains_key(#[trigger] ps@[i]) by {
            lemma_parents_ok_stored(m, *b, is_private, ps@.len(), i);
        }
        match self.check_parent_order(store, &ps) {
            Ok(()) => {},
            Err(e) => {
                return Err(e);
            },
        }
        proof {
            assert(block_wf(m, pm_id));
        }
        let d = self.next_difficulty(store, &pm.0, &pm.1);
        if d != d_b {
            return Err(ChainErr::BadDifficulty);
        }
        if pm.0.get_reflected_weight() != pm.0.calc_reflected_weight(tx_cache) {
            return Err(ChainErr::BadReflWeightInBlock);
        }
        if pm.0.get_reflected_weight() > 0 {
            let total = self.expected_reflected_weight(store, tx_cache, &pm.0, &ps);
            if total != pm.0.get_reflected_weight() {
                return Err(ChainErr::BadReflWeightInBlock);
            }
        }
        proof {
            assert forall|i: int| 0 <= i < ps@.len() implies m.contains_key(#[trigger] ps@[i]) && rooted(m, ps@[i], self.chain_id) by {
                assert(m.contains_key(ps@[i]));
            }
            lemma_lca_some(m, ps@, self.chain_id);
            lemma_lca_levels(m, ps@);
        }
        let lca_r = lca_and_intermediates(store, &ps).unwrap();
        let ghost l = lca_spec(m, ps@).unwrap();
        let (lca_cw, lca_lcw, dw, rdw) = if lca_r.0 == pm_id {
            (pm.1.chain_weight, pm.1.local_chain_weight, 0u64, 0u64)
        } else {
            let lmd = store.get(lca_r.0).unwrap().1;
            let max_h = self.max_parent_height(store, &ps);
            let (w, rw) = if lmd.height < max_h {
                levels_weights(store, &lca_r.1, Ghost(l.1), lmd.height + 1, max_h)
            } else {
                (0u64, 0u64)
            };
            (lmd.chain_weight, lmd.local_chain_weight, w, rw)
        };
        let refl = b.get_reflected_weight();
        let pm_height = pm.1.height;
        proof {
            assert(block_wf(m, pm_id));
            assert(pm_height < u32::MAX);
        }
        let n = self.net_args.daa2_n_blocks;
        match store.get_daa2(b_id) {
            Some(_) => {},
            None => {
                let mut v: Vec<HashID> = Vec::new();
                v.push(b_id);
                let pd = store.get_daa2(pm_id).unwrap();
                let mut i: usize = 0;
                while i < n - 1
                    invariant
                        i <= n - 1,
                        n >= 1,
                        pd@.len() == n,
                        v@ == seq![b_id] + pd@.take(i as int),
                    decreases n - 1 - i,
                {
                    v.push(pd[i]);
                    assert(pd@.take(i + 1) =~= pd@.take(i as int).push(pd@[i as int]));
                    i += 1;
                }
                let ghost pdv = pd@;
                store.set_daa2(b_id, v);
                proof {
                    let dv = store.daa2_view();
                    assert(dv[b_id] == seq![b_id] + pdv.take(n - 1));
                    assert forall|k: HashID| #[trigger] dv.contains_key(k) implies {
                        &&& dv[k].len() == n
                        &&& dv[k][0] == k
                        &&& forall|j: int| 0 < j < dv[k].len() ==> store@.contains_key(#[trigger] dv[k][j]) || dv[k][j] == k
                    } by {
                        if k == b_id {
                            assert forall|j: int| 0 < j < dv[k].len() implies store@.contains_key(#[trigger] dv[k][j]) || dv[k][j] == k by {
                                assert(dv[k][j] == pdv[j - 1]);
                                if j - 1 > 0 {
                                    assert(store@.contains_key(pdv[j - 1]) || pdv[j - 1] == pm_id);
                                } else {
                                    assert(pdv[0] == pm_id);
                                }
                            }
                        }
                    }
                }
            },
        }
        let local_chain_weight = lca_lcw.saturating_add(dw.saturating_add(d));
        let chain_weight = lca_cw.saturating_add(dw.saturating_add(d)).saturating_add(rdw.saturating_add(refl));
        proof {
            let ghost lmd = m[l.0].1;
            let ghost dwi: int = if l.0 == ps@[0] { 0 } else { levels_weight(m, l.1, lmd.height + 1, max_height(m, ps@) as int, false) };
            let ghost rdwi: int = if l.0 == ps@[0] { 0 } else { levels_weight(m, l.1, lmd.height + 1, max_height(m, ps@) as int, true) };
            lemma_levels_weight_nonneg(m, l.1, lmd.height + 1, max_height(m, ps@) as int);
            assert(dw == sat(dwi));
            assert(rdw == sat(rdwi));
            lemma_sat_add(dwi, d as int);
            lemma_sat_add(rdwi, refl as int);
            lemma_sat_add2(lca_lcw as int, dwi + d);
            lemma_sat_add2(lca_cw as int, dwi + d);
            lemma_sat_add(lca_cw as int + dwi + d, rdwi + refl);
            lemma_sat_add2(sat(lca_cw as int + dwi + d) as int, rdwi + refl);
        }
        Ok(BlockMD {
            difficulty: d,
            height: pm_height + 1,
            weight: d,
            local_chain_weight,
            reflected_weight: refl,
            chain_weight,
        })
    }
}

proof fn lemma_sat_add2(a: int, b: int)
    requires
        0 <= a <= u64::MAX,
        b >= 0,
    ensures
        (if a + sat(b) > u64::MAX { u64::MAX } else { (a + sat(b)) as u64 }) == sat(a + b),
{
}

proof fn lemma_parents_ok_stored<B: BlockT>(m: Map<HashID, (B, BlockMD)>, b: B, is_private: bool, n: nat, i: int)
    requires
        parents_fault(m, b, is_private, n) is None,
        0 <= i < n,
    ensures
        m.contains_key(b.spec_parents()[i]),
    decreases n,
{
    if i < n - 1 {
        lemma_parents_ok_stored(m, b, is_private, (n - 1) as nat, i);
    }
}

proof fn lemma_levels_weight_nonneg<B: BlockT>(m: Map<HashID, (B, BlockMD)>, s: Map<Height, Seq<HashID>>, lo: int, hi: int)
    ensures
        levels_weight(m, s, lo, hi, false) >= 0,
        levels_weight(m, s, lo, hi, true) >= 0,
    decreases hi - lo + 1,
{
    if hi >= lo {
        lemma_levels_weight_nonneg(m, s, lo, hi - 1);
        if 0 <= hi <= u32::MAX && s.contains_key(hi as Height) {
            lemma_ids_weight_nonneg(m, s[hi as Height]);
        }
    }
}

proof fn lemma_ids_weight_nonneg<B: BlockT>(m: Map<HashID, (B, BlockMD)>, ids: Seq<HashID>)
    ensures
        ids_weight(m, ids, false) >= 0,
        ids_weight(m, ids, true) >= 0,
    decreases ids.len(),
{
    if ids.len() > 0 {
        lemma_ids_weight_nonneg(m, ids.drop_last());
    }
}

impl<B: BlockT, F: ForkRules<B>> Chain<B, F> {
    /// The side has seen every one of `ps`.
    pub open spec fn parents_seen(&self, ps: Seq<HashID>, is_private: bool) -> bool {
        forall|i: int| 0 <= i < ps.len() ==> self.seen_view(is_private).contains(#[trigger] ps[i])
    }

    /// `e` names the first of `ps` (the parents of the block `id`) that the side has not seen.
    pub open spec fn unseen_err(&self, id: HashID, ps: Seq<HashID>, is_private: bool, e: ChainErr) -> bool {
        exists|i: int|
            0 <= i < ps.len() && !self.seen_view(is_private).contains(#[trigger] ps[i]) && (forall|j: int|
                0 <= j < i ==> self.seen_view(is_private).contains(#[trigger] ps[j])) && e
                == ChainErr::BlockRefsUnkParent(id, ps[i], is_private)
    }

    /// What adding `b` to one side does (see [`Self::add_block`]): `c1` and `s1` are the chain
    /// and the store after, `r` the result.
    pub open spec fn added(
        &self,
        c1: &Self,
        s0: &BlockStore<B>,
        s1: &BlockStore<B>,
        tx_cache: &TxCache,
        b: B,
        is_private: bool,
        r: Result<(), ChainErr>,
    ) -> bool {
        &&& (r is Ok) == (self.parents_seen(b.spec_parents(), is_private) && if s0@.contains_key(b.spec_id()) {
            self.parents_seen(s0@[b.spec_id()].0.spec_parents(), is_private)
        } else {
            self.validation_fault(s0, tx_cache, b, is_private) is None
        })
        &&& match r {
            Err(e) => {
                &&& if !self.parents_seen(b.spec_parents(), is_private) {
                    self.unseen_err(b.spec_id(), b.spec_parents(), is_private, e)
                } else if s0@.contains_key(b.spec_id()) {
                    self.unseen_err(b.spec_id(), s0@[b.spec_id()].0.spec_parents(), is_private, e)
                } else {
                    fault_is(e, self.validation_fault(s0, tx_cache, b, is_private).unwrap())
                }
                &&& s1@ == s0@
                &&& s1.daa2_view() == s0.daa2_view()
                &&& *c1 == *self
            },
            Ok(()) => {
                &&& s1@ == (if s0@.contains_key(b.spec_id()) {
                    s0@
                } else {
                    s0@.insert(b.spec_id(), (b, self.expected_md(s0, b)))
                })
                &&& s1.daa2_view() == (if s0@.contains_key(b.spec_id()) {
                    s0.daa2_view()
                } else {
                    self.daa2_after(s0, b)
                })
                &&& c1.seen_view(is_private) == self.seen_view(is_private).insert(b.spec_id())
                &&& c1.best_view(is_private) == self.best_after(s1, is_private, b.spec_id(), s1@[b.spec_id()].1)
                &&& c1.heads_view(is_private) == self.heads_view(is_private).remove_keys(
                    s1@[b.spec_id()].0.spec_parents().to_set(),
                ).insert(b.spec_id(), s1@[b.spec_id()].1.chain_weight)
                &&& c1.mempool_view(is_private) == self.mempool_view(is_private).difference(
                    s1@[b.spec_id()].0.spec_txs().to_set(),
                )
                &&& c1.seen_view(!is_private) == self.seen_view(!is_private)
                &&& c1.best_view(!is_private) == self.best_view(!is_private)
                &&& c1.heads_view(!is_private) == self.heads_view(!is_private)
                &&& c1.mempool_view(!is_private) == self.mempool_view(!is_private)
                &&& c1.chain_id == self.chain_id
                &&& c1.net_args == self.net_args
            },
        }
    }

    /// Adding a block only ever adds to the store.
    pub proof fn lemma_added_extends(&self, c1: &Self, s0: &BlockStore<B>, s1: &BlockStore<B>, tx_cache: &TxCache, b: B, is_private: bool, r: Result<(), ChainErr>)
        requires
            self.added(c1, s0, s1, tx_cache, b, is_private, r),
        ensures
            extends(s0@, s1@),
    {
    }

    /// Adding a block is idempotent: adding it a second time to the same side, right after it
    /// was added, succeeds and changes nothing, neither the store nor the chain.
    #[verifier::rlimit(30)]
    pub proof fn lemma_add_twice(
        &self,
        c1: &Self,
        c2: &Self,
        s0: &BlockStore<B>,
        s1: &BlockStore<B>,
        s2: &BlockStore<B>,
        tx_cache: &TxCache,
        b: B,
        is_private: bool,
        r2: Result<(), ChainErr>,
    )
        requires
            self.added(c1, s0, s1, tx_cache, b, is_private, Ok(())),
            c1.inv(s1),
            c1.added(c2, s1, s2, tx_cache, b, is_private, r2),
        ensures
            r2 is Ok,
            s2@ == s1@,
            s2.daa2_view() == s1.daa2_view(),
            c2.chain_id == c1.chain_id,
            c2.net_args == c1.net_args,
            forall|p: bool| #![auto] c2.seen_view(p) == c1.seen_view(p),
            forall|p: bool| #![auto] c2.best_view(p) == c1.best_view(p),
            forall|p: bool| #![auto] c2.heads_view(p) == c1.heads_view(p),
            forall|p: bool| #![auto] c2.mempool_view(p) == c1.mempool_view(p),
    {
        let ps = b.spec_parents();
        let id = b.spec_id();
        assert(c1.parents_seen(ps, is_private)) by {
            assert forall|i: int| 0 <= i < ps.len() implies c1.seen_view(is_private).contains(#[trigger] ps[i]) by {
                assert(self.seen_view(is_private).contains(ps[i]));
            }
        }
        let sp = s1@[id].0.spec_parents();
        assert(c1.parents_seen(sp, is_private)) by {
            assert forall|i: int| 0 <= i < sp.len() implies c1.seen_view(is_private).contains(#[trigger] sp[i]) by {
                if s0@.contains_key(id) {
                    assert(self.seen_view(is_private).contains(sp[i]));
                } else {
                    assert(s1@[id].0 == b);
                    assert(self.seen_view(is_private).contains(ps[i]));
                }
            }
        }
        assert(s1@.contains_key(id));
        assert(r2 is Ok);
        assert(c2.seen_view(is_private) =~= c1.seen_view(is_private));
        // the best blocks
        let md = s1@[id].1;
        let mb = F::spec_fork_measure(md);
        let bv = c1.best_view(is_private);
        if bv.contains(id) {
            vstd::set::axiom_set_choose_len(bv);
            assert(Self::measure_of(s1, bv.choose()) == Self::measure_of(s1, id));
            assert(c1.best_measure(s1, is_private) == mb);
            assert(c2.best_view(is_private) =~= bv);
        } else {
            let mm = self.best_measure(s1, is_private);
            assert(mb < mm);
            assert(bv == self.best_view(is_private));
            assert(c1.best_measure(s1, is_private) == mm);
        }
        assert(c2.best_view(is_private) == c1.best_view(is_private));
        // the chain heads
        let h1 = c1.heads_view(is_private);
        let h2 = c2.heads_view(is_private);
        assert(h2 =~= h1) by {
            assert forall|k: HashID| #[trigger] h2.contains_key(k) == h1.contains_key(k) by {}
        }
        assert(c2.mempool_view(is_private) =~= c1.mempool_view(is_private));
        assert(c2.seen_view(!is_private) == c1.seen_view(!is_private));
        assert forall|p: bool| #![auto] c2.seen_view(p) == c1.seen_view(p) by {
            if p == is_private {} else { assert(p == !is_private); }
        }
        assert forall|p: bool| #![auto] c2.best_view(p) == c1.best_view(p) by {
            if p == is_private {} else { assert(p == !is_private); }
        }
        assert forall|p: bool| #![auto] c2.heads_view(p) == c1.heads_view(p) by {
            if p == is_private {} else { assert(p == !is_private); }
        }
        assert forall|p: bool| #![auto] c2.mempool_view(p) == c1.mempool_view(p) by {
            if p == is_private {} else { assert(p == !is_private); }
        }
    }

    /// Adds `b` to one side of the chain. Every parent of `b` must have been seen on that
    /// side. A block the store does not hold yet must be valid (see
    /// [`Self::validate_block`]) and is stored with its metadata; a stored one is taken as
    /// stored, and its own parents must have been seen. The block's transactions then leave
    /// the mempool, it competes with the best blocks, replaces its parents as a chain head,
    /// and is seen.
    pub fn add_block(&mut self, store: &mut BlockStore<B>, tx_cache: &TxCache, b: B, is_private: bool) -> (r: Result<(), ChainErr>)
        requires
            old(self).inv(old(store)),
            b.spec_parents().len() > 0,
            !old(store)@.contains_key(b.spec_id()) ==> b.spec_difficulty() > 0,
        ensures
            old(self).added(&*final(self), old(store), final(store), tx_cache, b, is_private, r),
            final(self).inv(final(store)),
    {
        let b_id = b.get_hash();
        match self.validate_block_local(&b, is_private) {
            Ok(()) => {},
            Err(e) => {
                return Err(e);
            },
        }
        let ghost s0 = *store;
        if !store.contains(b_id) {
            proof {
                assert forall|i: int| 0 <= i < b.spec_parents().len() && store@.contains_key(#[trigger] b.spec_parents()[i])
                    implies rooted(store@, b.spec_parents()[i], self.chain_id) by {
                    assert(self.seen_view(is_private).contains(b.spec_parents()[i]));
                }
                assert(self.seen_view(is_private).contains(b.spec_parents()[0]));
            }
            let md = match self.validate_block(store, tx_cache, &b, is_private) {
                Ok(md) => md,
                Err(e) => {
                    return Err(e);
                },
            };
            let ghost s1 = *store;
            proof {
                let m1 = s1@;
                let m2 = m1.insert(b_id, (b, md));
                let ps = b.spec_parents();
                assert(m1.contains_key(ps[0])) by {
                    assert(self.seen_view(is_private).contains(ps[0]));
                }
                assert(block_wf(m1, ps[0]));
                assert(forall|i: int| 0 <= i < ps.len() ==> m1.contains_key(#[trigger] ps[i])) by {
                    assert forall|i: int| 0 <= i < ps.len() implies m1.contains_key(#[trigger] ps[i]) by {
                        assert(self.seen_view(is_private).contains(ps[i]));
                    }
                }
                assert forall|k: HashID| #[trigger] m2.contains_key(k) implies block_wf(m2, k) by {
                    if k != b_id {
                        assert(block_wf(m1, k));
                        let bk = m1[k].0;
                        assert forall|i: int| 0 <= i < bk.spec_parents().len() implies m2.contains_key(#[trigger] bk.spec_parents()[i]) by {
                            assert(m1.contains_key(bk.spec_parents()[i]));
                        }
                    } else {
                        assert(ps[0] != b_id);
                        assert forall|i: int| 0 <= i < ps.len() implies m2.contains_key(#[trigger] ps[i]) by {
                            assert(m1.contains_key(ps[i]));
                        }
                    }
                }
            }
            store.insert((b, md));
            proof {
                assert(extends(s1@, store@));
                self.lemma_inv_extends(&s1, &*store);
            }
        } else {
            let e = store.get(b_id).unwrap();
            match self.validate_block_local(&e.0, is_private) {
                Ok(()) => {},
                Err(err) => {
                    return Err(err);
                },
            }
        }
        let e = store.get(b_id).unwrap();
        proof {
            let m = store@;
            assert(block_wf(m, b_id));
            assert forall|i: int| 0 <= i < m[b_id].0.spec_parents().len() implies rooted(m, #[trigger] m[b_id].0.spec_parents()[i], self.chain_id) by {
                assert(self.seen_view(is_private).contains(m[b_id].0.spec_parents()[i]));
            }
            lemma_rooted_child(m, b_id, self.chain_id);
        }
        let ghost c1 = *self;
        match self.apply_block(&e.0, is_private) {
            Ok(()) => {},
            Err(err) => {
                return Err(ChainErr::ApplyErr(err));
            },
        }
        proof {
            assert forall|p: bool, k: HashID| #[trigger] self.seen_view(p).contains(k) implies self.in_chain(store, k) by {
                assert(c1.seen_view(p).contains(k));
            }
            assert forall|p: bool, k: HashID| #[trigger] self.best_view(p).contains(k) implies self.in_chain(store, k) by {
                assert(c1.best_view(p).contains(k));
            }
            assert forall|p: bool, k: HashID| #[trigger] self.heads_view(p).contains_key(k) implies self.in_chain(store, k) by {
                assert(c1.heads_view(p).contains_key(k));
            }
            assert(self.best_view(false) == c1.best_view(false));
            assert(self.best_view(true) == c1.best_view(true));
        }
        let ghost c2 = *self;
        self.update_best_block(store, &e.0, &e.1, is_private);
        let ghost c3 = *self;
        self.update_chain_heads(&e.0, &e.1, is_private);
        self.update_seen_blocks(b_id, is_private);
        proof {
            assert(self.best_view(false) == c3.best_view(false));
            assert(self.best_view(true) == c3.best_view(true));
            assert forall|p: bool, k: HashID| #[trigger] self.seen_view(p).contains(k) implies self.in_chain(store, k) by {
                if k != b_id {
                    assert(c3.seen_view(p).contains(k));
                }
            }
            assert forall|p: bool, k: HashID| #[trigger] self.best_view(p).contains(k) implies self.in_chain(store, k) by {
                assert(c3.best_view(p).contains(k));
            }
            assert forall|p: bool, k: HashID| #[trigger] self.heads_view(p).contains_key(k) implies self.in_chain(store, k) by {
                if k != b_id {
                    assert(c3.heads_view(p).contains_key(k));
                }
            }
            assert(c2.best_view(is_private) == old(self).best_view(is_private));
            assert(c2.best_measure(store, is_private) == old(self).best_measure(store, is_private));
        }
        Ok(())
    }
}

} // verus!
