use vstd::prelude::*;
use crate::block::{BlockStore, BlockT};
use crate::block_metadata::BlockMD;
use crate::chain::lca::extends;
use crate::chain::Chain;
use crate::cryptosystem::CSystemT;
use crate::msg::{Msg, MsgToNode};
use crate::chain::fork_rules::ForkRules;
use crate::node::{mined_msg, msgs_ok, stepped, taken_in, Node, StepErr};
use crate::strategies::relay::RelayStrategyT;
use crate::transactions::{Transaction, TxCache, TxId};
use crate::types::{Difficulty, HashID, Height, NetworkArgs, Timestamp};

verus! {

/// The attack a simulation runs: the hash rates (attempts per tick) of the honest miners and
/// the attacker, when the attack starts, when the simulation ends, and how it ends.
#[derive(Debug, Clone, Copy)]
pub struct AttackArgs {
    pub honest_hr: Difficulty,
    pub attacker_hr: Difficulty,
    pub attack_starts_at: Timestamp,
    pub end_simulation_at_t: Timestamp,
    pub attacker_instant_propagation: bool,
    pub atk_end_delay_ticks: Timestamp,
    pub use_dynamic_cutoff: bool,
}

impl AttackArgs {
    /// An attack starting at `attack_starts_at` in a simulation that ends three times as late.
    pub fn new(honest_hr: Difficulty, attacker_hr: Difficulty, attack_starts_at: Timestamp) -> (r: Self)
        requires
            attack_starts_at * 3 <= u32::MAX,
        ensures
            r.honest_hr == honest_hr,
            r.attacker_hr == attacker_hr,
            r.attack_starts_at == attack_starts_at,
            r.end_simulation_at_t == attack_starts_at * 3,
            !r.attacker_instant_propagation,
            r.atk_end_delay_ticks == 0,
            !r.use_dynamic_cutoff,
    {
        AttackArgs {
            honest_hr,
            attacker_hr,
            attack_starts_at,
            end_simulation_at_t: attack_starts_at * 3,
            attacker_instant_propagation: false,
            atk_end_delay_ticks: 0,
            use_dynamic_cutoff: false,
        }
    }

    /// The hash rate of the whole network (saturating).
    pub fn total_hr(&self) -> (r: Difficulty)
        ensures
            r == crate::chain::validation::sat(self.honest_hr + self.attacker_hr),
    {
        self.honest_hr.saturating_add(self.attacker_hr)
    }
}

/// The honest miners and the attacker of one extra chain.
pub struct ExtraChainNodes<S: CSystemT> {
    pub honest: Node<S>,
    pub attacker: Node<S>,
}

/// Messages of the network: what nodes mined, read as public or private blocks.
pub fn msgs_from_into_to<B: BlockT>(msgs_from: &Vec<Msg<B>>) -> (r: Vec<MsgToNode<B>>)
    ensures
        r@.len() == msgs_from@.len(),
        forall|i: int|
            0 <= i < r@.len() ==> match (#[trigger] msgs_from@[i], r@[i]) {
                (Msg::MsgBlock(c, b), MsgToNode::MsgBlock(c2, b2, p)) => c2 == c && !p && crate::block::same_block(b2, b),
                (Msg::MsgPrivBlock(c, b), MsgToNode::MsgBlock(c2, b2, p)) => c2 == c && p && crate::block::same_block(b2, b),
            },
{
    let mut msgs_to: Vec<MsgToNode<B>> = Vec::new();
    let mut i: usize = 0;
    while i < msgs_from.len()
        invariant
            i <= msgs_from.len(),
            msgs_to@.len() == i,
            forall|t: int|
                0 <= t < i ==> match (#[trigger] msgs_from@[t], msgs_to@[t]) {
                    (Msg::MsgBlock(c, b), MsgToNode::MsgBlock(c2, b2, p)) => c2 == c && !p && crate::block::same_block(b2, b),
                    (Msg::MsgPrivBlock(c, b), MsgToNode::MsgBlock(c2, b2, p)) => c2 == c && p && crate::block::same_block(b2, b),
                },
        decreases msgs_from.len() - i,
    {
        match &msgs_from[i] {
            Msg::MsgBlock(c_id, b) => {
                msgs_to.push(MsgToNode::MsgBlock(*c_id, b.copy(), false));
            },
            Msg::MsgPrivBlock(c_id, b) => {
                msgs_to.push(MsgToNode::MsgBlock(*c_id, b.copy(), true));
            },
        }
        i += 1;
    }
    msgs_to
}

/// Every message carries a block with parents and a difficulty.
pub open spec fn msgs_mined<B: BlockT>(msgs: Seq<Msg<B>>) -> bool {
    forall|i: int|
        0 <= i < msgs.len() ==> match #[trigger] msgs[i] {
            Msg::MsgBlock(_, b) => b.spec_parents().len() > 0 && b.spec_difficulty() > 0,
            Msg::MsgPrivBlock(_, b) => b.spec_parents().len() > 0 && b.spec_difficulty() > 0,
        }
}

/// Messages that can be taken in stay so as the store grows.
pub proof fn lemma_msgs_ok_extends<B: BlockT>(s1: &BlockStore<B>, s2: &BlockStore<B>, msgs: Seq<MsgToNode<B>>)
    requires
        msgs_ok(s1, msgs),
        extends(s1@, s2@),
    ensures
        msgs_ok(s2, msgs),
{
    assert forall|i: int| 0 <= i < msgs.len() implies match #[trigger] msgs[i] {
        MsgToNode::MsgBlock(_, b, _) => b.spec_parents().len() > 0 && (!s2@.contains_key(b.spec_id()) ==> b.spec_difficulty() > 0),
    } by {
        match msgs[i] {
            MsgToNode::MsgBlock(_, b, _) => {
                if !s2@.contains_key(b.spec_id()) {
                    assert(!s1@.contains_key(b.spec_id()));
                }
            },
        }
    }
}

/// `t` is the message that hands on the block of the mined message `m`: of the same chain,
/// private when `m` is, and a block with the same id.
pub open spec fn to_node_of<B: BlockT>(m: Msg<B>, t: MsgToNode<B>) -> bool {
    match (m, t) {
        (Msg::MsgBlock(c, b), MsgToNode::MsgBlock(c2, b2, p)) => c2 == c && !p && b2.spec_id() == b.spec_id(),
        (Msg::MsgPrivBlock(c, b), MsgToNode::MsgBlock(c2, b2, p)) => c2 == c && p && b2.spec_id() == b.spec_id(),
    }
}

/// The chain `c` has taken in the block of the mined message `m`, if it is of `c`, on each
/// side it goes to (see [`crate::node::goes_to`]).
pub open spec fn delivered<B: BlockT, F: ForkRules<B>>(c: &Chain<B, F>, m: Msg<B>, is_attacker: bool, attack_started: bool) -> bool {
    match m {
        Msg::MsgBlock(mc, b) => taken_in(c, MsgToNode::MsgBlock(mc, b, false), is_attacker, attack_started),
        Msg::MsgPrivBlock(mc, b) => taken_in(c, MsgToNode::MsgBlock(mc, b, true), is_attacker, attack_started),
    }
}

/// A chain that has taken in each message handing on a mined message has those delivered.
proof fn lemma_delivered<B: BlockT, F: ForkRules<B>>(
    c: &Chain<B, F>,
    msgs: Seq<Msg<B>>,
    mt: Seq<MsgToNode<B>>,
    is_attacker: bool,
    attack_started: bool,
)
    requires
        msgs.len() <= mt.len(),
        forall|i: int| 0 <= i < msgs.len() ==> to_node_of(#[trigger] msgs[i], mt[i]),
        forall|j: int| 0 <= j < mt.len() ==> taken_in(c, #[trigger] mt[j], is_attacker, attack_started),
    ensures
        forall|i: int| 0 <= i < msgs.len() ==> delivered(c, #[trigger] msgs[i], is_attacker, attack_started),
{
    assert forall|i: int| 0 <= i < msgs.len() implies delivered(c, #[trigger] msgs[i], is_attacker, attack_started) by {
        assert(to_node_of(msgs[i], mt[i]));
        assert(taken_in(c, mt[i], is_attacker, attack_started));
    }
}

/// How an attack ended: the last tick simulated, and what the strategy achieved, if
/// anything.
pub struct AttackOutcome<T> {
    pub last_ts: Timestamp,
    pub results: Option<T>,
}

/// The simulation: the honest miners and the attacker of the main chain, those of the extra
/// chains, the attack and its strategy, and the blocks and transactions all of them share.
pub struct MM<S: CSystemT, R: RelayStrategyT<S>> {
    pub honest_node: Node<S>,
    pub attacker_node: Node<S>,
    pub args: AttackArgs,
    pub strategy: Option<R>,
    pub atk_params: R::Params,
    pub atk_start_h: Option<Height>,
    pub extra_chain_nodes: Vec<ExtraChainNodes<S>>,
    pub net_args: NetworkArgs,
    pub stop_simulation_at: Option<Timestamp>,
    pub avg_work_per_block_period: Difficulty,
    pub store: BlockStore<S::B>,
    pub tx_cache: TxCache,
}

/// Each node of `nodes` keeps its invariant against `store`, with the network arguments `net`.
pub open spec fn extra_nodes_ok<S: CSystemT>(nodes: Seq<ExtraChainNodes<S>>, store: &BlockStore<S::B>, net: NetworkArgs) -> bool {
    forall|i: int|
        0 <= i < nodes.len() ==> (#[trigger] nodes[i]).honest.inv(store) && nodes[i].attacker.inv(store)
            && nodes[i].honest.chain.net_args == net && nodes[i].attacker.chain.net_args == net
}

/// The nodes keep their invariants as the store grows.
proof fn lemma_extra_nodes_extend<S: CSystemT>(nodes: Seq<ExtraChainNodes<S>>, s1: &BlockStore<S::B>, s2: &BlockStore<S::B>, net: NetworkArgs)
    requires
        extra_nodes_ok(nodes, s1, net),
        extends(s1@, s2@),
        s2.wf(),
        s2.daa2_ok(net.daa2_n_blocks),
    ensures
        extra_nodes_ok(nodes, s2, net),
{
    assert forall|i: int| 0 <= i < nodes.len() implies (#[trigger] nodes[i]).honest.inv(s2) && nodes[i].attacker.inv(s2)
        && nodes[i].honest.chain.net_args == net && nodes[i].attacker.chain.net_args == net by {
        nodes[i].honest.lemma_inv_extends(s1, s2);
        nodes[i].attacker.lemma_inv_extends(s1, s2);
    }
}

/// Every stored block is a genesis block: its own only parent.
pub open spec fn only_geneses<B: BlockT>(store: &BlockStore<B>) -> bool {
    forall|k: HashID| #[trigger] store@.contains_key(k) ==> store@[k].0.spec_parents() == seq![k]
}

/// A new chain on a new genesis block (timestamp 0), stored with its look-back list.
fn new_chain<S: CSystemT>(net_args: NetworkArgs, store: &mut BlockStore<S::B>) -> (r: Chain<S::B, S::FR>)
    requires
        old(store).wf(),
        old(store).daa2_ok(net_args.daa2_n_blocks),
        only_geneses(old(store)),
    ensures
        r.inv(final(store)),
        r.is_fresh(final(store)),
        r.net_args == net_args,
        final(store).wf(),
        final(store).daa2_ok(net_args.daa2_n_blocks),
        only_geneses(final(store)),
        extends(old(store)@, final(store)@),
{
    let g = S::B::genesis(0);
    let g_id = g.get_hash();
    let g_md = BlockMD::mk_genesis_md(&g, net_args.daa2_n_blocks, store);
    proof {
        let n = net_args.daa2_n_blocks;
        let dv = store.daa2_view();
        assert forall|k: HashID| #[trigger] dv.contains_key(k) implies {
            &&& dv[k].len() == n
            &&& dv[k][0] == k
            &&& forall|i: int| 0 < i < dv[k].len() ==> store@.contains_key(#[trigger] dv[k][i]) || dv[k][i] == k
        } by {
            if k == g_id {
                assert(dv[k] == Seq::new(n as nat, |i: int| g_id));
            }
        }
    }
    let ghost s1 = *store;
    let c = Chain::new(g, g_md, net_args, store);
    proof {
        if !s1@.contains_key(g_id) {
            assert(extends(s1@, store@));
        }
        c.lemma_fresh_extends(&*store, &*store);
    }
    c
}

/// Chains and nodes for the extra chains: one chain for each of `hrs` (none with one chain
/// only), with an honest node (id `1000 i`) and an attacker (id `1000 i + 1`) of those hash
/// rates.
fn mk_extra_chain_nodes<S: CSystemT>(
    args: &AttackArgs,
    net_args: &NetworkArgs,
    hrs: &Vec<(Difficulty, Difficulty)>,
    store: &mut BlockStore<S::B>,
) -> (r: Vec<ExtraChainNodes<S>>)
    requires
        old(store).wf(),
        old(store).daa2_ok(net_args.daa2_n_blocks),
        only_geneses(old(store)),
        net_args.por_chains > 1 ==> hrs@.len() == net_args.por_chains - 1,
    ensures
        r@.len() == (if net_args.por_chains <= 1 { 0 } else { net_args.por_chains - 1 }),
        extra_nodes_ok(r@, final(store), *net_args),
        forall|i: int|
            0 <= i < r@.len() ==> {
                &&& (#[trigger] r@[i]).honest.id == i * 1000
                &&& r@[i].attacker.id == i * 1000 + 1
                &&& r@[i].honest.mining_attempts_per_tick == hrs@[i].0
                &&& r@[i].attacker.mining_attempts_per_tick == hrs@[i].1
                &&& !r@[i].honest.is_attacker
                &&& r@[i].attacker.is_attacker
                &&& !r@[i].honest.add_mined_block_instant
                &&& r@[i].attacker.add_mined_block_instant == args.attacker_instant_propagation
                &&& r@[i].honest.chain.chain_id == r@[i].attacker.chain.chain_id
                &&& r@[i].honest.chain.is_fresh(final(store))
                &&& r@[i].attacker.chain.is_fresh(final(store))
                &&& r@[i].honest.curr_draft_block is None
                &&& r@[i].attacker.curr_draft_block is None
            },
        final(store).wf(),
        final(store).daa2_ok(net_args.daa2_n_blocks),
        only_geneses(final(store)),
        extends(old(store)@, final(store)@),
{
    let mut out: Vec<ExtraChainNodes<S>> = Vec::new();
    if net_args.por_chains <= 1 {
        return out;
    }
    let ghost s0 = *store;
    let mut i: usize = 0;
    while i < hrs.len()
        invariant
            i <= hrs.len(),
            hrs@.len() < 1_000_000,
            out@.len() == i,
            store.wf(),
            store.daa2_ok(net_args.daa2_n_blocks),
            only_geneses(store),
            extends(s0@, store@),
            s0@ == old(store)@,
            extra_nodes_ok(out@, store, *net_args),
            forall|t: int|
                0 <= t < out@.len() ==> {
                    &&& (#[trigger] out@[t]).honest.id == t * 1000
                    &&& out@[t].attacker.id == t * 1000 + 1
                    &&& out@[t].honest.mining_attempts_per_tick == hrs@[t].0
                    &&& out@[t].attacker.mining_attempts_per_tick == hrs@[t].1
                    &&& !out@[t].honest.is_attacker
                    &&& out@[t].attacker.is_attacker
                    &&& !out@[t].honest.add_mined_block_instant
                    &&& out@[t].attacker.add_mined_block_instant == args.attacker_instant_propagation
                    &&& out@[t].honest.chain.chain_id == out@[t].attacker.chain.chain_id
                    &&& out@[t].honest.chain.is_fresh(store)
                    &&& out@[t].attacker.chain.is_fresh(store)
                    &&& out@[t].honest.curr_draft_block is None
                    &&& out@[t].attacker.curr_draft_block is None
                },
        decreases hrs.len() - i,
    {
        let (honest_hr, attacker_hr) = hrs[i];
        let ghost s1 = *store;
        let chain = new_chain::<S>(*net_args, store);
        proof {
            lemma_extra_nodes_extend(out@, &s1, &*store, *net_args);
        }
        proof {
            assert forall|t: int| 0 <= t < out@.len() implies (#[trigger] out@[t]).honest.chain.is_fresh(store)
                && out@[t].attacker.chain.is_fresh(store) by {
                out@[t].honest.chain.lemma_fresh_extends(&s1, &*store);
                out@[t].attacker.chain.lemma_fresh_extends(&s1, &*store);
            }
        }
        let chain2 = chain.copy();
        proof {
            chain.lemma_copy_inv(&chain2, &*store);
        }
        let honest = Node::new(i * 1000, chain, false, honest_hr, false);
        let attacker = Node::new(i * 1000 + 1, chain2, true, attacker_hr, args.attacker_instant_propagation);
        out.push(ExtraChainNodes { honest, attacker });
        i += 1;
    }
    out
}

impl<S: CSystemT, R: RelayStrategyT<S>> MM<S, R> {
    /// The simulation's invariant: the store is well formed, every node keeps its invariant
    /// against it with the simulation's network arguments, the strategy (once there is one)
    /// can go on, and the look-back lists are long enough to measure the work done.
    pub open spec fn inv(&self) -> bool {
        &&& self.store.wf()
        &&& self.store.daa2_ok(self.net_args.daa2_n_blocks)
        &&& self.honest_node.inv(&self.store)
        &&& self.attacker_node.inv(&self.store)
        &&& self.honest_node.chain.net_args == self.net_args
        &&& self.attacker_node.chain.net_args == self.net_args
        &&& extra_nodes_ok(self.extra_chain_nodes@, &self.store, self.net_args)
        &&& R::params_ok(self.atk_params)
        &&& match self.strategy {
            Some(s) => s.ready(),
            None => true,
        }
    }

    /// A simulation of the attack `args` with the strategy parameters `atk_params`; `extra_hrs`
    /// gives the honest and attacking hash rates of each extra chain. The honest node (id 0)
    /// and the attacker (id 1) of the main chain share one new chain. The look-back list
    /// holds at least one block: each new block's list is its own id followed by all but the
    /// last of its parent's.
    pub fn new(args: AttackArgs, atk_params: R::Params, net_args: NetworkArgs, extra_hrs: &Vec<(Difficulty, Difficulty)>) -> (r: Self)
        requires
            R::params_ok(atk_params),
            net_args.daa2_n_blocks >= 1,
            net_args.por_chains > 1 ==> extra_hrs@.len() == net_args.por_chains - 1,
        ensures
            r.inv(),
            r.args == args,
            r.atk_params == atk_params,
            r.net_args == net_args,
            r.strategy is None,
            r.atk_start_h is None,
            r.stop_simulation_at is None,
            r.avg_work_per_block_period == crate::chain::validation::sat(
                net_args.por_chains * net_args.block_target * crate::chain::validation::sat(args.honest_hr + args.attacker_hr),
            ),
            r.extra_chain_nodes@.len() == (if net_args.por_chains <= 1 { 0 } else { net_args.por_chains - 1 }),
            r.honest_node.id == 0 && !r.honest_node.is_attacker && r.honest_node.mining_attempts_per_tick == args.honest_hr
                && !r.honest_node.add_mined_block_instant,
            r.attacker_node.id == 1 && r.attacker_node.is_attacker && r.attacker_node.mining_attempts_per_tick == args.attacker_hr
                && r.attacker_node.add_mined_block_instant == args.attacker_instant_propagation,
            r.honest_node.chain.chain_id == r.attacker_node.chain.chain_id,
            r.honest_node.chain.is_fresh(&r.store),
            r.attacker_node.chain.is_fresh(&r.store),
            r.honest_node.curr_draft_block is None && r.attacker_node.curr_draft_block is None,
            r.tx_cache@ == Map::<TxId, Transaction>::empty(),
            forall|i: int|
                0 <= i < r.extra_chain_nodes@.len() ==> {
                    &&& (#[trigger] r.extra_chain_nodes@[i]).honest.id == i * 1000
                    &&& r.extra_chain_nodes@[i].attacker.id == i * 1000 + 1
                    &&& r.extra_chain_nodes@[i].honest.mining_attempts_per_tick == extra_hrs@[i].0
                    &&& r.extra_chain_nodes@[i].attacker.mining_attempts_per_tick == extra_hrs@[i].1
                    &&& !r.extra_chain_nodes@[i].honest.is_attacker
                    &&& r.extra_chain_nodes@[i].attacker.is_attacker
                    &&& !r.extra_chain_nodes@[i].honest.add_mined_block_instant
                    &&& r.extra_chain_nodes@[i].attacker.add_mined_block_instant == args.attacker_instant_propagation
                    &&& r.extra_chain_nodes@[i].honest.chain.chain_id == r.extra_chain_nodes@[i].attacker.chain.chain_id
                    &&& r.extra_chain_nodes@[i].honest.chain.is_fresh(&r.store)
                    &&& r.extra_chain_nodes@[i].attacker.chain.is_fresh(&r.store)
                    &&& r.extra_chain_nodes@[i].honest.curr_draft_block is None
                    &&& r.extra_chain_nodes@[i].attacker.curr_draft_block is None
                },
    {
        let mut store: BlockStore<S::B> = BlockStore::new();
        proof {
            assert(store.daa2_view() =~= Map::<HashID, Seq<HashID>>::empty());
        }
        let extra_chain_nodes = mk_extra_chain_nodes::<S>(&args, &net_args, extra_hrs, &mut store);
        let ghost s1 = store;
        let chain = new_chain::<S>(net_args, &mut store);
        proof {
            lemma_extra_nodes_extend(extra_chain_nodes@, &s1, &store, net_args);
            assert forall|t: int| 0 <= t < extra_chain_nodes@.len() implies (#[trigger] extra_chain_nodes@[t]).honest.chain.is_fresh(
                &store,
            ) && extra_chain_nodes@[t].attacker.chain.is_fresh(&store) by {
                extra_chain_nodes@[t].honest.chain.lemma_fresh_extends(&s1, &store);
                extra_chain_nodes@[t].attacker.chain.lemma_fresh_extends(&s1, &store);
            }
        }
        let chain2 = chain.copy();
        proof {
            chain.lemma_copy_inv(&chain2, &store);
        }
        let total = args.total_hr();
        let pc = net_args.por_chains as u64;
        let bt = net_args.block_target as u64;
        assert(pc * bt <= 0xffff * 0xffff) by (nonlinear_arith)
            requires
                pc <= 0xffff,
                bt <= 0xffff,
        ;
        let pb = pc * bt;
        let pbw = pb as u128;
        let tw = total as u128;
        assert(pbw * tw <= 0xffff_ffff * 0xffff_ffff_ffff_ffffu128) by (nonlinear_arith)
            requires
                pbw <= 0xffff_ffff,
                tw <= 0xffff_ffff_ffff_ffffu128,
        ;
        let wide: u128 = pbw * tw;
        let avg_work_per_block_period: Difficulty = if wide > u64::MAX as u128 {
            u64::MAX
        } else {
            wide as u64
        };
        MM {
            honest_node: Node::new(0, chain, false, args.honest_hr, false),
            attacker_node: Node::new(1, chain2, true, args.attacker_hr, args.attacker_instant_propagation),
            strategy: None,
            args,
            atk_params,
            atk_start_h: None,
            extra_chain_nodes,
            net_args,
            stop_simulation_at: None,
            avg_work_per_block_period,
            store,
            tx_cache: TxCache::new(),
        }
    }

    /// The honest view of the main chain.
    pub fn chain(&self) -> (r: &Chain<S::B, S::FR>)
        ensures
            *r == self.honest_node.chain,
    {
        &self.honest_node.chain
    }

    /// The honest views of the extra chains.
    pub fn chains(&self) -> (r: Vec<&Chain<S::B, S::FR>>)
        ensures
            r@.len() == self.extra_chain_nodes@.len(),
            forall|i: int| 0 <= i < r@.len() ==> *r@[i] == (#[trigger] self.extra_chain_nodes@[i]).honest.chain,
    {
        let mut r: Vec<&Chain<S::B, S::FR>> = Vec::new();
        let mut i: usize = 0;
        while i < self.extra_chain_nodes.len()
            invariant
                i <= self.extra_chain_nodes@.len(),
                r@.len() == i,
                forall|t: int| 0 <= t < i ==> *r@[t] == (#[trigger] self.extra_chain_nodes@[t]).honest.chain,
            decreases self.extra_chain_nodes@.len() - i,
        {
            r.push(&self.extra_chain_nodes[i].honest.chain);
            i += 1;
        }
        r
    }

    pub fn attack_started(&self, ts: Timestamp) -> (r: bool)
        ensures
            r == (ts >= self.args.attack_starts_at),
    {
        ts >= self.args.attack_starts_at
    }
}

impl<S: CSystemT, R: RelayStrategyT<S>> MM<S, R> {
    /// What [`MM::check_and_set_atk_start_h`] at tick `ts` does: `self` became `m1`.
    pub open spec fn checked_at(self, m1: Self, ts: Timestamp) -> bool {
        &&& m1.tx_cache == self.tx_cache
        &&& m1.atk_params == self.atk_params
        &&& m1.honest_node == self.honest_node
        &&& m1.attacker_node == self.attacker_node
        &&& m1.store == self.store
        &&& m1.strategy == self.strategy
        &&& m1.args == self.args
        &&& m1.net_args == self.net_args
        &&& m1.extra_chain_nodes == self.extra_chain_nodes
        &&& m1.stop_simulation_at == self.stop_simulation_at
        &&& if ts >= self.args.attack_starts_at && self.atk_start_h is None {
            &&& exists|x: HashID|
                #[trigger] self.honest_node.chain.best_view(false).contains(x) && m1.atk_start_h == Some(
                    self.store@[x].1.height,
                )
            &&& exists|y: HashID|
                #[trigger] self.honest_node.chain.best_view(false).contains(y) && {
                    let l = self.store.daa2_view()[y];
                    let ago = l.len() / 4;
                    m1.avg_work_per_block_period == crate::chain::validation::sub_or_zero(
                        self.store@[y].1.chain_weight as int,
                        self.store@[l[ago as int]].1.chain_weight as int,
                    ) / ago as int
                }
        } else {
            &&& m1.atk_start_h == self.atk_start_h
            &&& m1.avg_work_per_block_period == self.avg_work_per_block_period
        }
    }

    /// Once the attack has started, records (the first time only) the height the attack
    /// starts at (that of a public best block of the honest node) and the work per block
    /// period: the chain weight a public best block gained since the block a quarter of the
    /// way back its look-back list, over that quarter (0 where it lost weight).
    pub fn check_and_set_atk_start_h(&mut self, ts: Timestamp)
        requires
            old(self).inv(),
            ts >= old(self).args.attack_starts_at && old(self).atk_start_h is None ==> old(self).net_args.daa2_n_blocks >= 4,
        ensures
            final(self).inv(),
            old(self).checked_at(*final(self), ts),
            final(self).honest_node == old(self).honest_node,
            final(self).attacker_node == old(self).attacker_node,
            final(self).store == old(self).store,
            final(self).strategy == old(self).strategy,
            final(self).args == old(self).args,
            final(self).net_args == old(self).net_args,
            final(self).extra_chain_nodes == old(self).extra_chain_nodes,
            final(self).stop_simulation_at == old(self).stop_simulation_at,
            if ts >= old(self).args.attack_starts_at && old(self).atk_start_h is None {
                &&& exists|x: HashID|
                    #[trigger] old(self).honest_node.chain.best_view(false).contains(x) && final(self).atk_start_h == Some(
                        old(self).store@[x].1.height,
                    )
                &&& exists|y: HashID|
                    #[trigger] old(self).honest_node.chain.best_view(false).contains(y) && {
                        let l = old(self).store.daa2_view()[y];
                        let ago = l.len() / 4;
                        final(self).avg_work_per_block_period == crate::chain::validation::sub_or_zero(
                            old(self).store@[y].1.chain_weight as int,
                            old(self).store@[l[ago as int]].1.chain_weight as int,
                        ) / ago as int
                    }
            } else {
                &&& final(self).atk_start_h == old(self).atk_start_h
                &&& final(self).avg_work_per_block_period == old(self).avg_work_per_block_period
            },
    {
        if self.attack_started(ts) && self.atk_start_h.is_none() {
            let hs = self.honest_node.chain.get_heights_pub_priv(&self.store);
            let h = hs.public as Height;
            self.atk_start_h = Some(h);
            let bb = self.honest_node.chain.get_any_best_block(&self.store, false);
            let bb_id = bb.0.get_hash();
            let daa2_bs = BlockMD::get_daa2_blocks(&self.store, bb_id).unwrap();
            let ago = daa2_bs.len() / 4;
            assert(self.store@.contains_key(self.store.daa2_view()[bb_id][ago as int]) || self.store.daa2_view()[bb_id][ago as int] == bb_id);
            let past = self.store.get(daa2_bs[ago]).unwrap();
            let gained = if bb.1.chain_weight >= past.1.chain_weight {
                bb.1.chain_weight - past.1.chain_weight
            } else {
                0
            };
            self.avg_work_per_block_period = gained / (ago as u64);
        }
    }

    /// One tick: the messages of the last tick go to every node, together with what the
    /// strategy (once there is one) adds on each of them; each node then steps, the honest
    /// and attacking nodes of the main chain first. Once the attack has started, the first
    /// tick records the height the attack starts at (that of a public best block of the
    /// attacker) and starts the strategy there. A refusal by a node ends the tick with its
    /// error.
    pub fn tick(&mut self, ts: u32, msgs: Vec<Msg<S::B>>) -> (r: Result<Vec<Msg<S::B>>, StepErr>)
        requires
            old(self).inv(),
            msgs_mined(msgs@),
        ensures
            r is Ok ==> final(self).inv(),
            match r {
                Ok(out) => msgs_mined(out@),
                Err(_) => true,
            },
            final(self).args == old(self).args,
            final(self).net_args == old(self).net_args,
            final(self).atk_params == old(self).atk_params,
            final(self).stop_simulation_at == old(self).stop_simulation_at,
            msgs@.len() == 0 ==> r is Ok,
            r matches Err(e) ==> e is Block,
            r matches Ok(out) ==> old(self).ticked(*final(self), ts, msgs@, out@),
            r is Ok ==> forall|i: int|
                0 <= i < msgs@.len() ==> delivered(
                    &final(self).honest_node.chain,
                    #[trigger] msgs@[i],
                    final(self).honest_node.is_attacker,
                    ts >= old(self).args.attack_starts_at,
                ) && delivered(
                    &final(self).attacker_node.chain,
                    msgs@[i],
                    final(self).attacker_node.is_attacker,
                    ts >= old(self).args.attack_starts_at,
                ),
            r is Ok ==> forall|k: int, i: int|
                0 <= k < final(self).extra_chain_nodes@.len() && 0 <= i < msgs@.len() ==> delivered(
                    &(#[trigger] final(self).extra_chain_nodes@[k]).honest.chain,
                    #[trigger] msgs@[i],
                    final(self).extra_chain_nodes@[k].honest.is_attacker,
                    ts >= old(self).args.attack_starts_at,
                ) && delivered(
                    &final(self).extra_chain_nodes@[k].attacker.chain,
                    msgs@[i],
                    final(self).extra_chain_nodes@[k].attacker.is_attacker,
                    ts >= old(self).args.attack_starts_at,
                ),
            (r is Ok && old(self).strategy is None && ts >= old(self).args.attack_starts_at) ==> {
                &&& final(self).strategy is Some
                &&& exists|x: HashID|
                    #[trigger] final(self).attacker_node.chain.best_view(false).contains(x) && final(self).atk_start_h == Some(
                        final(self).store@[x].1.height,
                    )
            },
            (r is Ok && !(old(self).strategy is None && ts >= old(self).args.attack_starts_at)) ==> {
                &&& final(self).atk_start_h == old(self).atk_start_h
                &&& (final(self).strategy is Some) == (old(self).strategy is Some)
            },
    {
        let mut msgs_to = msgs_from_into_to(&msgs);
        proof {
            assert forall|i: int| 0 <= i < msgs@.len() implies to_node_of(#[trigger] msgs@[i], msgs_to@[i]) by {
                match (msgs@[i], msgs_to@[i]) {
                    (Msg::MsgBlock(c, b), MsgToNode::MsgBlock(c2, b2, p)) => {},
                    (Msg::MsgPrivBlock(c, b), MsgToNode::MsgBlock(c2, b2, p)) => {},
                }
            }
        }
        let ghost mt0 = msgs_to@;
        proof {
            assert forall|i: int| 0 <= i < msgs_to@.len() implies match #[trigger] msgs_to@[i] {
                MsgToNode::MsgBlock(_, b, _) => b.spec_parents().len() > 0 && (!self.store@.contains_key(b.spec_id())
                    ==> b.spec_difficulty() > 0),
            } by {
                match msgs@[i] {
                    Msg::MsgBlock(_, b) => {},
                    Msg::MsgPrivBlock(_, b) => {},
                }
            }
        }
        let atk_started = self.attack_started(ts);
        match &mut self.strategy {
            Some(st) => {
                let n = msgs_to.len();
                let mut added: Vec<MsgToNode<S::B>> = Vec::new();
                let mut i: usize = 0;
                while i < n
                    invariant
                        st.ready(),
                        self.attacker_node.chain.inv(&self.store),
                        n == msgs_to@.len(),
                        i <= n,
                        msgs_ok(&self.store, msgs_to@),
                        msgs_ok(&self.store, added@),
                        i == 0 ==> added@.len() == 0,
                    decreases n - i,
                {
                    proof {
                        assert forall|t: int| 0 <= t < 1 implies match #[trigger] seq![msgs_to@[i as int]][t] {
                            MsgToNode::MsgBlock(_, b, _) => b.spec_parents().len() > 0 && (!self.store@.contains_key(b.spec_id())
                                ==> b.spec_difficulty() > 0),
                        } by {
                            assert(seq![msgs_to@[i as int]][t] == msgs_to@[i as int]);
                        }
                    }
                    let mut extra = st.on_msg(&self.store, &msgs_to[i], &self.attacker_node.chain);
                    let ghost a0 = added@;
                    let ghost e0 = extra@;
                    added.append(&mut extra);
                    proof {
                        lemma_msgs_ok_concat(&self.store, a0, e0);
                    }
                    i += 1;
                }
                let ghost m0 = msgs_to@;
                let ghost a0 = added@;
                msgs_to.append(&mut added);
                proof {
                    lemma_msgs_ok_concat(&self.store, m0, a0);
                    assert forall|i: int| 0 <= i < msgs@.len() implies to_node_of(#[trigger] msgs@[i], msgs_to@[i]) by {
                        assert(msgs_to@[i] == m0[i]);
                    }
                }
            },
            None => {},
        }
        let ghost mt = msgs_to@;
        assert(msgs@.len() <= mt.len());
        let mut output_msgs: Vec<Msg<S::B>> = Vec::new();
        // the honest node of the main chain
        let ghost s0 = self.store;
        let ghost k0 = self.tx_cache;
        let ghost hn0 = self.honest_node;
        proof {
            assert(relayed(msgs@, mt, old(self).strategy is Some)) by {
                assert forall|i: int| 0 <= i < msgs@.len() implies read_as(#[trigger] msgs@[i], mt[i]) by {
                    assert(mt[i] == mt0[i]);
                }
            }
        }
        let r_h = self.honest_node.step(&mut self.store, &mut self.tx_cache, ts, &msgs_to, atk_started);
        let mut out = match r_h {
            Ok(o) => o,
            Err(e) => {
                return Err(e);
            },
        };
        let ghost o_h = out;
        proof {
            assert(stepped(hn0, self.honest_node, s0, self.store, k0, self.tx_cache, ts, mt, atk_started, Ok(o_h)));
            self.attacker_node.lemma_inv_extends(&s0, &self.store);
            lemma_extra_nodes_extend(self.extra_chain_nodes@, &s0, &self.store, self.net_args);
            lemma_msgs_ok_extends(&s0, &self.store, msgs_to@);
            lemma_mined_msgs(out@, self.honest_node.chain.chain_id, self.honest_node.is_attacker && atk_started);
            lemma_delivered(&self.honest_node.chain, msgs@, mt, self.honest_node.is_attacker, atk_started);
        }
        output_msgs.append(&mut out);
        // the attacker of the main chain
        let ghost s1 = self.store;
        let ghost k1 = self.tx_cache;
        let ghost an0 = self.attacker_node;
        let r_a = self.attacker_node.step(&mut self.store, &mut self.tx_cache, ts, &msgs_to, atk_started);
        let mut out = match r_a {
            Ok(o) => o,
            Err(e) => {
                return Err(e);
            },
        };
        let ghost o_a = out;
        proof {
            assert(stepped(an0, self.attacker_node, s1, self.store, k1, self.tx_cache, ts, mt, atk_started, Ok(o_a)));
            self.honest_node.lemma_inv_extends(&s1, &self.store);
            lemma_extra_nodes_extend(self.extra_chain_nodes@, &s1, &self.store, self.net_args);
            lemma_msgs_ok_extends(&s1, &self.store, msgs_to@);
            lemma_mined_msgs(out@, self.attacker_node.chain.chain_id, self.attacker_node.is_attacker && atk_started);
            lemma_delivered(&self.attacker_node.chain, msgs@, mt, self.attacker_node.is_attacker, atk_started);
        }
        let ghost hn = self.honest_node;
        let ghost st1 = self.strategy;
        let ghost an = self.attacker_node;
        let ghost o0 = output_msgs@;
        let ghost o1 = out@;
        output_msgs.append(&mut out);
        proof {
            lemma_mined_concat(o0, o1);
        }
        let ghost mut ss: Seq<BlockStore<S::B>> = seq![s0, s1, self.store];
        let ghost mut ks: Seq<TxCache> = seq![k0, k1, self.tx_cache];
        let ghost mut outs: Seq<Vec<Msg<S::B>>> = seq![o_h, o_a];
        proof {
            lemma_concat_push(Seq::<Vec<Msg<S::B>>>::empty(), o_h);
            assert(Seq::<Vec<Msg<S::B>>>::empty().push(o_h) =~= seq![o_h]);
            lemma_concat_push(seq![o_h], o_a);
            assert(seq![o_h].push(o_a) =~= outs);
            assert(concat_outs(Seq::<Vec<Msg<S::B>>>::empty()) =~= Seq::<Msg<S::B>>::empty());
            assert(output_msgs@ =~= concat_outs(outs));
        }
        let ghost ex_all = self.extra_chain_nodes@;
        // the extra chains
        let mut extras: Vec<ExtraChainNodes<S>> = Vec::new();
        core::mem::swap(&mut extras, &mut self.extra_chain_nodes);
        let n = extras.len();
        let mut done: Vec<ExtraChainNodes<S>> = Vec::new();
        let mut j: usize = 0;
        assert(extras@ =~= ex_all.subrange(0, n as int));
        while j < n
            invariant
                j <= n,
                n == ex_all.len(),
                ex_all == old(self).extra_chain_nodes@,
                extras@ == ex_all.subrange(j as int, n as int),
                done@.len() == j,
                ss.len() == 2 * j + 3,
                ks.len() == 2 * j + 3,
                outs.len() == 2 * j + 2,
                ss[0] == s0,
                ks[0] == k0,
                s0 == old(self).store,
                k0 == old(self).tx_cache,
                ss[2 * j + 2] == self.store,
                ks[2 * j + 2] == self.tx_cache,
                stepped(hn0, hn, ss[0], ss[1], ks[0], ks[1], ts, mt, atk_started, Ok(outs[0])),
                stepped(an0, an, ss[1], ss[2], ks[1], ks[2], ts, mt, atk_started, Ok(outs[1])),
                hn0 == old(self).honest_node,
                an0 == old(self).attacker_node,
                output_msgs@ == concat_outs(outs),
                forall|t: int|
                    0 <= t < j ==> stepped(
                        ex_all[t].honest,
                        (#[trigger] done@[t]).honest,
                        ss[2 * t + 2],
                        ss[2 * t + 3],
                        ks[2 * t + 2],
                        ks[2 * t + 3],
                        ts,
                        mt,
                        atk_started,
                        Ok(outs[2 * t + 2]),
                    ) && stepped(
                        ex_all[t].attacker,
                        done@[t].attacker,
                        ss[2 * t + 3],
                        ss[2 * t + 4],
                        ks[2 * t + 3],
                        ks[2 * t + 4],
                        ts,
                        mt,
                        atk_started,
                        Ok(outs[2 * t + 3]),
                    ),
                extras@.len() == n - j,
                self.store.wf(),
                self.store.daa2_ok(self.net_args.daa2_n_blocks),
                self.honest_node.inv(&self.store),
                self.attacker_node.inv(&self.store),
                self.honest_node.chain.net_args == self.net_args,
                self.attacker_node.chain.net_args == self.net_args,
                extra_nodes_ok(extras@, &self.store, self.net_args),
                extra_nodes_ok(done@, &self.store, self.net_args),
                msgs_ok(&self.store, msgs_to@),
                msgs_mined(output_msgs@),
                self.net_args == old(self).net_args,
                self.args == old(self).args,
                self.atk_params == old(self).atk_params,
                self.stop_simulation_at == old(self).stop_simulation_at,
                R::params_ok(self.atk_params),
                match self.strategy {
                    Some(st) => st.ready(),
                    None => true,
                },
                self.honest_node == hn,
                self.attacker_node == an,
                self.strategy == st1,
                self.atk_start_h == old(self).atk_start_h,
                msgs_to@ == mt,
                msgs@.len() <= mt.len(),
                msgs@.len() == 0 ==> mt.len() == 0,
                forall|i: int| 0 <= i < msgs@.len() ==> to_node_of(#[trigger] msgs@[i], mt[i]),
                forall|i: int|
                    0 <= i < msgs@.len() ==> delivered(&hn.chain, #[trigger] msgs@[i], hn.is_attacker, atk_started)
                        && delivered(&an.chain, msgs@[i], an.is_attacker, atk_started),
                forall|t: int, i: int|
                    0 <= t < done@.len() && 0 <= i < msgs@.len() ==> delivered(
                        &(#[trigger] done@[t]).honest.chain,
                        #[trigger] msgs@[i],
                        done@[t].honest.is_attacker,
                        atk_started,
                    ) && delivered(&done@[t].attacker.chain, msgs@[i], done@[t].attacker.is_attacker, atk_started),
            decreases n - j,
        {
            let ghost ex0 = extras@;
            let mut e = extras.remove(0);
            proof {
                assert(e == ex0[0]);
                assert(ex0[0] == ex_all[j as int]);
                assert(extras@ =~= ex0.subrange(1, ex0.len() as int));
                assert forall|t: int| 0 <= t < extras@.len() implies (#[trigger] extras@[t]).honest.inv(&self.store)
                    && extras@[t].attacker.inv(&self.store) && extras@[t].honest.chain.net_args == self.net_args
                    && extras@[t].attacker.chain.net_args == self.net_args by {
                    assert(extras@[t] == ex0[t + 1]);
                }
            }
            let ghost s2 = self.store;
            let ghost k2 = self.tx_cache;
            let ghost eh0 = e.honest;
            let r_eh = e.honest.step(&mut self.store, &mut self.tx_cache, ts, &msgs_to, atk_started);
            let mut out = match r_eh {
                Ok(o) => o,
                Err(err) => {
                    return Err(err);
                },
            };
            let ghost o_eh = out;
            proof {
                assert(stepped(eh0, e.honest, s2, self.store, k2, self.tx_cache, ts, mt, atk_started, Ok(o_eh)));
                e.attacker.lemma_inv_extends(&s2, &self.store);
                self.honest_node.lemma_inv_extends(&s2, &self.store);
                self.attacker_node.lemma_inv_extends(&s2, &self.store);
                lemma_extra_nodes_extend(extras@, &s2, &self.store, self.net_args);
                lemma_extra_nodes_extend(done@, &s2, &self.store, self.net_args);
                lemma_msgs_ok_extends(&s2, &self.store, msgs_to@);
                lemma_mined_msgs(out@, e.honest.chain.chain_id, e.honest.is_attacker && atk_started);
                lemma_delivered(&e.honest.chain, msgs@, mt, e.honest.is_attacker, atk_started);
            }
            let ghost o0 = output_msgs@;
            let ghost o1 = out@;
            output_msgs.append(&mut out);
            proof {
                lemma_mined_concat(o0, o1);
            }
            let ghost s3 = self.store;
            let ghost k3 = self.tx_cache;
            let ghost ea0 = e.attacker;
            let r_ea = e.attacker.step(&mut self.store, &mut self.tx_cache, ts, &msgs_to, atk_started);
            let mut out = match r_ea {
                Ok(o) => o,
                Err(err) => {
                    return Err(err);
                },
            };
            let ghost o_ea = out;
            proof {
                assert(stepped(ea0, e.attacker, s3, self.store, k3, self.tx_cache, ts, mt, atk_started, Ok(o_ea)));
                e.honest.lemma_inv_extends(&s3, &self.store);
                self.honest_node.lemma_inv_extends(&s3, &self.store);
                self.attacker_node.lemma_inv_extends(&s3, &self.store);
                lemma_extra_nodes_extend(extras@, &s3, &self.store, self.net_args);
                lemma_extra_nodes_extend(done@, &s3, &self.store, self.net_args);
                lemma_msgs_ok_extends(&s3, &self.store, msgs_to@);
                lemma_mined_msgs(out@, e.attacker.chain.chain_id, e.attacker.is_attacker && atk_started);
                lemma_delivered(&e.attacker.chain, msgs@, mt, e.attacker.is_attacker, atk_started);
            }
            let ghost o2 = output_msgs@;
            let ghost o3 = out@;
            output_msgs.append(&mut out);
            proof {
                lemma_mined_concat(o2, o3);
            }
            let ghost d0 = done@;
            done.push(e);
            proof {
                assert forall|t: int| 0 <= t < done@.len() implies (#[trigger] done@[t]).honest.inv(&self.store)
                    && done@[t].attacker.inv(&self.store) && done@[t].honest.chain.net_args == self.net_args
                    && done@[t].attacker.chain.net_args == self.net_args by {
                    if t < d0.len() {
                        assert(done@[t] == d0[t]);
                    }
                }
                assert forall|t: int, i: int|
                    0 <= t < done@.len() && 0 <= i < msgs@.len() implies delivered(
                        &(#[trigger] done@[t]).honest.chain,
                        #[trigger] msgs@[i],
                        done@[t].honest.is_attacker,
                        atk_started,
                    ) && delivered(&done@[t].attacker.chain, msgs@[i], done@[t].attacker.is_attacker, atk_started) by {
                    if t < d0.len() {
                        assert(done@[t] == d0[t]);
                    } else {
                        assert(done@[t] == e);
                    }
                }
                assert(eh0 == ex_all[j as int].honest && ea0 == ex_all[j as int].attacker);
                let ss1 = ss.push(s3).push(self.store);
                let ks1 = ks.push(k3).push(self.tx_cache);
                let outs1 = outs.push(o_eh).push(o_ea);
                lemma_concat_push(outs, o_eh);
                lemma_concat_push(outs.push(o_eh), o_ea);
                assert(output_msgs@ =~= concat_outs(outs1));
                assert forall|t: int|
                    0 <= t < j + 1 implies stepped(
                        ex_all[t].honest,
                        (#[trigger] done@[t]).honest,
                        ss1[2 * t + 2],
                        ss1[2 * t + 3],
                        ks1[2 * t + 2],
                        ks1[2 * t + 3],
                        ts,
                        mt,
                        atk_started,
                        Ok(outs1[2 * t + 2]),
                    ) && stepped(
                        ex_all[t].attacker,
                        done@[t].attacker,
                        ss1[2 * t + 3],
                        ss1[2 * t + 4],
                        ks1[2 * t + 3],
                        ks1[2 * t + 4],
                        ts,
                        mt,
                        atk_started,
                        Ok(outs1[2 * t + 3]),
                    ) by {
                    if t < j {
                        assert(done@[t] == d0[t]);
                        assert(ss1[2 * t + 2] == ss[2 * t + 2] && ss1[2 * t + 3] == ss[2 * t + 3] && ss1[2 * t + 4] == ss[2 * t + 4]);
                        assert(ks1[2 * t + 2] == ks[2 * t + 2] && ks1[2 * t + 3] == ks[2 * t + 3] && ks1[2 * t + 4] == ks[2 * t + 4]);
                        assert(outs1[2 * t + 2] == outs[2 * t + 2] && outs1[2 * t + 3] == outs[2 * t + 3]);
                    } else {
                        assert(done@[t] == e);
                        assert(ss1[2 * t + 2] == s2 && ss1[2 * t + 3] == s3 && ss1[2 * t + 4] == self.store);
                        assert(ks1[2 * t + 2] == k2 && ks1[2 * t + 3] == k3 && ks1[2 * t + 4] == self.tx_cache);
                        assert(outs1[2 * t + 2] == o_eh && outs1[2 * t + 3] == o_ea);
                    }
                }
                assert(ss1[0] == ss[0] && ss1[1] == ss[1] && ss1[2] == ss[2]);
                assert(ks1[0] == ks[0] && ks1[1] == ks[1] && ks1[2] == ks[2]);
                assert(outs1[0] == outs[0] && outs1[1] == outs[1]);
                ss = ss1;
                ks = ks1;
                outs = outs1;
            }
            j += 1;
        }
        proof {
            assert(done@.len() == ex_all.len());
        }
        self.extra_chain_nodes = done;
        if atk_started && self.strategy.is_none() {
            let hs = self.attacker_node.chain.get_heights_pub_priv(&self.store);
            let h = hs.public as Height;
            self.atk_start_h = Some(h);
            self.strategy = Some(R::init(&self.attacker_node.chain, h, self.atk_params));
        }
        proof {
            let e = old(self).extra_chain_nodes@.len() as int;
            assert(atk_started == (ts >= old(self).args.attack_starts_at));
            assert(relayed(msgs@, mt, old(self).strategy is Some));
            assert(self.extra_chain_nodes@ == done@);
            assert(self.extra_chain_nodes@.len() == e);
            assert(ss.len() == 2 * e + 3 && ks.len() == 2 * e + 3 && outs.len() == 2 * e + 2);
            assert(ss[2 * e + 2] == self.store && ks[2 * e + 2] == self.tx_cache);
            assert(stepped(old(self).honest_node, self.honest_node, ss[0], ss[1], ks[0], ks[1], ts, mt, atk_started, Ok(outs[0])));
            assert(stepped(old(self).attacker_node, self.attacker_node, ss[1], ss[2], ks[1], ks[2], ts, mt, atk_started, Ok(outs[1])));
            assert forall|t: int|
                0 <= t < e implies stepped(
                    (#[trigger] old(self).extra_chain_nodes@[t]).honest,
                    self.extra_chain_nodes@[t].honest,
                    ss[2 * t + 2],
                    ss[2 * t + 3],
                    ks[2 * t + 2],
                    ks[2 * t + 3],
                    ts,
                    mt,
                    atk_started,
                    Ok(outs[2 * t + 2]),
                ) && stepped(
                    old(self).extra_chain_nodes@[t].attacker,
                    self.extra_chain_nodes@[t].attacker,
                    ss[2 * t + 3],
                    ss[2 * t + 4],
                    ks[2 * t + 3],
                    ks[2 * t + 4],
                    ts,
                    mt,
                    atk_started,
                    Ok(outs[2 * t + 3]),
                ) by {
                assert(done@[t] == self.extra_chain_nodes@[t]);
            }
            assert(output_msgs@ == concat_outs(outs));
            assert(old(self).ticked_via(*self, ts, msgs@, output_msgs@, mt, ss, ks, outs));
        }
        Ok(output_msgs)
    }
}

/// `m` is read as `t`: a public message as a public block, a private one as a private
/// block, of the same chain and block.
pub open spec fn read_as<B: BlockT>(m: Msg<B>, t: MsgToNode<B>) -> bool {
    match (m, t) {
        (Msg::MsgBlock(c, b), MsgToNode::MsgBlock(c2, b2, p)) => c2 == c && !p && crate::block::same_block(b2, b),
        (Msg::MsgPrivBlock(c, b), MsgToNode::MsgBlock(c2, b2, p)) => c2 == c && p && crate::block::same_block(b2, b),
    }
}

/// The messages the nodes get in a tick: `to` starts with the messages `msgs` of the tick
/// before, read as blocks; what follows, the strategy relayed (nothing when there is no
/// strategy yet).
pub open spec fn relayed<B: BlockT>(msgs: Seq<Msg<B>>, to: Seq<MsgToNode<B>>, has_strategy: bool) -> bool {
    &&& msgs.len() <= to.len()
    &&& forall|i: int| 0 <= i < msgs.len() ==> read_as(#[trigger] msgs[i], to[i])
    &&& !has_strategy ==> to.len() == msgs.len()
}

/// The outputs `outs`, one after the other.
pub open spec fn concat_outs<B: BlockT>(outs: Seq<Vec<Msg<B>>>) -> Seq<Msg<B>>
    decreases outs.len(),
{
    if outs.len() == 0 {
        Seq::empty()
    } else {
        concat_outs(outs.drop_last()) + outs.last()@
    }
}

/// One more output adds its messages at the end.
pub proof fn lemma_concat_push<B: BlockT>(outs: Seq<Vec<Msg<B>>>, v: Vec<Msg<B>>)
    ensures
        concat_outs(outs.push(v)) == concat_outs(outs) + v@,
{
    assert(outs.push(v).drop_last() =~= outs);
}

impl<S: CSystemT, R: RelayStrategyT<S>> MM<S, R> {
    /// The nodes of the simulation stepped in tick `ts` (see [`MM::tick`]): `self` became
    /// `m1`, the messages `msgs` of the tick before went out with what the strategy relayed,
    /// and `out` is what the nodes sent: that of the honest node, then of the attacker of the
    /// main chain, then of the honest node and the attacker of each extra chain, each
    /// stepping (see [`stepped`]) on the store and transaction store the one before left.
    pub open spec fn ticked(self, m1: Self, ts: u32, msgs: Seq<Msg<S::B>>, out: Seq<Msg<S::B>>) -> bool {
        exists|to: Seq<MsgToNode<S::B>>, ss: Seq<BlockStore<S::B>>, ks: Seq<TxCache>, outs: Seq<Vec<Msg<S::B>>>|
            #[trigger] self.ticked_via(m1, ts, msgs, out, to, ss, ks, outs)
    }

    /// [`MM::ticked`], with the messages the nodes got (`to`), the stores and transaction
    /// stores before each node stepped and after the last (`ss`, `ks`), and what each node
    /// sent (`outs`).
    pub open spec fn ticked_via(
        self,
        m1: Self,
        ts: u32,
        msgs: Seq<Msg<S::B>>,
        out: Seq<Msg<S::B>>,
        to: Seq<MsgToNode<S::B>>,
        ss: Seq<BlockStore<S::B>>,
        ks: Seq<TxCache>,
        outs: Seq<Vec<Msg<S::B>>>,
    ) -> bool {
        let atk = ts >= self.args.attack_starts_at;
        let e = self.extra_chain_nodes@.len() as int;
        &&& m1.extra_chain_nodes@.len() == e
        &&& relayed(msgs, to, self.strategy is Some)
        &&& ss.len() == 2 * e + 3
        &&& ks.len() == 2 * e + 3
        &&& outs.len() == 2 * e + 2
        &&& ss[0] == self.store
        &&& ks[0] == self.tx_cache
        &&& ss[2 * e + 2] == m1.store
        &&& ks[2 * e + 2] == m1.tx_cache
        &&& stepped(self.honest_node, m1.honest_node, ss[0], ss[1], ks[0], ks[1], ts, to, atk, Ok(outs[0]))
        &&& stepped(self.attacker_node, m1.attacker_node, ss[1], ss[2], ks[1], ks[2], ts, to, atk, Ok(outs[1]))
        &&& forall|t: int|
            0 <= t < e ==> stepped(
                (#[trigger] self.extra_chain_nodes@[t]).honest,
                m1.extra_chain_nodes@[t].honest,
                ss[2 * t + 2],
                ss[2 * t + 3],
                ks[2 * t + 2],
                ks[2 * t + 3],
                ts,
                to,
                atk,
                Ok(outs[2 * t + 2]),
            ) && stepped(
                self.extra_chain_nodes@[t].attacker,
                m1.extra_chain_nodes@[t].attacker,
                ss[2 * t + 3],
                ss[2 * t + 4],
                ks[2 * t + 3],
                ks[2 * t + 4],
                ts,
                to,
                atk,
                Ok(outs[2 * t + 3]),
            )
        &&& out == concat_outs(outs)
    }
}

/// `b` is a copy of the message `a`: the same kind, chain and block.
pub open spec fn msg_copy<B: BlockT>(a: Msg<B>, b: Msg<B>) -> bool {
    match (a, b) {
        (Msg::MsgBlock(c, x), Msg::MsgBlock(c2, y)) => c2 == c && crate::block::same_block(y, x),
        (Msg::MsgPrivBlock(c, x), Msg::MsgPrivBlock(c2, y)) => c2 == c && crate::block::same_block(y, x),
        _ => false,
    }
}

/// `b` is a copy of the messages `a`, one by one.
pub open spec fn msgs_copied<B: BlockT>(a: Seq<Msg<B>>, b: Seq<Msg<B>>) -> bool {
    &&& a.len() == b.len()
    &&& forall|i: int| 0 <= i < a.len() ==> msg_copy(#[trigger] a[i], b[i])
}

/// Copies of two lists of messages make a copy of the two together.
pub proof fn lemma_copied_concat<B: BlockT>(a1: Seq<Msg<B>>, b1: Seq<Msg<B>>, a2: Seq<Msg<B>>, b2: Seq<Msg<B>>)
    requires
        msgs_copied(a1, b1),
        msgs_copied(a2, b2),
    ensures
        msgs_copied(a1 + a2, b1 + b2),
{
    assert forall|i: int| 0 <= i < (a1 + a2).len() implies msg_copy(#[trigger] (a1 + a2)[i], (b1 + b2)[i]) by {
        if i < a1.len() {
            assert((a1 + a2)[i] == a1[i] && (b1 + b2)[i] == b1[i]);
        } else {
            assert((a1 + a2)[i] == a2[i - a1.len()] && (b1 + b2)[i] == b2[i - a1.len()]);
        }
    }
}

/// What tick `j + 1` got: nothing for the first tick, what the tick before sent otherwise.
pub open spec fn tick_input<B: BlockT>(outs: Seq<Vec<Msg<B>>>, j: int) -> Seq<Msg<B>> {
    if j == 0 {
        Seq::empty()
    } else {
        outs[j - 1]@
    }
}

impl<S: CSystemT, R: RelayStrategyT<S>> MM<S, R> {
    /// Ticks 1 to `k` ran in order (see [`MM::ticked`]), each on what the one before sent:
    /// `ms` are the simulations before each tick and after the last, `outs` what each tick
    /// sent.
    pub open spec fn ticks_ran(ms: Seq<Self>, outs: Seq<Vec<Msg<S::B>>>, k: int) -> bool {
        &&& 0 <= k
        &&& ms.len() == k + 1
        &&& outs.len() == k
        &&& forall|j: int| 0 <= j < k ==> #[trigger] ms[j].ticked(ms[j + 1], (j + 1) as u32, tick_input(outs, j), outs[j]@)
    }
}

/// Two lists of messages that can be taken in make one.
proof fn lemma_msgs_ok_concat<B: BlockT>(store: &BlockStore<B>, a: Seq<MsgToNode<B>>, b: Seq<MsgToNode<B>>)
    requires
        msgs_ok(store, a),
        msgs_ok(store, b),
    ensures
        msgs_ok(store, a + b),
{
    assert forall|i: int| 0 <= i < (a + b).len() implies match #[trigger] (a + b)[i] {
        MsgToNode::MsgBlock(_, x, _) => x.spec_parents().len() > 0 && (!store@.contains_key(x.spec_id()) ==> x.spec_difficulty() > 0),
    } by {
        if i < a.len() {
            assert((a + b)[i] == a[i]);
        } else {
            assert((a + b)[i] == b[i - a.len()]);
        }
    }
}

/// Mined messages carry blocks with parents and a difficulty.
proof fn lemma_mined_msgs<B: BlockT>(out: Seq<Msg<B>>, c: HashID, private: bool)
    requires
        forall|i: int| 0 <= i < out.len() ==> mined_msg(#[trigger] out[i], c, private),
    ensures
        msgs_mined(out),
{
}

/// Two lists of mined messages make one.
proof fn lemma_mined_concat<B: BlockT>(a: Seq<Msg<B>>, b: Seq<Msg<B>>)
    requires
        msgs_mined(a),
        msgs_mined(b),
    ensures
        msgs_mined(a + b),
{
    assert forall|i: int| 0 <= i < (a + b).len() implies match #[trigger] (a + b)[i] {
        Msg::MsgBlock(_, x) => x.spec_parents().len() > 0 && x.spec_difficulty() > 0,
        Msg::MsgPrivBlock(_, x) => x.spec_parents().len() > 0 && x.spec_difficulty() > 0,
    } by {
        if i < a.len() {
            assert((a + b)[i] == a[i]);
        } else {
            assert((a + b)[i] == b[i - a.len()]);
        }
    }
}

/// A copy of each message.
pub fn copy_msgs<B: BlockT>(msgs: &Vec<Msg<B>>) -> (r: Vec<Msg<B>>)
    ensures
        r@.len() == msgs@.len(),
        forall|i: int|
            0 <= i < r@.len() ==> match (#[trigger] msgs@[i], r@[i]) {
                (Msg::MsgBlock(c, b), Msg::MsgBlock(c2, b2)) => c2 == c && crate::block::same_block(b2, b),
                (Msg::MsgPrivBlock(c, b), Msg::MsgPrivBlock(c2, b2)) => c2 == c && crate::block::same_block(b2, b),
                _ => false,
            },
{
    let mut r: Vec<Msg<B>> = Vec::new();
    let mut i: usize = 0;
    while i < msgs.len()
        invariant
            i <= msgs.len(),
            r@.len() == i,
            forall|t: int|
                0 <= t < i ==> match (#[trigger] msgs@[t], r@[t]) {
                    (Msg::MsgBlock(c, b), Msg::MsgBlock(c2, b2)) => c2 == c && crate::block::same_block(b2, b),
                    (Msg::MsgPrivBlock(c, b), Msg::MsgPrivBlock(c2, b2)) => c2 == c && crate::block::same_block(b2, b),
                    _ => false,
                },
        decreases msgs.len() - i,
    {
        match &msgs[i] {
            Msg::MsgBlock(c, b) => r.push(Msg::MsgBlock(*c, b.copy())),
            Msg::MsgPrivBlock(c, b) => r.push(Msg::MsgPrivBlock(*c, b.copy())),
        }
        i += 1;
    }
    r
}

impl<S: CSystemT, R: RelayStrategyT<S>> MM<S, R> {
    /// Runs ticks 1 to `n_ticks`, each on the messages of the one before; returns every
    /// message sent, in order.
    pub fn tick_many(&mut self, n_ticks: u32) -> (r: Result<Vec<Msg<S::B>>, StepErr>)
        requires
            old(self).inv(),
        ensures
            r is Ok ==> final(self).inv(),
            match r {
                Ok(all) => msgs_mined(all@),
                Err(_) => true,
            },
            n_ticks == 0 ==> (r matches Ok(all) && all@.len() == 0),
            r is Err ==> n_ticks >= 2,
            r matches Err(e) ==> e is Block,
            r matches Ok(all) ==> exists|ms: Seq<Self>, outs: Seq<Vec<Msg<S::B>>>|
                #[trigger] Self::ticks_ran(ms, outs, n_ticks as int) && ms[0] == *old(self) && ms[n_ticks as int] == *final(self)
                    && msgs_copied(concat_outs(outs), all@),
            r is Err ==> exists|ms: Seq<Self>, outs: Seq<Vec<Msg<S::B>>>, k: int|
                #[trigger] Self::ticks_ran(ms, outs, k) && 1 <= k < n_ticks && ms[0] == *old(self),
    {
        let mut msgs_from: Vec<Msg<S::B>> = Vec::new();
        let mut all_msgs: Vec<Msg<S::B>> = Vec::new();
        let mut ts: u64 = 1;
        let ghost mut ms: Seq<Self> = seq![*self];
        let ghost mut outs: Seq<Vec<Msg<S::B>>> = Seq::empty();
        proof {
            assert(concat_outs(outs) =~= Seq::<Msg<S::B>>::empty());
        }
        while ts <= n_ticks as u64
            invariant
                self.inv(),
                msgs_mined(msgs_from@),
                msgs_mined(all_msgs@),
                1 <= ts <= n_ticks as u64 + 1,
                ts == 1 ==> msgs_from@.len() == 0 && all_msgs@.len() == 0,
                Self::ticks_ran(ms, outs, ts - 1),
                ms[0] == *old(self),
                ms[ts - 1] == *self,
                ts > 1 ==> msgs_from == outs[ts - 2],
                msgs_copied(concat_outs(outs), all_msgs@),
            decreases n_ticks as u64 + 1 - ts,
        {
            let ghost m_before = *self;
            let ghost in_msgs = msgs_from@;
            proof {
                if ts == 1 {
                    assert(in_msgs =~= tick_input(outs, ts - 1));
                } else {
                    assert(in_msgs == tick_input(outs, ts - 1));
                }
            }
            let r_t = self.tick(ts as u32, msgs_from);
            match r_t {
                Ok(o) => {
                    msgs_from = o;
                },
                Err(e) => {
                    proof {
                        assert(Self::ticks_ran(ms, outs, ts - 1));
                    }
                    return Err(e);
                },
            }
            let ghost outs_prev = outs;
            proof {
                let ms1 = ms.push(*self);
                let outs1 = outs.push(msgs_from);
                assert forall|j: int| 0 <= j < ts implies #[trigger] ms1[j].ticked(ms1[j + 1], (j + 1) as u32, tick_input(outs1, j), outs1[j]@) by {
                    if j < ts - 1 {
                        assert(ms1[j] == ms[j] && ms1[j + 1] == ms[j + 1] && outs1[j] == outs[j]);
                        assert(tick_input(outs1, j) == tick_input(outs, j));
                        assert(ms[j].ticked(ms[j + 1], (j + 1) as u32, tick_input(outs, j), outs[j]@));
                    } else {
                        assert(ms1[j] == m_before && ms1[j + 1] == *self && outs1[j] == msgs_from);
                        assert(tick_input(outs1, j) == in_msgs);
                    }
                }
                lemma_concat_push(outs, msgs_from);
                ms = ms1;
                outs = outs1;
            }
            let mut c = copy_msgs(&msgs_from);
            proof {
                assert forall|i: int| 0 <= i < c@.len() implies match #[trigger] c@[i] {
                    Msg::MsgBlock(_, x) => x.spec_parents().len() > 0 && x.spec_difficulty() > 0,
                    Msg::MsgPrivBlock(_, x) => x.spec_parents().len() > 0 && x.spec_difficulty() > 0,
                } by {
                    match msgs_from@[i] {
                        Msg::MsgBlock(_, _) => {},
                        Msg::MsgPrivBlock(_, _) => {},
                    }
                }
            }
            let ghost a0 = all_msgs@;
            let ghost c0 = c@;
            all_msgs.append(&mut c);
            proof {
                lemma_mined_concat(a0, c0);
                assert(msgs_copied(msgs_from@, c0));
                lemma_copied_concat(concat_outs(outs_prev), a0, msgs_from@, c0);
            }
            ts += 1;
        }
        Ok(all_msgs)
    }

    /// After tick `ts`, `self` became `m1`: once the strategy (if there is one) calls for the
    /// simulation to stop (see [`RelayStrategyT::stop_ok`]), the simulation records that it
    /// stops `delay` ticks later (saturating), unless it has already recorded a stop.
    pub open spec fn stop_recorded(self, m1: Self, ts: Timestamp, delay: u32) -> bool {
        &&& m1.honest_node == self.honest_node
        &&& m1.attacker_node == self.attacker_node
        &&& m1.args == self.args
        &&& m1.strategy == self.strategy
        &&& m1.atk_params == self.atk_params
        &&& m1.atk_start_h == self.atk_start_h
        &&& m1.extra_chain_nodes == self.extra_chain_nodes
        &&& m1.net_args == self.net_args
        &&& m1.avg_work_per_block_period == self.avg_work_per_block_period
        &&& m1.store == self.store
        &&& m1.tx_cache == self.tx_cache
        &&& match self.stop_simulation_at {
            Some(at) => m1.stop_simulation_at == Some(at),
            None => match self.strategy {
                Some(st) => if m1.stop_simulation_at is None {
                    st.stop_ok(&self.store, ts, &self.attacker_node.chain, false)
                } else {
                    &&& st.stop_ok(&self.store, ts, &self.attacker_node.chain, true)
                    &&& m1.stop_simulation_at == Some(if ts + delay > u32::MAX { u32::MAX } else { (ts + delay) as u32 })
                },
                None => m1.stop_simulation_at is None,
            },
        }
    }

    /// The simulation has stopped at tick `ts`: it recorded a stop at or before `ts`.
    pub open spec fn stopped(self, ts: Timestamp) -> bool {
        self.stop_simulation_at matches Some(at) && ts >= at
    }

    /// Tick `j + 1` of the attack took `ms[j]` to `ms[j + 1]` (see [`MM::attack_ran`]).
    pub open spec fn attack_tick(ms: Seq<Self>, outs: Seq<Vec<Msg<S::B>>>, j: int, args: AttackArgs) -> bool {
        exists|a: Self, b: Self|
            #![trigger ms[j].checked_at(a, (j + 1) as u32), a.ticked(b, (j + 1) as u32, tick_input(outs, j), outs[j]@)]
            ms[j].checked_at(a, (j + 1) as u32) && a.ticked(b, (j + 1) as u32, tick_input(outs, j), outs[j]@)
                && b.stop_recorded(ms[j + 1], (j + 1) as u32, args.atk_end_delay_ticks)
    }

    /// Ticks 1 to `k` of the attack ran (see [`MM::run_attack`]), with the attack's arguments
    /// `args`: before each, the start of the attack was checked for (see
    /// [`MM::checked_at`]), the tick ran on what the tick before sent (see [`MM::ticked`]),
    /// and a stop was recorded when called for (see [`MM::stop_recorded`]); the simulation
    /// had not stopped after any tick but perhaps the last. `ms` are the simulations before
    /// each tick and after the last, `outs` what each tick sent.
    pub open spec fn attack_ran(ms: Seq<Self>, outs: Seq<Vec<Msg<S::B>>>, k: int, args: AttackArgs) -> bool {
        &&& 0 <= k
        &&& ms.len() == k + 1
        &&& outs.len() == k
        &&& forall|j: int| 0 <= j <= k ==> (#[trigger] ms[j]).args == args
        &&& forall|j: int| 0 <= j < k ==> #[trigger] Self::attack_tick(ms, outs, j, args)
        &&& forall|j: int| 0 <= j < k - 1 ==> !(#[trigger] ms[j + 1]).stopped((j + 1) as u32)
    }

    /// Runs the attack from tick 1 to the simulation's end: each tick records, once the
    /// attack has started, the height it started at, then runs (see [`Self::tick`]). Once the
    /// strategy calls for it (or it has before), the simulation stops `atk_end_delay_ticks`
    /// ticks after the first such call. Returns the last tick and what the strategy (if it
    /// started) achieved. A tick's error ends the attack with that error. The simulation
    /// always ends at `end_simulation_at_t`: a dynamic end tick is not supported, and the
    /// attack must not ask for one.
    pub fn run_attack(&mut self) -> (r: Result<AttackOutcome<R::ResultsTy>, StepErr>)
        requires
            old(self).inv(),
            !old(self).args.use_dynamic_cutoff,
            old(self).atk_start_h is None && 1 <= old(self).args.end_simulation_at_t && old(self).args.attack_starts_at
                <= old(self).args.end_simulation_at_t ==> old(self).net_args.daa2_n_blocks >= 4,
        ensures
            r is Ok ==> final(self).inv(),
            match r {
                Ok(o) => o.last_ts <= old(self).args.end_simulation_at_t,
                Err(_) => true,
            },
            match r {
                Ok(o) => old(self).args.end_simulation_at_t > 0 ==> o.last_ts >= 1,
                Err(_) => true,
            },
            match r {
                Ok(o) => o.results is Some ==> final(self).strategy is Some,
                Err(_) => true,
            },
            r matches Ok(o) ==> exists|ms: Seq<Self>, outs: Seq<Vec<Msg<S::B>>>|
                #[trigger] Self::attack_ran(ms, outs, o.last_ts as int, old(self).args) && ms[0] == *old(self) && ms[o.last_ts as int]
                    == *final(self),
            r matches Ok(o) ==> o.last_ts == old(self).args.end_simulation_at_t || (o.last_ts >= 1 && final(self).stopped(o.last_ts)),
            r matches Ok(o) ==> match final(self).strategy {
                Some(st) => st.results_ok(&final(self).store, &final(self).attacker_node.chain, o.results),
                None => o.results is None,
            },
            r is Err ==> exists|ms: Seq<Self>, outs: Seq<Vec<Msg<S::B>>>, k: int|
                #[trigger] Self::attack_ran(ms, outs, k, old(self).args) && 1 <= k < old(self).args.end_simulation_at_t && ms[0]
                    == *old(self) && !ms[k].stopped(k as u32),
            r is Err ==> old(self).args.end_simulation_at_t >= 2,
            r matches Err(e) ==> e is Block,
    {
        let mut msgs_from: Vec<Msg<S::B>> = Vec::new();
        let ts_limit = self.args.end_simulation_at_t;
        let mut last_ts: Timestamp = 0;
        let mut ts: u64 = 1;
        let ghost mut ms: Seq<Self> = seq![*self];
        let ghost mut outs: Seq<Vec<Msg<S::B>>> = Seq::empty();
        while ts <= ts_limit as u64
            invariant_except_break
                ts == 1 ==> msgs_from@.len() == 0,
                last_ts == ts - 1,
                Self::attack_ran(ms, outs, (ts - 1) as int, old(self).args),
                ms[ts - 1] == *self,
                ts > 1 ==> msgs_from == outs[ts - 2],
                ts > 1 ==> !self.stopped((ts - 1) as u32),
            invariant
                self.inv(),
                msgs_mined(msgs_from@),
                1 <= ts <= ts_limit as u64 + 1,
                ts_limit == old(self).args.end_simulation_at_t,
                self.args == old(self).args,
                self.net_args == old(self).net_args,
                self.atk_start_h is None ==> old(self).atk_start_h is None,
                last_ts <= ts_limit,
                last_ts >= 1 || ts == 1,
                ms[0] == *old(self),
                old(self).atk_start_h is None && 1 <= old(self).args.end_simulation_at_t && old(self).args.attack_starts_at
                    <= old(self).args.end_simulation_at_t ==> old(self).net_args.daa2_n_blocks >= 4,
            ensures
                self.inv(),
                last_ts <= ts_limit,
                last_ts >= 1 || ts_limit == 0,
                Self::attack_ran(ms, outs, last_ts as int, old(self).args),
                ms[last_ts as int] == *self,
                ms[0] == *old(self),
                last_ts == ts_limit || (last_ts >= 1 && self.stopped(last_ts)),
            decreases ts_limit as u64 + 1 - ts,
        {
            let t = ts as u32;
            last_ts = t;
            let ghost m_before = *self;
            let ghost in_msgs = msgs_from@;
            proof {
                if ts == 1 {
                    assert(in_msgs =~= tick_input(outs, ts - 1));
                } else {
                    assert(in_msgs == tick_input(outs, ts - 1));
                }
            }
            proof {
                assert(t as u64 == ts);
                if t >= self.args.attack_starts_at && self.atk_start_h is None {
                    assert(old(self).atk_start_h is None);
                    assert(old(self).args.attack_starts_at <= old(self).args.end_simulation_at_t);
                    assert(1 <= old(self).args.end_simulation_at_t);
                }
            }
            self.check_and_set_atk_start_h(t);
            let ghost m_a = *self;
            let r_t = self.tick(t, msgs_from);
            match r_t {
                Ok(o) => {
                    msgs_from = o;
                },
                Err(e) => {
                    proof {
                        assert(Self::attack_ran(ms, outs, (ts - 1) as int, old(self).args));
                    }
                    return Err(e);
                },
            }
            let ghost m_b = *self;
            let strategy_stops = match &self.strategy {
                Some(st) => st.should_stop_simulation(&self.store, t, &self.attacker_node.chain),
                None => false,
            };
            if self.stop_simulation_at.is_none() && strategy_stops {
                self.stop_simulation_at = Some(t.saturating_add(self.args.atk_end_delay_ticks));
            }
            let stop_now = match self.stop_simulation_at {
                Some(at) => t >= at,
                None => false,
            };
            let ghost outs_prev = outs;
            proof {
                assert(m_b.stop_recorded(*self, t, old(self).args.atk_end_delay_ticks));
                assert(m_before.checked_at(m_a, t));
                assert(m_a.ticked(m_b, t, in_msgs, msgs_from@));
                let ms1 = ms.push(*self);
                let outs1 = outs.push(msgs_from);
                assert forall|j: int| 0 <= j <= ts implies (#[trigger] ms1[j]).args == old(self).args by {
                    if j < ts {
                        assert(ms1[j] == ms[j]);
                    }
                }
                assert forall|j: int| 0 <= j < ts implies #[trigger] Self::attack_tick(ms1, outs1, j, old(self).args) by {
                    if j < ts - 1 {
                        assert(ms1[j] == ms[j] && ms1[j + 1] == ms[j + 1] && outs1[j] == outs[j]);
                        assert(tick_input(outs1, j) == tick_input(outs, j));
                        assert(Self::attack_tick(ms, outs, j, old(self).args));
                    } else {
                        assert(ms1[j] == m_before && ms1[j + 1] == *self && outs1[j] == msgs_from);
                        assert(tick_input(outs1, j) == in_msgs);
                        assert(m_before.checked_at(m_a, (j + 1) as u32) && m_a.ticked(m_b, (j + 1) as u32, tick_input(outs1, j), outs1[j]@));
                    }
                }
                assert forall|j: int| 0 <= j < ts - 1 implies !(#[trigger] ms1[j + 1]).stopped((j + 1) as u32) by {
                    assert(ms1[j + 1] == ms[j + 1]);
                    if j < ts - 2 {
                        assert(!ms[j + 1].stopped((j + 1) as u32));
                    } else {
                        assert(ms[ts - 1] == m_before);
                    }
                }
                ms = ms1;
                outs = outs1;
                assert(Self::attack_ran(ms, outs, ts as int, old(self).args));
            }
            if stop_now {
                break;
            }
            ts += 1;
        }
        let results = match &self.strategy {
            Some(st) => st.get_results(&self.store, &self.attacker_node.chain),
            None => None,
        };
        proof {
            assert(Self::attack_ran(ms, outs, last_ts as int, old(self).args));
            assert(ms[0] == *old(self));
            assert(ms[last_ts as int] == *self);
        }
        let outcome = AttackOutcome { last_ts, results };
        proof {
            assert(Self::attack_ran(ms, outs, outcome.last_ts as int, old(self).args) && ms[0] == *old(self) && ms[outcome.last_ts as int] == *self);
        }
        Ok(outcome)
    }
}

} // verus!
