use por_sim::block::{Block, BlockStore, BlockT, DagBlock};
use por_sim::block_metadata::BlockMD;
use por_sim::chain::fork_rules::{ForkRules, HeaviestChain, LongestChain};
use por_sim::chain::{conv_u128_id_to_u64, Chain, ChainErr};
use por_sim::transactions::{NonEmptyIds, ReflectedCw, ReflectionData, Transaction, TxCache, TxId};
use por_sim::types::{HashID, NetworkArgs};

struct Setup<B: BlockT, F: ForkRules<B>> {
    genesis: B,
    g_md: BlockMD,
    chain: Chain<B, F>,
    store: BlockStore<B>,
    txc: TxCache,
}

fn setup_chain<B: BlockT + Clone, F: ForkRules<B>>(ts: Option<u32>) -> Setup<B, F> {
    let genesis = B::genesis(ts.unwrap_or(0));
    let net_args = NetworkArgs::new(10);
    let mut store = BlockStore::new();
    let g_md = BlockMD::mk_genesis_md(&genesis, net_args.daa2_n_blocks, &mut store);
    let chain = Chain::new(genesis.clone(), g_md, net_args, &mut store);
    Setup { genesis, g_md, chain, store, txc: TxCache::new() }
}

/// A drafted block whose id is made small enough to pass every difficulty check.
fn mk_draft_block<B: BlockT, F: ForkRules<B>>(s: &Setup<B, F>, ts: u32, is_private: bool) -> B {
    mk_draft_block_w_txs(s, ts, is_private, vec![])
}

fn mk_draft_block_w_txs<B: BlockT, F: ForkRules<B>>(s: &Setup<B, F>, ts: u32, is_private: bool, txs: Vec<TxId>) -> B {
    let mut b = s.chain.draft_block(&s.store, &s.txc, ts, is_private);
    for tx_id in txs {
        b.add_transaction(tx_id, &s.txc);
    }
    b.test_set_work_bits(24)
}

fn add<B: BlockT, F: ForkRules<B>>(s: &mut Setup<B, F>, b: B, is_private: bool) -> Result<(), ChainErr> {
    s.chain.add_block(&mut s.store, &s.txc, b, is_private)
}

#[test]
fn target_from_d() {
    let s = setup_chain::<Block, LongestChain<Block>>(None);
    assert_eq!(s.chain.target_from_difficulty(1), u64::MAX);
    assert_eq!(s.chain.target_from_difficulty(2), u64::MAX / 2);
    assert_eq!(s.chain.target_from_difficulty(8), u64::MAX / 8);
    assert_eq!(s.chain.target_from_difficulty(1024), u64::MAX / 1024);
    assert_eq!(s.chain.target_from_difficulty(1000), 0x004189374bc6a7ef);
}

#[test]
fn update_best_block() {
    let mut s = setup_chain::<Block, LongestChain<Block>>(None);
    assert_eq!(s.genesis.get_height(), 0, "genesis height should be 0");
    let b = mk_draft_block(&s, 10, false);
    let g = s.genesis.get_hash();

    assert_eq!(s.chain.select_best_block(false), g);
    assert_eq!(s.chain.select_best_block(true), g);

    add(&mut s, b.clone(), false).unwrap();

    assert_eq!(s.chain.select_best_block(false), b.get_hash());
    assert_eq!(s.chain.select_best_block(true), g);

    add(&mut s, b.clone(), true).unwrap();

    assert_eq!(s.chain.select_best_block(false), b.get_hash());
    assert_eq!(s.chain.select_best_block(true), b.get_hash());
}

#[test]
fn update_best_heaviest_block() {
    let mut s = setup_chain::<Block, HeaviestChain<Block>>(None);
    let b = mk_draft_block(&s, 10, false);
    let g = s.genesis.get_hash();

    assert_eq!(b.get_reflected_weight(), 0);

    assert_eq!(s.chain.select_best_block(false), g);
    assert_eq!(s.chain.select_best_block(true), g);

    add(&mut s, b.clone(), false).unwrap();

    assert_eq!(s.chain.select_best_block(false), b.get_hash());
    assert_eq!(s.chain.select_best_block(true), g);

    add(&mut s, b.clone(), true).unwrap();

    assert_eq!(s.chain.select_best_block(false), b.get_hash());
    assert_eq!(s.chain.select_best_block(true), b.get_hash());
}

#[test]
fn update_best_heaviest_block_w_refls() {
    let mut s = setup_chain::<Block, HeaviestChain<Block>>(None);
    let g = s.genesis.get_hash();
    // a block to reflect, as if it were of another chain
    let b_refl = mk_draft_block(&s, 10, false);

    let refl_tx = Transaction::ReflectAndProve(ReflectionData {
        r_chain: 1234,
        r_block: b_refl.get_hash(),
        r_cw: 0,
        weight: b_refl.d,
        l_headers: vec![g],
        l_cw: ReflectedCw { cw: 0, blocks: NonEmptyIds::singleton(g) },
    });
    Transaction::set_cached_tx(&mut s.txc, refl_tx.clone());

    let b = mk_draft_block_w_txs(&s, 10, false, vec![refl_tx.id()]);

    // the reflected block is at the same difficulty as `b`
    assert_eq!(b.get_difficulty(), b.get_reflected_weight());

    assert_eq!(s.chain.select_best_block(false), g);
    assert_eq!(s.chain.select_best_block(true), g);

    add(&mut s, b.clone(), false).unwrap();

    let b_md = s.store.get(b.get_hash()).unwrap().1;
    assert_ne!(b_md.chain_weight, b_md.local_chain_weight);
    assert_eq!(b_md.chain_weight, b_md.local_chain_weight + b.get_reflected_weight());

    assert_eq!(s.chain.select_best_block(false), b.get_hash());
    assert_eq!(s.chain.select_best_block(true), g);

    add(&mut s, b.clone(), true).unwrap();

    assert_eq!(s.chain.select_best_block(false), b.get_hash());
    assert_eq!(s.chain.select_best_block(true), b.get_hash());
}

#[test]
fn update_best_heaviest_dagblock() {
    let mut s = setup_chain::<DagBlock, HeaviestChain<DagBlock>>(None);
    let g = s.genesis.get_hash();
    let b = mk_draft_block(&s, 10, false);
    let b2 = mk_draft_block(&s, 10, false);
    let b3 = mk_draft_block(&s, 10, false);

    assert_eq!(s.chain.select_best_block(false), g);
    assert_eq!(s.chain.select_best_block(true), g);

    add(&mut s, b.clone(), false).unwrap();

    assert_eq!(s.chain.select_best_block(false), b.get_hash());
    assert_eq!(s.chain.select_best_block(true), g);
    assert_eq!(s.chain.get_chain_weight_at(&s.store, b.get_hash()), 1000);
    assert_eq!(
        s.chain.get_chain_heads(false).get(b.get_hash()).unwrap(),
        s.chain.get_chain_weight_at(&s.store, b.get_hash())
    );
    assert_eq!(
        s.chain.get_chain_heads(true).get(g).unwrap(),
        s.chain.get_chain_weight_at(&s.store, g)
    );

    add(&mut s, b.clone(), true).unwrap();

    assert_eq!(s.chain.select_best_block(false), b.get_hash());
    assert_eq!(s.chain.select_best_block(true), b.get_hash());
    assert_eq!(
        s.chain.get_chain_heads(true).get(b.get_hash()).unwrap(),
        s.chain.get_chain_weight_at(&s.store, b.get_hash())
    );

    add(&mut s, b2.clone(), false).unwrap();
    add(&mut s, b3.clone(), false).unwrap();

    assert_eq!(s.chain.get_chain_weight_at(&s.store, b2.get_hash()), 1000);
    assert_eq!(s.chain.get_chain_weight_at(&s.store, b3.get_hash()), 1000);

    let b4 = mk_draft_block(&s, 20, false);
    add(&mut s, b4.clone(), false).unwrap();
    let b4_md = s.store.get(b4.get_hash()).unwrap().1;

    assert_eq!(b4_md.height, 2, "b4_md has correct height");
    assert_eq!(b4_md.weight, 1000, "b4_md has correct weight");
    assert_eq!(b4_md.chain_weight, 4000, "b4_md has correct Σ weight");

    for id in s.chain.get_best_blocks(false).to_vec() {
        assert_eq!(s.store.get(id).unwrap().1.height, 2);
    }

    for i in 0..10 {
        let tmp_b = mk_draft_block(&s, 30 + i * 10, false);
        add(&mut s, tmp_b, false).unwrap();
    }

    let b130 = mk_draft_block(&s, 130, false);
    add(&mut s, b130.clone(), false).unwrap();
    let b140 = mk_draft_block(&s, 140, false);
    add(&mut s, b140.clone(), false).unwrap();

    let b130_md = s.store.get(b130.get_hash()).unwrap().1;
    let b140_md = s.store.get(b140.get_hash()).unwrap().1;

    assert_eq!(b130.all_parents().len(), 1);
    assert_eq!(b140_md.chain_weight, b140.get_difficulty() + b130_md.chain_weight);
    assert_eq!(
        s.chain.get_chain_heads(false).get(b140.get_hash()).unwrap(),
        s.chain.get_chain_weight_at(&s.store, b140.get_hash())
    );
}

#[test]
fn block_md() {
    let mut s = setup_chain::<Block, LongestChain<Block>>(None);
    let g = s.genesis.get_hash();
    assert_eq!(
        BlockMD::get_daa2_blocks(&s.store, g).unwrap().len(),
        s.chain.net_args.daa2_n_blocks,
    );

    let next_d = s.chain.next_difficulty(&s.store, &s.genesis, &s.g_md);
    assert_eq!(next_d, 1000);

    let b = mk_draft_block(&s, 10, false);

    s.chain.validate_block(&mut s.store, &s.txc, &b, false).unwrap();
    assert_eq!(
        BlockMD::get_daa2_blocks(&s.store, g).unwrap().len(),
        s.chain.net_args.daa2_n_blocks,
    );

    let is_priv = false;
    let pre_bb = s.chain.select_best_block(is_priv);
    assert_eq!(s.store.get(s.chain.select_best_block(is_priv)).unwrap().1.height, 0);
    assert_eq!(s.store.get(b.get_hash()).is_none(), true);
    add(&mut s, b.clone(), is_priv).unwrap();
    assert_eq!(s.store.get(b.get_hash()).is_some(), true);

    assert_ne!(s.chain.select_best_block(is_priv), pre_bb);
    assert_ne!(s.store.get(s.chain.select_best_block(is_priv)).unwrap().1.height, 0);
}

#[test]
fn find_lca_simple() {
    // a single-parent chain
    let mut s = setup_chain::<Block, LongestChain<Block>>(None);
    let g = s.genesis.get_hash();

    let b1 = mk_draft_block(&s, 10, false);
    let b2 = mk_draft_block(&s, 10, false);

    add(&mut s, b1.clone(), false).unwrap();
    add(&mut s, b2.clone(), false).unwrap();

    let lca_r = s.chain.find_lca_and_intermediates(&s.store, &vec![b1.get_hash(), b2.get_hash()]).unwrap();

    assert_eq!(lca_r.0, g);
    assert_eq!(lca_r.1[&1].len(), 2);
    assert_eq!(lca_r.1[&0].len(), 1);

    // a 3rd block, on b2
    let mut b3 = mk_draft_block(&s, 20, false);
    b3.parent = b2.get_hash();
    add(&mut s, b3.clone(), false).unwrap();

    // the chain segment from b3 (at h=2) down to genesis
    let lca_r = s.chain.find_lca_and_intermediates(&s.store, &vec![b3.get_hash(), g]).unwrap();

    assert_eq!(lca_r.0, g);
    assert_eq!(lca_r.1[&2].len(), 1);
    // only one block at h=1 is included
    assert_eq!(lca_r.1[&1].len(), 1);
    assert_eq!(lca_r.1[&0].len(), 1);

    let lca_r = s.chain.find_lca_and_intermediates(&s.store, &vec![b3.get_hash()]).unwrap();
    assert_eq!(lca_r.0, b3.get_hash());
    assert_eq!(lca_r.1.len(), 1);
    assert_eq!(lca_r.1[&2].len(), 1);

    // b3 is on b2, so b2 is the LCA
    let lca_r = s.chain.find_lca_and_intermediates(&s.store, &vec![b3.get_hash(), b2.get_hash()]).unwrap();
    assert_eq!(lca_r.0, b2.get_hash());
    assert_eq!(lca_r.1.len(), 2);
    assert_eq!(lca_r.1[&2].len(), 1);
    assert_eq!(lca_r.1[&1].len(), 1);
}

#[test]
fn find_lca_dag_simple() {
    // a multi-parent chain
    let mut s = setup_chain::<DagBlock, HeaviestChain<DagBlock>>(None);
    let g = s.genesis.get_hash();

    let b1 = mk_draft_block(&s, 10, false);
    let b2 = mk_draft_block(&s, 10, false);

    add(&mut s, b1.clone(), false).unwrap();
    add(&mut s, b2.clone(), false).unwrap();

    let lca_r = s.chain.find_lca_and_intermediates(&s.store, &vec![b1.get_hash(), b2.get_hash()]).unwrap();

    assert_eq!(lca_r.0, g);
    assert_eq!(lca_r.1[&1].len(), 2);
    assert_eq!(lca_r.1[&0].len(), 1);

    // a 3rd block, on both h=1 blocks
    let b3 = mk_draft_block(&s, 20, false);
    let b4 = mk_draft_block(&s, 20, false); // added later

    add(&mut s, b3.clone(), false).unwrap();
    let lca_r = s.chain.find_lca_and_intermediates(&s.store, &vec![b3.get_hash(), g]).unwrap();

    assert_eq!(lca_r.0, g);
    assert_eq!(lca_r.1[&2].len(), 1);
    // both blocks at h=1 are included: it is a DAG
    assert_eq!(lca_r.1[&1].len(), 2);
    assert_eq!(lca_r.1[&0].len(), 1);

    // 5 blocks with genesis, which is the LCA of the two newest
    add(&mut s, b4.clone(), false).unwrap();
    let lca_r = s.chain.find_lca_and_intermediates(&s.store, &vec![b3.get_hash(), b4.get_hash()]).unwrap();
    assert_eq!(lca_r.0, g);
    assert_eq!(lca_r.1[&2].len(), 2);
    assert_eq!(lca_r.1[&1].len(), 2);
    assert_eq!(lca_r.1[&0].len(), 1);

    let b5 = mk_draft_block(&s, 30, false);
    add(&mut s, b5.clone(), false).unwrap();
    let lca_r = s.chain.find_lca_and_intermediates(&s.store, &b5.parents).unwrap();
    assert_eq!(lca_r.0, g);
    assert_eq!(lca_r.1[&2].len(), 2);
    assert_eq!(lca_r.1[&1].len(), 2);
    assert_eq!(lca_r.1[&0].len(), 1);

    let lca_r = s.chain.find_lca_and_intermediates(&s.store, &vec![b5.get_hash()]).unwrap();
    assert_eq!(lca_r.0, b5.get_hash());
    assert_eq!(lca_r.1[&3].len(), 1);
    assert_eq!(lca_r.1.len(), 1);
}

#[test]
fn reject_child_older_than_parent() {
    let mut s = setup_chain::<DagBlock, HeaviestChain<DagBlock>>(Some(10));
    let b = mk_draft_block(&s, 5, false);
    assert_eq!(s.genesis.get_ts() > b.get_ts(), true, "timestamps: b < g");
    assert_eq!(add(&mut s, b, false), Err(ChainErr::TsBeforeParent));
}

fn first_better_ids(s: &Setup<Block, LongestChain<Block>>) -> Vec<HashID> {
    s.chain.find_first_priv_blocks_better_than_public(&s.store).iter().map(|p| p.0.get_hash()).collect()
}

#[test]
fn test_find_first_priv_blocks_better_than_public_longest() {
    let mut s = setup_chain::<Block, LongestChain<Block>>(None);
    let b = mk_draft_block(&s, 10, false);
    add(&mut s, b.clone(), false).unwrap();
    assert_eq!(first_better_ids(&s).len(), 0);
    add(&mut s, b, true).unwrap();
    assert_eq!(first_better_ids(&s).len(), 0);

    let b1 = mk_draft_block(&s, 20, true);
    let b1_id = b1.get_hash();
    add(&mut s, b1.clone(), true).unwrap();
    assert_eq!(first_better_ids(&s), vec![b1_id]);

    let b2 = mk_draft_block(&s, 30, true);
    let b2_id = b2.get_hash();
    add(&mut s, b2, true).unwrap();
    assert_eq!(first_better_ids(&s), vec![b1_id]);

    add(&mut s, b1.clone(), false).unwrap();
    assert_eq!(first_better_ids(&s), vec![b2_id]);
}

#[test]
fn u128_xor_key_test() {
    assert_eq!(conv_u128_id_to_u64(0xAAAAAAAAAAAAAAAA5555555555555555), 0xFFFFFFFFFFFFFFFF);
    assert_eq!(conv_u128_id_to_u64(0x5555555555555555AAAAAAAAAAAAAAAA), 0xFFFFFFFFFFFFFFFF);
    assert_eq!(conv_u128_id_to_u64(0x55555555555555555555555555555555), 0x0);
}
