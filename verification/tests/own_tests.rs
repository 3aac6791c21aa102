use std::cmp::Ordering;

use por_sim::block::{all_prev_iter, heads_heaviest_first, Block, BlockStore, BlockT, DagBlock, ManyParentsBlockT};
use por_sim::block_metadata::BlockMD;
use por_sim::chain::fork_rules::{ForkRules, HeaviestChain, LongestChain};
use por_sim::chain::{conv_u128_id_to_u64, Chain, ChainErr};
use por_sim::cli::{num_is_between, validate_daa2_n_blocks, validate_n_chains};
use por_sim::collections::{sort_heaviest_first, unique, ChainHeads, IdSet};
use por_sim::cryptosystem::SimpleCS;
use por_sim::hash::{hash_u128, hash_u64};
use por_sim::message_manager::{msgs_from_into_to, AttackArgs};
use por_sim::msg::{Msg, MsgToNode};
use por_sim::node::Node;
use por_sim::state::{PoRStateIM, PoRStateTx};
use por_sim::strategies::relay::SmChainType;
use por_sim::transactions::{NonEmptyIds, ReflectedCw, ReflectionData, Transaction, TxCache};
use por_sim::types::{HashID, NetworkArgs};

struct Setup<B: BlockT, F: ForkRules<B>> {
    genesis: B,
    chain: Chain<B, F>,
    store: BlockStore<B>,
    txc: TxCache,
}

fn setup<B: BlockT + Clone, F: ForkRules<B>>() -> Setup<B, F> {
    let genesis = B::genesis(0);
    let net_args = NetworkArgs::new(10);
    let mut store = BlockStore::new();
    let g_md = BlockMD::mk_genesis_md(&genesis, net_args.daa2_n_blocks, &mut store);
    let chain = Chain::new(genesis.clone(), g_md, net_args, &mut store);
    Setup { genesis, chain, store, txc: TxCache::new() }
}

fn draft<B: BlockT, F: ForkRules<B>>(s: &Setup<B, F>, ts: u32, is_private: bool) -> B {
    s.chain.draft_block(&s.store, &s.txc, ts, is_private).test_set_work_bits(30)
}

fn add<B: BlockT, F: ForkRules<B>>(s: &mut Setup<B, F>, b: &B, is_private: bool) -> Result<(), ChainErr> {
    s.chain.add_block(&mut s.store, &s.txc, b.copy(), is_private)
}

// ---- laws, on concrete values ----

#[test]
fn best_blocks_share_one_measure() {
    let mut s = setup::<Block, LongestChain<Block>>();
    let b1 = draft(&s, 10, false);
    let b2 = draft(&s, 10, false);
    add(&mut s, &b1, false).unwrap();
    add(&mut s, &b2, false).unwrap();
    // two blocks at height 1: both best, both of one measure
    let best = s.chain.get_best_blocks(false).to_vec();
    assert_eq!(best.len(), 2);
    for id in best {
        assert_eq!(s.store.get(id).unwrap().1.height, 1);
    }
    // a higher block replaces them
    let b3 = draft(&s, 20, false);
    add(&mut s, &b3, false).unwrap();
    assert_eq!(s.chain.get_best_blocks(false).to_vec(), vec![b3.get_hash()]);
    // a lower block joins nothing
    assert_eq!(s.chain.get_best_blocks(true).to_vec(), vec![s.genesis.get_hash()]);
}

#[test]
fn add_block_only_extends_the_store() {
    let mut s = setup::<DagBlock, HeaviestChain<DagBlock>>();
    let b1 = draft(&s, 10, false);
    add(&mut s, &b1, false).unwrap();
    let before: Vec<(HashID, DagBlock, BlockMD)> = vec![s.genesis.get_hash(), b1.get_hash()]
        .into_iter()
        .map(|id| {
            let e = s.store.get(id).unwrap();
            (id, e.0.clone(), e.1)
        })
        .collect();
    let n = s.store.len();
    let b2 = draft(&s, 20, false);
    add(&mut s, &b2, false).unwrap();
    assert_eq!(s.store.len(), n + 1);
    for (id, b, md) in before {
        let e = s.store.get(id).unwrap();
        assert_eq!(e.0, b);
        assert_eq!(e.1, md);
    }
    // adding a stored block again stores nothing new, and changes nothing in the chain
    let mut best = s.chain.get_best_blocks(false).to_vec();
    let mut heads = s.chain.get_chain_heads(false).entries();
    let mut seen = s.chain.get_seen_blocks(false).to_vec();
    add(&mut s, &b2, false).unwrap();
    assert_eq!(s.store.len(), n + 1);
    let mut best2 = s.chain.get_best_blocks(false).to_vec();
    let mut heads2 = s.chain.get_chain_heads(false).entries();
    let mut seen2 = s.chain.get_seen_blocks(false).to_vec();
    best.sort();
    best2.sort();
    heads.sort();
    heads2.sort();
    seen.sort();
    seen2.sort();
    assert_eq!(best, best2);
    assert_eq!(heads, heads2);
    assert_eq!(seen, seen2);
}

#[test]
fn chain_knows_only_stored_blocks() {
    let mut s = setup::<DagBlock, HeaviestChain<DagBlock>>();
    for ts in [10, 20, 30] {
        let b = draft(&s, ts, false);
        add(&mut s, &b, false).unwrap();
    }
    for p in [false, true] {
        for id in s.chain.get_seen_blocks(p).to_vec() {
            assert!(s.store.contains(id));
        }
        for id in s.chain.get_best_blocks(p).to_vec() {
            assert!(s.store.contains(id));
        }
        for id in s.chain.get_chain_heads(p).keys() {
            assert!(s.store.contains(id));
        }
    }
}

#[test]
fn lca_of_stored_blocks_exists_and_is_an_ancestor() {
    let mut s = setup::<DagBlock, HeaviestChain<DagBlock>>();
    let b1 = draft(&s, 10, false);
    let b2 = draft(&s, 10, false);
    add(&mut s, &b1, false).unwrap();
    add(&mut s, &b2, false).unwrap();
    let b3 = draft(&s, 20, false);
    add(&mut s, &b3, false).unwrap();
    let r = s.chain.find_lca_and_intermediates(&s.store, &vec![b3.get_hash(), b1.get_hash()]).unwrap();
    // levels from the LCA's height up to the highest input
    let mut hs: Vec<u32> = r.1.keys().cloned().collect();
    hs.sort();
    assert_eq!(hs, vec![0, 1, 2]);
    assert!(s.chain.block_is_ancestor_of(&s.store, r.0, b3.get_hash()));
    assert!(s.chain.block_is_ancestor_of(&s.store, r.0, b1.get_hash()));
    assert!(s.chain.block_is_ancestor_of(&s.store, b1.get_hash(), b3.get_hash()));
    assert!(!s.chain.block_is_ancestor_of(&s.store, b3.get_hash(), b1.get_hash()));
    assert!(s.chain.block_is_in_history_of(&s.store, s.genesis.get_hash(), &vec![b3.get_hash()]));
    assert!(s.chain.block_is_in_history_of(&s.store, b1.get_hash(), &vec![b3.get_hash()]));
    assert!(s.chain.block_is_in_best_chain(&s.store, b2.get_hash(), false));
    assert!(!s.chain.block_is_in_best_chain(&s.store, b3.get_hash(), true));
    assert!(s.chain.block_is_in_best_chain(&s.store, b3.get_hash(), false));
    // an unknown block has no LCA
    assert!(s.chain.find_lca_and_intermediates(&s.store, &vec![b3.get_hash(), 12345]).is_none());
    assert!(s.chain.find_lca_and_intermediates(&s.store, &vec![]).is_none());
}

// ---- each error of block validation ----

#[test]
fn bad_pow_is_refused() {
    let mut s = setup::<Block, LongestChain<Block>>();
    let mut b = s.chain.draft_block(&s.store, &s.txc, 10, false);
    b.id = u64::MAX;
    assert_eq!(add(&mut s, &b, false), Err(ChainErr::BadPoW(u64::MAX, u64::MAX / 1000)));
}

#[test]
fn unknown_parent_is_refused() {
    let mut s = setup::<Block, LongestChain<Block>>();
    let b1 = draft(&s, 10, false);
    add(&mut s, &b1, false).unwrap();
    let b2 = draft(&s, 20, false);
    // the private side has not seen b1
    assert_eq!(
        add(&mut s, &b2, true),
        Err(ChainErr::BlockRefsUnkParent(b2.get_hash(), b1.get_hash(), true))
    );
    assert_eq!(
        s.chain.validate_block_local(&b2, true),
        Err(ChainErr::BlockRefsUnkParent(b2.get_hash(), b1.get_hash(), true))
    );
    assert_eq!(s.chain.validate_block_local(&b2, false), Ok(()));
}

#[test]
fn wrong_height_is_refused() {
    let mut s = setup::<Block, LongestChain<Block>>();
    let mut b = draft(&s, 10, false);
    b.h = 7;
    assert_eq!(add(&mut s, &b, false), Err(ChainErr::BlockHeightInvalid));
}

#[test]
fn wrong_difficulty_is_refused() {
    let mut s = setup::<Block, LongestChain<Block>>();
    let mut b = draft(&s, 10, false);
    b.set_difficulty(999);
    assert_eq!(add(&mut s, &b, false), Err(ChainErr::BadDifficulty));
}

#[test]
fn tx_in_parent_is_refused() {
    let mut s = setup::<Block, LongestChain<Block>>();
    let tx = Transaction::HelloWorld(7);
    Transaction::set_cached_tx(&mut s.txc, tx.clone());
    s.chain.add_tx_to_mempool(tx.id(), false).unwrap();
    let b1 = draft(&s, 10, false);
    assert_eq!(b1.get_transactions(), &vec![tx.id()]);
    add(&mut s, &b1, false).unwrap();
    // the mempool lost the transaction to b1
    assert_eq!(s.chain.get_mempool_tx_ids(false).len(), 0);
    let mut b2 = draft(&s, 20, false);
    b2.add_transaction(tx.id(), &s.txc);
    let b2 = b2.test_set_work_bits(30);
    assert_eq!(add(&mut s, &b2, false), Err(ChainErr::TxInParent { b: b2.get_hash(), txid: tx.id() }));
}

#[test]
fn parents_out_of_order_are_refused() {
    let mut s = setup::<DagBlock, HeaviestChain<DagBlock>>();
    let b1 = draft(&s, 10, false);
    add(&mut s, &b1, false).unwrap();
    let b2 = draft(&s, 20, false);
    add(&mut s, &b2, false).unwrap();
    // first parent b1 (weight 1000) is lighter than the second, b2 (weight 2000)
    let mut b = DagBlock::new_multi_parent(30, vec![b1.get_hash(), b2.get_hash()], 1000, s.chain.get_chain_id(), 0, &s.store);
    let b = b.test_set_work_bits(30);
    assert_eq!(
        add(&mut s, &b, false),
        Err(ChainErr::BadParentOrder("total".to_owned(), (b1.get_hash(), 1000), (b2.get_hash(), 2000)))
    );
}

#[test]
fn bad_reflected_weight_in_parent_is_refused() {
    let mut s = setup::<Block, HeaviestChain<Block>>();
    // a parent that claims reflected weight its transactions do not give
    let mut p = Block::new(10, s.genesis.get_hash(), 1000, s.chain.get_chain_id(), 0, &s.store);
    p.add_refl_weight(5);
    let p = p.test_set_work_bits(30);
    let p_md = BlockMD {
        difficulty: 1000,
        height: 1,
        weight: 1000,
        chain_weight: 1005,
        local_chain_weight: 1000,
        reflected_weight: 5,
    };
    BlockMD::set_daa2_blocks(&mut s.store, p.get_hash(), vec![p.get_hash(); 100]);
    s.store.insert((p.clone(), p_md));
    let b = Block::new(20, p.get_hash(), 1000, s.chain.get_chain_id(), 0, &s.store).test_set_work_bits(30);
    assert_eq!(s.chain.validate_block(&mut s.store, &s.txc, &b, false), Err(ChainErr::BadReflWeightInBlock));
}

// ---- formulas ----

#[test]
fn difficulty_adjusts_from_height_5() {
    let mut s = setup::<Block, LongestChain<Block>>();
    for i in 1..=5u32 {
        let b = draft(&s, 5 * i, false);
        assert_eq!(b.get_difficulty(), 1000);
        add(&mut s, &b, false).unwrap();
    }
    // at height 5: 10 (block target) * 5000 (weight since genesis) / 25 (time since genesis)
    let b = draft(&s, 30, false);
    assert_eq!(b.get_difficulty(), 2000);
    let top = s.chain.get_any_best_block(&s.store, false);
    assert_eq!(s.chain.next_difficulty(&s.store, &top.0, &top.1), 2000);
}

#[test]
fn chain_weights_add_up() {
    let mut s = setup::<DagBlock, HeaviestChain<DagBlock>>();
    let b1 = draft(&s, 10, false);
    let b2 = draft(&s, 10, false);
    add(&mut s, &b1, false).unwrap();
    add(&mut s, &b2, false).unwrap();
    let b3 = draft(&s, 20, false);
    assert_eq!(b3.parents.len(), 2);
    add(&mut s, &b3, false).unwrap();
    let md = s.store.get(b3.get_hash()).unwrap().1;
    assert_eq!(md.height, 2);
    assert_eq!(md.weight, 1000);
    assert_eq!(md.local_chain_weight, 3000);
    assert_eq!(md.chain_weight, 3000);
    assert_eq!(md.reflected_weight, 0);
    assert_eq!(s.chain.get_chain_weight_at(&s.store, b3.get_hash()), 3000);
    assert_eq!(s.chain.get_chain_heads(false).entries(), vec![(b3.get_hash(), 3000)]);
}

#[test]
fn u128_ids_fold_by_xor() {
    assert_eq!(conv_u128_id_to_u64(0), 0);
    assert_eq!(conv_u128_id_to_u64(0x0000000000000001_0000000000000002), 3);
    assert_eq!(conv_u128_id_to_u64(u128::MAX), 0);
    assert_eq!(conv_u128_id_to_u64(0x00000000000000FF_0000000000000000), 0xFF);
}

#[test]
fn hashes_are_xxh3_of_big_endian_bytes() {
    assert_eq!(hash_u64(5), twox_hash::xxh3::hash64(&5u64.to_be_bytes()));
    assert_ne!(hash_u64(5), 5);
    let x: u128 = 0x0102030405060708_090a0b0c0d0e0f10;
    assert_eq!(hash_u128(x), (twox_hash::xxh3::hash64(&x.to_be_bytes()) as u128) << 64);
}

#[test]
fn transactions_encode_their_fields() {
    let tx = Transaction::HelloWorld(1);
    assert_eq!(tx.encode(), vec![0, 0, 0, 0, 0, 0, 0, 0, 1, 0, 0, 0, 0, 0, 0, 0]);
    assert_eq!(tx.id(), twox_hash::xxh3::hash64(&tx.encode()));
    let tx = Transaction::AtomicOnce(0x0102);
    assert_eq!(tx.encode(), vec![4, 0, 0, 0, 0, 0, 0, 0, 2, 1, 0, 0, 0, 0, 0, 0]);
    let r = Transaction::ReflectAndProve(ReflectionData {
        r_chain: 9,
        r_block: 8,
        r_cw: 7,
        weight: 6,
        l_headers: vec![5],
        l_cw: ReflectedCw { cw: 4, blocks: NonEmptyIds::singleton(3) },
    });
    let mut expected: Vec<u8> = vec![];
    for x in [2u64, 9, 8, 7, 6, 1, 5, 4, 3, 0] {
        expected.extend(x.to_le_bytes());
    }
    assert_eq!(r.encode(), expected);
    assert_eq!(r.get_reflected_weight(1, 9), 6);
    assert_eq!(r.get_reflected_weight(1, 2), 0);
    assert_eq!(r.get_reflected_weight2(1), 6);
    assert_eq!(r.get_reflected_weight2(9), 0);
    assert!(r.is_reflect_and_prove());
    assert!(r.is_reflecting(8, 9));
    assert!(!r.is_reflecting(8, 1));
    assert_eq!(r.get_reflecting_r_block(9), Some(8));
    assert_eq!(r.get_reflecting_r_block(1), None);
    assert_eq!(r.get_reflected_l_block(), Some(3));
    assert_eq!(Transaction::HelloWorld(1).get_reflected_l_block(), None);
}

#[test]
fn reflections_add_weight_once() {
    let mut txc = TxCache::new();
    let mut b = Block::genesis(0);
    let tx = Transaction::ReflectAndProve(ReflectionData {
        r_chain: b.get_chain_id() + 1,
        r_block: 0,
        r_cw: 0,
        weight: 50,
        l_headers: vec![],
        l_cw: ReflectedCw { cw: 0, blocks: NonEmptyIds::singleton(b.get_chain_id()) },
    });
    Transaction::set_cached_tx(&mut txc, tx.clone());
    b.add_transactions(vec![tx.id(), tx.id()], &txc);
    assert_eq!(b.get_transactions().len(), 1);
    assert_eq!(b.get_reflected_weight(), 50);
    assert_eq!(b.get_chain_weight(), 50);
    b.add_transaction(tx.id(), &txc);
    assert_eq!(b.get_reflected_weight(), 50);
    assert_eq!(b.calc_reflected_weight(&txc), 50);
    assert_eq!(b.get_total_weight(), 50);
}

// ---- the command line checks ----

#[test]
fn cli_numbers_are_checked() {
    assert_eq!(validate_n_chains("5".to_owned()), Ok(()));
    assert_eq!(validate_n_chains("+999".to_owned()), Ok(()));
    assert_eq!(validate_n_chains("0".to_owned()), Err("0 is outside range (1, 999).".to_owned()));
    assert!(validate_n_chains("abc".to_owned()).is_err());
    assert!(validate_n_chains("70000".to_owned()).is_err());
    assert_eq!(validate_daa2_n_blocks("100".to_owned()), Ok(()));
    assert_eq!(validate_daa2_n_blocks("4".to_owned()), Err("4 is outside range (5, 2000).".to_owned()));
    assert_eq!(num_is_between(3, 3, 3), Ok(()));
    assert_eq!(num_is_between(12, 1, 10), Err("12 is outside range (1, 10).".to_owned()));
}

// ---- collections and small types ----

#[test]
fn collections_behave() {
    let mut s = IdSet::new();
    assert!(s.insert(3));
    assert!(!s.insert(3));
    assert!(s.contains(3));
    assert_eq!(s.len(), 1);
    assert!(s.remove(3));
    assert_eq!(s.len(), 0);
    assert_eq!(unique(&vec![3, 1, 3, 2, 1]), vec![3, 1, 2]);
    assert_eq!(sort_heaviest_first(&vec![(1, 5), (2, 9), (3, 7)]), vec![(2, 9), (3, 7), (1, 5)]);
    let mut h = ChainHeads::new();
    assert_eq!(h.insert(1, 5), None);
    assert_eq!(h.insert(2, 9), None);
    assert_eq!(h.insert(1, 6), Some(5));
    assert_eq!(heads_heaviest_first(&h), vec![2, 1]);
    assert_eq!(h.remove(2), Some(9));
    assert_eq!(h.get(1), Some(6));
    assert!(!h.contains_key(2));
}

#[test]
fn small_types_behave() {
    let a = AttackArgs::new(10, 5, 100);
    assert_eq!(a.end_simulation_at_t, 300);
    assert_eq!(a.total_hr(), 15);
    assert_eq!(AttackArgs::new(u64::MAX, 5, 1).total_hr(), u64::MAX);
    let n = NetworkArgs::new_por(3, 10);
    assert_eq!(n.n_extra_chains(), 9);
    assert_eq!(NetworkArgs::new(3).n_extra_chains(), 0);
    assert_eq!(n.clone_and_set_fixed_d(5).fixed_difficulty, None);
    let mut f = n;
    f.fixed_difficulty = Some(1);
    assert_eq!(f.clone_and_set_fixed_d(5).fixed_difficulty, Some(5));
    assert_eq!(SmChainType::LongestChain.name(), "LongestChain");
    assert_eq!(SmChainType::WeightedDag.name(), "WeightedDag");
    let b = Block::genesis(0);
    let msgs = vec![Msg::MsgBlock(1, b.clone()), Msg::MsgPrivBlock(2, b.clone())];
    assert_eq!(
        msgs_from_into_to(&msgs),
        vec![MsgToNode::MsgBlock(1, b.clone(), false), MsgToNode::MsgBlock(2, b, true)]
    );
}

// ---- syncing the two sides ----

#[test]
fn missing_blocks_are_found_oldest_first() {
    let mut s = setup::<Block, LongestChain<Block>>();
    let b1 = draft(&s, 10, true);
    add(&mut s, &b1, true).unwrap();
    let b2 = draft(&s, 20, true);
    add(&mut s, &b2, true).unwrap();
    let ids: Vec<HashID> = s.chain.find_priv_blocks_not_in_pub(&s.store).iter().map(|b| b.get_hash()).collect();
    assert_eq!(ids, vec![b1.get_hash(), b2.get_hash()]);
    assert_eq!(s.chain.find_pub_blocks_not_in_priv(&s.store).len(), 0);
    let h = s.chain.get_heights_pub_priv(&s.store);
    assert_eq!((h.public, h.private), (0, 2));
    let txs = s.chain.get_all_txs_in_history_of(&s.store, &b2);
    assert_eq!(txs.len(), 0);
    let all = all_prev_iter(&b2, &s.store);
    assert_eq!(all.len(), 3);
}

// ---- nodes ----

#[test]
fn attacker_takes_public_blocks_on_both_sides_before_the_attack() {
    let mut store = BlockStore::new();
    let mut txc = TxCache::new();
    let genesis = Block::genesis(0);
    let net_args = NetworkArgs::new(10);
    let g_md = BlockMD::mk_genesis_md(&genesis, net_args.daa2_n_blocks, &mut store);
    let c = Chain::new(genesis, g_md, net_args, &mut store);
    let chain_id = c.get_chain_id();
    let mut n: Node<SimpleCS> = Node::new(1, c, true, 0, false);
    let b = n.chain.draft_block(&store, &txc, 10, false).test_set_work_bits(30);
    let out = n.step(&mut store, &mut txc, 10, &vec![MsgToNode::MsgBlock(chain_id, b.clone(), false)], false).unwrap();
    // no hash rate: nothing mined
    assert_eq!(out.len(), 0);
    assert!(n.chain.get_best_blocks(false).contains(b.get_hash()));
    assert!(n.chain.get_best_blocks(true).contains(b.get_hash()));
    // after the attack starts a public block stays public
    let b2 = n.chain.draft_block(&store, &txc, 20, false).test_set_work_bits(30);
    n.step(&mut store, &mut txc, 20, &vec![MsgToNode::MsgBlock(chain_id, b2.clone(), false)], true).unwrap();
    assert!(n.chain.get_best_blocks(false).contains(b2.get_hash()));
    assert!(!n.chain.get_best_blocks(true).contains(b2.get_hash()));
}

#[test]
fn honest_node_ignores_private_blocks_and_reports_refusals() {
    let mut store = BlockStore::new();
    let mut txc = TxCache::new();
    let genesis = Block::genesis(0);
    let net_args = NetworkArgs::new(10);
    let g_md = BlockMD::mk_genesis_md(&genesis, net_args.daa2_n_blocks, &mut store);
    let c = Chain::new(genesis, g_md, net_args, &mut store);
    let chain_id = c.get_chain_id();
    let mut n: Node<SimpleCS> = Node::new(0, c, false, 0, false);
    let b = n.chain.draft_block(&store, &txc, 10, false).test_set_work_bits(30);
    n.step(&mut store, &mut txc, 10, &vec![MsgToNode::MsgBlock(chain_id, b.clone(), true)], false).unwrap();
    assert!(!n.chain.get_best_blocks(false).contains(b.get_hash()));
    assert!(!store.contains(b.get_hash()));
    let mut bad = n.chain.draft_block(&store, &txc, 10, false);
    bad.id = u64::MAX;
    let r = n.step(&mut store, &mut txc, 10, &vec![MsgToNode::MsgBlock(chain_id, bad, false)], false);
    assert_eq!(r, Err(por_sim::node::StepErr::Block(ChainErr::BadPoW(u64::MAX, u64::MAX / 1000))));
}

// ---- the weight a block would bring ----

#[test]
fn weight_of_follows_the_fork_rule() {
    let mut s = setup::<DagBlock, HeaviestChain<DagBlock>>();
    let b1 = draft(&s, 10, false);
    let b2 = draft(&s, 10, false);
    add(&mut s, &b1, false).unwrap();
    add(&mut s, &b2, false).unwrap();
    let b3 = draft(&s, 20, false);
    // genesis (0) + the two blocks at height 1 (2000) + the next difficulty (1000)
    assert_eq!(HeaviestChain::<DagBlock>::weight_of(&b3, &s.chain, &s.store), 3000);
    assert_eq!(HeaviestChain::<DagBlock>::por_weight_of(&b3, &s.chain, &s.store, &s.txc), 3000);

    let mut l = setup::<Block, LongestChain<Block>>();
    let c1 = draft(&l, 10, false);
    add(&mut l, &c1, false).unwrap();
    let c2 = draft(&l, 20, false);
    assert_eq!(LongestChain::<Block>::weight_of(&c2, &l.store), 2);
    assert_eq!(LongestChain::<Block>::por_weight_of(&c2, &l.store, &l.txc), 2);
}

// ---- the state beside a chain ----

fn apply(s: &PoRStateIM, pre: PoRStateIM, tx: PoRStateTx) -> PoRStateIM {
    match s.on_tx(pre, tx) {
        Ok(x) => x,
        Err(_) => panic!("state transition refused"),
    }
}

#[test]
fn state_reflects_blocks_and_stores_entries() {
    let s = PoRStateIM::new();
    let s2 = apply(&s, PoRStateIM::new(), PoRStateTx::ReflectBlock { chain_id: 7, block_id: 70 });
    let lc = s2.other_chains.get(&7).unwrap();
    assert!(lc.blocks.contains(&70));
    assert_eq!(lc.blocks.len(), 1);
    assert!(lc.heads.contains(&70));
    assert_eq!(lc.block_frequency, 10);
    assert_eq!(lc.reflection_map.get(&70).unwrap().len(), 0);
    let s3 = apply(&s, s2, PoRStateTx::ReflectBlock { chain_id: 7, block_id: 71 });
    let lc = s3.other_chains.get(&7).unwrap();
    assert_eq!(lc.blocks.len(), 2);
    assert!(lc.heads.contains(&71));
    assert!(s3.other_chains.get(&8).is_none());
    let s4 = apply(&s, s3, PoRStateTx::AddKvStoreEntry { key: 1, value: "x".to_owned() });
    assert_eq!(s4.kv_store.get(&1), Some(&"x".to_owned()));
    assert_eq!(s4.other_chains.len(), 1);
}

#[test]
fn blocks_order_by_height_difficulty_and_id() {
    let mut a = Block::genesis(0);
    a.id = 5;
    let mut b = a.clone();
    assert_eq!(a.cmp(&b), Ordering::Equal);
    b.id = 6;
    assert_eq!(a.cmp(&b), Ordering::Less);
    b.d = 0;
    a.d = 1;
    assert_eq!(a.cmp(&b), Ordering::Greater);
    b.h = 1;
    assert_eq!(a.cmp(&b), Ordering::Less);
}

#[test]
fn validators_name_the_range() {
    assert_eq!(validate_n_chains("999".to_string()), Ok(()));
    assert_eq!(validate_n_chains("1000".to_string()), Err("1000 is outside range (1, 999).".to_string()));
    assert!(validate_n_chains("-1".to_string()).is_err());
    assert_eq!(validate_daa2_n_blocks("2001".to_string()), Err("2001 is outside range (5, 2000).".to_string()));
}

fn sorted_ids(s: &IdSet) -> Vec<u64> {
    let mut v = s.to_vec();
    v.sort();
    v
}

fn chain_state<B: BlockT, F: ForkRules<B>>(s: &Setup<B, F>) -> Vec<Vec<u64>> {
    let mut out = vec![];
    for p in [false, true] {
        out.push(sorted_ids(s.chain.get_best_blocks(p)));
        out.push(sorted_ids(s.chain.get_seen_blocks(p)));
        let mut hs: Vec<u64> = s.chain.get_chain_heads(p).keys();
        hs.sort();
        out.push(hs);
        out.push(sorted_ids(s.chain.get_mempool_tx_ids(p)));
    }
    out
}

#[test]
fn adding_a_block_twice_changes_nothing() {
    let mut s = setup::<DagBlock, HeaviestChain<DagBlock>>();
    let b1 = draft(&s, 10, false);
    add(&mut s, &b1, false).unwrap();
    add(&mut s, &b1, true).unwrap();
    let b2 = draft(&s, 20, false);
    for p in [false, true] {
        add(&mut s, &b2, p).unwrap();
        let before = chain_state(&s);
        let n = s.store.len();
        add(&mut s, &b2, p).unwrap();
        assert_eq!(chain_state(&s), before);
        assert_eq!(s.store.len(), n);
    }
}
