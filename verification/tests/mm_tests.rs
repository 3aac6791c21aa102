use std::collections::{HashMap, HashSet};

use por_sim::block::{all_prev_iter_excluding, BlockT, DagBlock};
use por_sim::collections::IdSet;
use por_sim::cryptosystem::{CSystemT, DagCS, SimpleCS};
use por_sim::message_manager::{AttackArgs, MM};
use por_sim::msg::Msg;
use por_sim::strategies::relay::{DoubleSpendParams, DoubleSpendStrat};
use por_sim::transactions::{Transaction, TxId};
use por_sim::types::{Difficulty, HashID, NetworkArgs, RandHrMethod};

/// The hash rates of the extra chains when hash rate is spread evenly: each extra chain gets
/// the main chain's honest and attacking hash rates.
fn uniform_extra_hrs(args: &AttackArgs, net_args: &NetworkArgs) -> Vec<(Difficulty, Difficulty)> {
    if net_args.por_chains <= 1 {
        return vec![];
    }
    let avg_hr_per_chain = args.attacker_hr + args.honest_hr;
    let honest_ratio: f32 = (args.honest_hr as f32) / (avg_hr_per_chain as f32);
    (1..net_args.por_chains)
        .map(|_| {
            let hpt = avg_hr_per_chain as f32 as u32;
            let honest_hr = (hpt as f32 * honest_ratio) as u64;
            let attacker_hr = (hpt as f32 * (1.0 - honest_ratio)) as u64;
            (honest_hr, attacker_hr)
        })
        .collect()
}

fn mk_mm<S: CSystemT>(args: AttackArgs, params: DoubleSpendParams, net_args: NetworkArgs) -> MM<S, DoubleSpendStrat<S>> {
    let hrs = uniform_extra_hrs(&args, &net_args);
    MM::new(args, params, net_args, &hrs)
}

fn create_mm_no_priv<S: CSystemT>() -> MM<S, DoubleSpendStrat<S>> {
    mk_mm(AttackArgs::new(1000, 0, 100), DoubleSpendParams::new(100, 20), NetworkArgs::new(10))
}

fn create_mm_multichain_no_priv<S: CSystemT>() -> MM<S, DoubleSpendStrat<S>> {
    mk_mm(
        AttackArgs::new(1000, 0, 10000),
        DoubleSpendParams::new(10000, 20),
        NetworkArgs {
            block_target: 3,
            daa2_n_blocks: 100,
            fixed_difficulty: None,
            por_chains: 10,
            random_hr_distrib: false,
            rand_hr_incl_main: false,
            rand_hr_method: RandHrMethod::TwinUniform,
        },
    )
}

fn ensure_chain_progress<S: CSystemT>(mm: &MM<S, DoubleSpendStrat<S>>) {
    let hs = mm.chain().get_fork_measure_pub_priv(&mm.store);

    assert_ne!(hs.public, 0);
    assert_eq!(hs.private, 0);

    for node in vec![&mm.honest_node, &mm.attacker_node] {
        println!("baseline: {:?}, this node: {:?}", hs, node.chain.get_fork_measure_pub_priv(&mm.store));
        assert_eq!(node.chain.get_fork_measure_pub_priv(&mm.store).public, hs.public);
    }
}

fn ensure_chains_progress<S: CSystemT>(mm: &MM<S, DoubleSpendStrat<S>>) {
    for ecn in mm.extra_chain_nodes.iter() {
        let c = &ecn.honest.chain;
        let hs = c.get_fork_measure_pub_priv(&mm.store);

        assert_ne!(hs.public, 0);
        assert_eq!(hs.private, 0);

        for node in vec![&ecn.honest, &ecn.attacker] {
            println!("baseline: {:?}, this node: {:?}", hs, node.chain.get_fork_measure_pub_priv(&mm.store));
            assert_eq!(node.chain.get_fork_measure_pub_priv(&mm.store).public, hs.public);
        }
    }
}

#[test]
fn blocks_propagate() {
    let mut mm = create_mm_no_priv::<SimpleCS>();
    let all_msgs = mm.tick_many(10).unwrap();

    assert_eq!(all_msgs.len() > 0, true);

    ensure_chain_progress(&mm);
}

#[test]
fn mm_with_vanilla_block() {
    let mut mm = create_mm_no_priv::<SimpleCS>();
    mm.tick_many(20).unwrap();
    ensure_chain_progress(&mm);
}

#[test]
fn mm_with_dag_block() {
    let mut mm = create_mm_no_priv::<DagCS>();
    mm.tick_many(20).unwrap();
    ensure_chain_progress(&mm);
}

#[test]
fn run_attack_test() {
    let mut mm = create_mm_no_priv::<DagCS>();
    mm.run_attack().unwrap();
    ensure_chain_progress(&mm);
}

#[test]
fn mm_with_dag_block_has_many_parents() {
    let mut mm = create_mm_no_priv::<DagCS>();
    let chain_id = mm.chain().get_chain_id();

    // a timestamp far in the future, clear of the difficulty adjustment
    let t1_ts = 1000;
    mm.check_and_set_atk_start_h(t1_ts);
    let mut msgs = mm.tick(t1_ts, vec![]).unwrap();

    // 2 DAG blocks
    let b_h1_1 = mm.chain().draft_block(&mm.store, &mm.tx_cache, t1_ts, false).test_set_work_bits(24);
    let b_h1_2 = mm.chain().draft_block(&mm.store, &mm.tx_cache, t1_ts, false).test_set_work_bits(24);
    msgs.extend(vec![Msg::MsgBlock(chain_id, b_h1_1), Msg::MsgBlock(chain_id, b_h1_2)]);

    assert_eq!(msgs.len() > 1, true, "we made at least two blocks on the first tick: {:?}", msgs);

    // the best block has exactly 1 parent (the genesis block)
    let bb = &mm.store.get(mm.chain().select_best_block(false)).unwrap().0;
    assert_ne!(bb.parents.len(), 0);
    assert_eq!(bb.parents.len(), 1);

    // the blocks of tick 1 are added, and new blocks made (not added yet)
    let t2_ts = 1200;
    mm.check_and_set_atk_start_h(t2_ts);
    let mut msgs = mm.tick(t2_ts, msgs).unwrap();
    if msgs.len() == 0 {
        let mut b = mm.chain().draft_block(&mm.store, &mm.tx_cache, t2_ts, false);
        b.id >>= 30;
        msgs.push(Msg::MsgBlock(chain_id, b));
    }

    // the blocks of the last tick are added
    let _msgs = mm.tick(1300, msgs).unwrap();

    let bb = mm.store.get(mm.chain().select_best_block(false)).unwrap();
    let best: Vec<(HashID, u32, usize)> = mm
        .chain()
        .get_best_blocks_md(&mm.store, false)
        .iter()
        .map(|(i, b)| (*i, b.1.height, b.0.parents.len()))
        .collect();
    println!("best blocks: {:#?}", best);
    assert_eq!(bb.1.height, 2);
    assert_ne!(bb.0.parents.len(), 0);
    assert_ne!(bb.0.parents.len(), 1);
}

#[test]
fn mm_init_with_multiple_chains() {
    let mm = create_mm_multichain_no_priv::<DagCS>();
    assert_eq!(mm.extra_chain_nodes.len(), 9);
}

#[test]
fn mm_multichain_progress() {
    let mut mm = create_mm_multichain_no_priv::<DagCS>();
    mm.tick_many(30).unwrap();
    ensure_chain_progress(&mm);
    ensure_chains_progress(&mm);
}

fn history_txs(mm: &MM<DagCS, DoubleSpendStrat<DagCS>>, b: &DagBlock) -> Vec<TxId> {
    let mut txs: Vec<TxId> = vec![];
    for id in all_prev_iter_excluding(b, &mm.store, &IdSet::new()) {
        txs.extend(mm.store.get(id).unwrap().0.get_transactions().iter().cloned());
    }
    txs
}

#[test]
fn mm_multichain_blocks_get_reflected() {
    let mut mm = create_mm_multichain_no_priv::<DagCS>();
    mm.tick_many(30).unwrap();
    let bb = mm.chain().get_any_best_block(&mm.store, false);
    let txs = history_txs(&mm, &bb.0);
    let n_refl_txs = txs
        .iter()
        .filter(|&&id| Transaction::get_cached_tx(&mm.tx_cache, id).unwrap().is_reflect_and_prove())
        .count();
    assert_ne!(n_refl_txs, 0);
}

#[test]
fn mm_multichain_por_added_to_chain_weight() {
    let mut mm = create_mm_multichain_no_priv::<DagCS>();
    let chain_id = mm.chain().get_chain_id();

    mm.tick_many(150).unwrap();

    let chain = mm.chain();
    let bb = chain.get_any_best_block(&mm.store, false);
    let chain_remote = &mm.extra_chain_nodes.first().unwrap().honest.chain;
    let chain_remote_id = chain_remote.get_chain_id();
    let bb_remote = chain_remote.get_any_best_block(&mm.store, false);

    let refl_counts: Vec<usize> = all_prev_iter_excluding(&bb.0, &mm.store, &IdSet::new())
        .iter()
        .map(|id| {
            mm.store
                .get(*id)
                .unwrap()
                .0
                .get_txs(&mm.tx_cache)
                .iter()
                .map(|tx| tx.get_reflected_l_blocks().map(|rlbs| rlbs.len()).unwrap_or(0))
                .sum()
        })
        .collect();
    let refl_avg: f32 = refl_counts.iter().sum::<usize>() as f32 / refl_counts.len() as f32;
    assert!(refl_avg > 2.0);
    assert!(refl_avg < 20.0);

    let b_id_at_h3 = chain
        .find_lca_and_intermediates(&mm.store, &vec![bb.0.get_hash(), chain_id])
        .unwrap()
        .1
        .get(&3)
        .unwrap()
        .iter()
        .cloned()
        .next()
        .unwrap()
        .id;

    let bb_height = bb.0.get_height();
    assert!(bb_height > 3);
    assert!(bb_height > 6, "should have many blocks above this one");

    let mut txs_remote: Vec<Transaction> = vec![];
    let mut remote_txid_to_r_blocks: HashMap<TxId, Vec<HashID>> = HashMap::new();
    for id in all_prev_iter_excluding(&bb_remote.0, &mm.store, &IdSet::new()) {
        let b = &mm.store.get(id).unwrap().0;
        let txs: Vec<Transaction> = b.get_txs(&mm.tx_cache).into_iter().cloned().collect();
        for tx in &txs {
            remote_txid_to_r_blocks.entry(tx.get_hash()).or_insert_with(Vec::new).push(b.get_hash());
        }
        txs_remote.extend(txs);
    }
    assert_ne!(txs_remote.len(), 0);

    let mut seen: HashSet<TxId> = HashSet::new();
    let unique_remote: Vec<&Transaction> = txs_remote.iter().filter(|tx| seen.insert(tx.get_hash())).collect();

    let n_refl_txs = unique_remote.iter().filter(|tx| tx.is_reflecting(b_id_at_h3, chain_id)).count();
    let a_refl_tx = unique_remote.iter().find(|tx| tx.is_reflect_and_prove()).unwrap();
    let blocks_including = remote_txid_to_r_blocks.get(&a_refl_tx.get_hash());
    println!("\n\nincluded in blocks: {:?}", blocks_including);
    assert_ne!(n_refl_txs, 0, "should have some other chains reflecting b_id_at_h3");

    let total_rw: Difficulty = txs_remote.iter().map(|tx| tx.get_reflected_weight2(chain_remote_id)).sum();
    assert_ne!(total_rw, 0);

    assert_ne!(
        bb.1.chain_weight, bb.1.local_chain_weight,
        "PoR should mean chain_weight and local_chain_weight are different"
    );
    println!("cw: {}, lcw: {}", bb.1.chain_weight, bb.1.local_chain_weight);

    let lcw: Difficulty = all_prev_iter_excluding(&bb.0, &mm.store, &IdSet::new())
        .iter()
        .map(|id| mm.store.get(*id).unwrap().0.get_difficulty())
        .sum();
    assert_eq!(lcw, bb.1.local_chain_weight);

    assert!(
        bb.1.chain_weight > 5 * bb.1.local_chain_weight,
        "reflected weight should be at least 5x (expected 10x long-term)"
    );
}


#[test]
fn tick_many_zero_ticks_sends_nothing() {
    let mut mm = create_mm_no_priv::<SimpleCS>();
    let all_msgs = mm.tick_many(0).unwrap();
    assert_eq!(all_msgs.len(), 0);
}

#[test]
fn tick_on_no_messages_succeeds() {
    let mut mm = create_mm_no_priv::<SimpleCS>();
    assert!(mm.tick(1, vec![]).is_ok());
    assert!(mm.tick(2, vec![]).is_ok());
}
