use por_sim::block::{Block, BlockStore, BlockT, DagBlock};
use por_sim::block_metadata::BlockMD;
use por_sim::chain::{Chain, ChainErr};
use por_sim::cryptosystem::{DagCS, SimpleCS};
use por_sim::message_manager::msgs_from_into_to;
use por_sim::msg::{Msg, MsgToNode};
use por_sim::node::Node;
use por_sim::transactions::TxCache;
use por_sim::types::{Difficulty, NetworkArgs};

fn simple_node(store: &mut BlockStore<Block>) -> (Block, Node<SimpleCS>) {
    let genesis = Block::genesis(0);
    let net_args = NetworkArgs::new(10);
    let g_md = BlockMD::mk_genesis_md(&genesis, net_args.daa2_n_blocks, store);
    let c = Chain::new(genesis.clone(), g_md, net_args, store);
    let n: Node<SimpleCS> = Node::new(1337, c, false, 100, false);
    (genesis, n)
}

#[test]
fn block_is_added_to_chain() {
    let mut store = BlockStore::new();
    let mut txc = TxCache::new();
    let (genesis, mut n) = simple_node(&mut store);
    let chain_id = n.chain.get_chain_id();

    // a valid block can be had by mining
    let bs = n.attempt_mining(&mut store, &txc, 10, 30000, false);
    assert_eq!(bs.len() > 0, true, "mined >=1 block");

    // a valid block made by hand
    let mut b = n.chain.draft_block(&store, &txc, 10, false);
    b.id >>= 12;

    assert_eq!(b.prev(), genesis.get_hash());

    let prev_height = n.chain.get_fork_measure_pub_priv(&store).public;
    n.got_block(&mut store, &txc, &b, false).unwrap();

    assert_eq!(n.chain.get_fork_measure_pub_priv(&store).public, prev_height + 1);

    // a public block
    let b2 = n.chain.draft_block(&store, &txc, 19, false).test_set_work_bits(16);
    // taken in after the attack has started
    n.step(&mut store, &mut txc, 20, &vec![MsgToNode::MsgBlock(chain_id, b2.clone(), false)], true).unwrap();
    assert_eq!(n.chain.get_best_blocks(false).contains(b2.get_hash()), true, "b2 in pub blocks");
    assert_eq!(n.chain.get_best_blocks(true).contains(b2.get_hash()), false, "b2 not in priv blocks");
}

#[test]
fn test_block_added_via_notify() {
    let mut store = BlockStore::new();
    let txc = TxCache::new();
    let (_genesis, mut n) = simple_node(&mut store);

    let prev_height = n.chain.get_fork_measure_pub_priv(&store).public;

    // a valid block made by hand
    let b = n.chain.draft_block(&store, &txc, 10, false).test_set_work_bits(16);
    let id = b.get_hash();
    let b_md: Result<BlockMD, ChainErr> = n.chain.validate_block(&mut store, &txc, &b, false);
    store.insert((b, b_md.unwrap()));
    n.notify_of_block(&store, id, false).unwrap();

    assert_eq!(n.chain.get_fork_measure_pub_priv(&store).public, prev_height + 1);
}

#[test]
fn test_por_trivial_case() {
    let mut store: BlockStore<DagBlock> = BlockStore::new();
    let mut txc = TxCache::new();
    let mut ids = vec![];
    let mut nodes: Vec<Node<DagCS>> = vec![];
    for i in 0..2 {
        let g = DagBlock::genesis(0);
        let na = NetworkArgs::new(1);
        let g_md = BlockMD::mk_genesis_md(&g, na.daa2_n_blocks, &mut store);
        let c = Chain::new(g, g_md, na, &mut store);
        ids.push(c.get_chain_id());
        nodes.push(Node::new(i, c, false, 100, false));
    }
    let c1_id = ids[0];
    let c2_id = ids[1];

    let mut msgs_out: Vec<Msg<DagBlock>> = vec![];
    let mut msgs_to: Vec<MsgToNode<DagBlock>> = vec![];
    let mut ts = 1;

    // node 1 mines a block
    while msgs_out.len() == 0 {
        msgs_out.extend(nodes[0].step(&mut store, &mut txc, ts, &msgs_to, false).unwrap());
        ts += 1;
    }

    let n_blocks_1: u32 = msgs_out
        .iter()
        .map(|msg| match msg {
            Msg::MsgBlock(_, _) => 1,
            _ => 0,
        })
        .sum();
    assert_ne!(n_blocks_1, 0);

    for msg in msgs_out.clone() {
        match msg {
            Msg::MsgBlock(c, b) => msgs_to.push(MsgToNode::MsgBlock(c, b, false)),
            _ => (),
        };
    }
    msgs_out.clear();

    // node 2 mines a block
    while msgs_out.len() == 0 {
        msgs_out.extend(nodes[1].step(&mut store, &mut txc, ts, &msgs_to, false).unwrap());
        ts += 1;
    }

    // chain 2 made a block that reflects the chain 1 block
    for msg in msgs_out.clone() {
        match msg {
            Msg::MsgBlock(_, b) => {
                assert_eq!(b.get_txs(&txc)[0].is_reflect_and_prove(), true);
            },
            _ => (),
        }
    }
    let mut msgs_to_new = msgs_from_into_to(&msgs_out);
    msgs_to.extend(msgs_to_new.iter().cloned());
    msgs_out.clear();

    // node 1 mines a block
    while msgs_out.len() == 0 {
        msgs_out.extend(nodes[0].step(&mut store, &mut txc, ts, &msgs_to, false).unwrap());
        ts += 1;
    }
    msgs_to.clear();
    msgs_to.append(&mut msgs_to_new);
    msgs_to_new.append(&mut msgs_from_into_to(&msgs_out));
    msgs_to.extend(msgs_to_new.iter().cloned());

    // chain 1 made a block that reflects the chain 2 block
    for msg in msgs_out.clone() {
        match msg {
            Msg::MsgBlock(_, b) => {
                assert_eq!(b.get_txs(&txc)[0].is_reflect_and_prove(), true);
                assert_ne!(b.get_txs(&txc)[0].get_reflected_weight(c1_id, c2_id), 0);
                assert_ne!(b.get_reflected_weight(), 0);
            },
            _ => (),
        }
    }

    // the block joins chain 1
    let _msgs_out = nodes[0].step(&mut store, &mut txc, ts, &msgs_to, false);
    let b = match &msgs_out[0] {
        Msg::MsgBlock(_, b) => Some(b),
        _ => None,
    }
    .unwrap();

    let b_bmd = store.get(b.get_hash()).unwrap();
    let n_refls = b_bmd.0.get_txs(&txc).len() as Difficulty;
    assert_ne!(n_refls, 0);
    assert_eq!(b_bmd.1.weight * n_refls, b_bmd.1.reflected_weight);
    assert_ne!(b_bmd.1.chain_weight, b_bmd.1.local_chain_weight);
    println!(
        "LCW: {} /= CW: {}\nW: {} == RW: {}",
        b_bmd.1.chain_weight, b_bmd.1.local_chain_weight, b_bmd.1.weight, b_bmd.1.reflected_weight
    );
}

#[test]
fn step_mines_at_most_its_attempts() {
    let mut store = BlockStore::new();
    let mut txc = TxCache::new();
    let genesis = Block::genesis(0);
    let net_args = NetworkArgs::new(10);
    let g_md = BlockMD::mk_genesis_md(&genesis, net_args.daa2_n_blocks, &mut store);
    let c = Chain::new(genesis.clone(), g_md, net_args, &mut store);
    let mut n: Node<SimpleCS> = Node::new(1, c, false, 3, true);
    for ts in 1..50 {
        let out = n.step(&mut store, &mut txc, ts, &vec![], false).unwrap();
        assert!(out.len() <= 3);
        assert!(n.curr_draft_block.is_some());
        for m in out.iter() {
            match m {
                Msg::MsgBlock(_, b) => assert_eq!(b.get_ts(), ts),
                Msg::MsgPrivBlock(_, _) => panic!("an honest node mines in public"),
            }
        }
    }
}
