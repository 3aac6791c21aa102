use por_sim::block::{Block, BlockStore, BlockT};
use por_sim::block_metadata::BlockMD;
use por_sim::chain::fork_rules::LongestChain;
use por_sim::chain::{Chain, ChainErr};
use por_sim::cryptosystem::SimpleCS;
use por_sim::msg::MsgToNode;
use por_sim::strategies::relay::{RelayStrategyT, SelfishMining, SelfishMiningParams, SmChainType, SmCounts};
use por_sim::transactions::TxCache;
use por_sim::types::NetworkArgs;

struct Sm {
    sm: SelfishMining<SimpleCS>,
    c: Chain<Block, LongestChain<Block>>,
    store: BlockStore<Block>,
    txc: TxCache,
}

fn create_sm() -> Sm {
    let genesis = Block::genesis(0);
    let net_args = NetworkArgs::new(10);
    let mut store = BlockStore::new();
    let g_md = BlockMD::mk_genesis_md(&genesis, net_args.daa2_n_blocks, &mut store);
    let c = Chain::new(genesis, g_md, net_args, &mut store);
    let sm = SelfishMining::init(&c, 0, SelfishMiningParams { chain_type: SmChainType::LongestChain });
    Sm { sm, c, store, txc: TxCache::new() }
}

impl Sm {
    fn draft(&self, ts: u32, is_private: bool) -> Block {
        self.c.draft_block(&self.store, &self.txc, ts, is_private).test_set_work_bits(16)
    }

    fn on_msg(&mut self, b: &Block, is_private: bool) -> Vec<MsgToNode<Block>> {
        let m = MsgToNode::MsgBlock(self.c.get_chain_id(), b.clone(), is_private);
        self.sm.on_msg(&self.store, &m, &self.c)
    }

    fn add(&mut self, b: &Block, is_private: bool) -> Result<(), ChainErr> {
        self.c.add_block(&mut self.store, &self.txc, b.clone(), is_private)
    }

    fn results(&self) -> SmCounts {
        self.sm.get_results(&self.store, &self.c).unwrap()
    }
}

fn ratio_priv_blocks_mined(w: &SmCounts) -> f64 {
    w.n_priv_blocks as f64 / (w.n_priv_blocks + w.n_pub_blocks) as f64
}

fn ratio_priv_blocks_in_chain(w: &SmCounts) -> f64 {
    w.chain_priv_count as f64 / (w.chain_priv_count + w.chain_pub_count) as f64
}

#[test]
fn test_selfish_mining_pub_priv_priv_priv_pub_pub() {
    let mut s = create_sm();
    let chain_id = s.c.get_chain_id();

    // a public block
    let b1 = s.draft(10, false);
    let sm_msgs = s.on_msg(&b1, false);
    assert_eq!(sm_msgs, vec![MsgToNode::MsgBlock(chain_id, b1.clone(), true)]);
    // what the messages call for
    s.add(&b1, false).unwrap();
    s.add(&b1, true).unwrap();

    // a private block (lead=1)
    let b2 = s.draft(20, true);
    let sm_msgs = s.on_msg(&b2, true);
    assert_eq!(sm_msgs, vec![]);
    s.add(&b2, true).unwrap();

    // another private block (lead=2)
    let b3 = s.draft(30, true);
    let sm_msgs = s.on_msg(&b3, true);
    // a private block calls for messages only when there are 2 valid heads (1 public, 1 private)
    assert_eq!(sm_msgs, vec![], "don't publish on new priv block b/c we don't need to");
    s.add(&b3, true).unwrap();

    // another private block (lead=3)
    let b4 = s.draft(40, true);
    let sm_msgs = s.on_msg(&b4, true);
    assert_eq!(sm_msgs, vec![], "don't publish on new priv block b/c we don't need to");
    s.add(&b4, true).unwrap();

    // a public block (lead=2)
    let b5 = s.draft(41, false);
    let sm_msgs = s.on_msg(&b5, false);
    // a public block was published: publish a competing private block
    assert_eq!(sm_msgs, vec![MsgToNode::MsgBlock(chain_id, b2.clone(), false)], "publish priv on new pub block");
    s.add(&b5, false).unwrap();
    s.add(&b2, false).unwrap();

    // another private block, then a public block
    let b5a = s.draft(45, true);
    let sm_msgs = s.on_msg(&b5a, true);
    assert_eq!(sm_msgs, vec![]);
    s.add(&b5a, true).unwrap();

    let b5b = s.draft(45, false);
    let sm_msgs = s.on_msg(&b5b, false);
    assert_eq!(sm_msgs, vec![MsgToNode::MsgBlock(chain_id, b3.clone(), false)]);
    s.add(&b3, false).unwrap();
    s.add(&b5b, false).unwrap();

    // a public block (lead=1)
    let b6 = s.draft(51, false);
    let sm_msgs = s.on_msg(&b6, false);
    // a public block was published: publish every competing private block
    assert_eq!(
        sm_msgs,
        vec![MsgToNode::MsgBlock(chain_id, b4.clone(), false), MsgToNode::MsgBlock(chain_id, b5a.clone(), false)],
        "publish ALL priv on new pub block with lead=1"
    );
    s.add(&b6, false).unwrap();
    s.add(&b4, false).unwrap();
    s.add(&b5a, false).unwrap();

    assert_eq!(
        s.c.get_best_blocks(false).to_vec(),
        vec![b5a.get_hash()],
        "previously private block is exclusively winning on public chain"
    );

    let w = s.results();
    println!("W: {:?}", w);
    assert_eq!(ratio_priv_blocks_mined(&w), 0.5, "50% of blocks mined were priv");
    assert_eq!(ratio_priv_blocks_in_chain(&w), 4. / 5., "80% of blocks in chain were priv");
}

#[test]
fn test_selfish_mining_pub_priv_pub_priv() {
    let mut s = create_sm();
    let chain_id = s.c.get_chain_id();

    // a public block
    let b1 = s.draft(10, false);
    let sm_msgs = s.on_msg(&b1, false);
    assert_eq!(
        sm_msgs,
        vec![MsgToNode::MsgBlock(chain_id, b1.clone(), true)],
        "public block relayed to private chain"
    );
    s.add(&b1, false).unwrap();
    s.add(&b1, true).unwrap();
    println!("Added b1 to both chains");

    // a private block (lead=1)
    let b2 = s.draft(20, true);
    let sm_msgs = s.on_msg(&b2, true);
    assert_eq!(sm_msgs, vec![], "no new msgs on this priv block");
    s.add(&b2, true).unwrap();
    println!("Added b2 to priv chain");

    // a public block (lead=0, but a fork)
    let b2a = s.draft(20, false);
    let sm_msgs = s.on_msg(&b2a, false);
    assert_eq!(
        sm_msgs,
        vec![MsgToNode::MsgBlock(chain_id, b2.clone(), false)],
        "publish priv block so that we have 2 competing heads"
    );
    s.add(&b2a, false).unwrap();
    println!("Added b2a to pub chain");

    assert_eq!(
        s.c.get_chain_heads(false).contains_key(b2.get_hash()),
        false,
        "public chain should not know about b2 yet"
    );

    // another private block (lead=0->1, resolves the fork)
    let b3 = s.draft(30, true);
    assert_eq!(b3.prev(), b2.get_hash(), "this private block should build on the private chain only.");
    let sm_msgs = s.on_msg(&b3, true);
    // a private block calls for messages only when there are 2 valid heads (1 public, 1 private)
    assert_eq!(
        sm_msgs,
        vec![MsgToNode::MsgBlock(chain_id, b2.clone(), false), MsgToNode::MsgBlock(chain_id, b3.clone(), false)],
        "publish better priv block immediately to resolve fork"
    );
    s.add(&b2, false).unwrap();
    s.add(&b3, true).unwrap();
    s.add(&b3, false).unwrap();
    println!("Added b2 to pub chain + b3 to both chains");

    assert_eq!(
        s.c.get_best_blocks(false).to_vec(),
        vec![b3.get_hash()],
        "previously private block is exclusively winning on public chain"
    );

    let w = s.results();
    println!("W: {:?}", w);
    assert_eq!(ratio_priv_blocks_mined(&w), 0.5, "50% of blocks mined were priv");
    assert_eq!(ratio_priv_blocks_in_chain(&w), 2. / 3., "66% of blocks in chain were priv");
}

#[test]
fn test_selfish_mining_priv_pub_pub() {
    let mut s = create_sm();
    let chain_id = s.c.get_chain_id();

    // a private block
    let b2 = s.draft(20, true);
    let sm_msgs = s.on_msg(&b2, true);
    assert_eq!(sm_msgs, vec![], "no new msgs on this priv block");
    s.add(&b2, true).unwrap();
    println!("Added b2 to priv chain");

    // a public block (lead=0, but a fork)
    let b2a = s.draft(20, false);
    let sm_msgs = s.on_msg(&b2a, false);
    assert_eq!(
        sm_msgs,
        vec![MsgToNode::MsgBlock(chain_id, b2.clone(), false)],
        "publish priv block so that we have 2 competing heads"
    );
    s.add(&b2a, false).unwrap();
    println!("Added b2a to pub chain");

    assert_eq!(
        s.c.get_chain_heads(false).contains_key(b2.get_hash()),
        false,
        "public chain should not know about b2 yet"
    );
    assert_eq!(
        s.c.get_chain_heads(true).contains_key(b2a.get_hash()),
        false,
        "priv chain should not know about b2a yet"
    );

    // another public block (wins the fork)
    let b3a = s.draft(30, false);
    assert_eq!(b3a.prev(), b2a.get_hash(), "this pub block should build on the pub chain only.");
    let sm_msgs = s.on_msg(&b3a, false);
    assert_eq!(
        sm_msgs,
        vec![MsgToNode::MsgBlock(chain_id, b2a.clone(), true), MsgToNode::MsgBlock(chain_id, b3a.clone(), true)],
        "publish pub blocks to priv chain b/c pub won"
    );
    s.add(&b2a, true).unwrap();
    s.add(&b3a, true).unwrap();
    println!("Added b2a,b3a to priv chains");

    assert_eq!(s.c.get_best_blocks(true).to_vec(), vec![b3a.get_hash()], "pub block is exclusively");
}
