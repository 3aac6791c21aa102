use std::hash::{Hash, Hasher};
use por_sim::block::{Block, BlockStore, BlockT, DagBlock};
use por_sim::block_metadata::BlockMD;
use por_sim::hash::hash_u128;
use por_sim::transactions::{NonEmptyIds, ReflectedCw, ReflectionData, Transaction, TxCache};

#[test]
fn hash_sha3() {
    let _b = Block::genesis(0);
}

fn check_block<B: BlockT + Clone>(mut b: B) {
    let mut store: BlockStore<B> = BlockStore::new();
    let mut txc = TxCache::new();
    let orig_id = b.get_hash();
    let tx = Transaction::ReflectAndProve(ReflectionData {
        r_chain: orig_id + 1,
        r_block: 0,
        r_cw: 0,
        weight: 222,
        l_headers: vec![orig_id],
        l_cw: ReflectedCw { cw: b.get_chain_weight(), blocks: NonEmptyIds::singleton(orig_id) },
    });
    Transaction::set_cached_tx(&mut txc, tx.clone());
    b.set_difficulty(111);
    let w1 = b.get_difficulty();
    let rw1 = b.get_reflected_weight();
    assert_eq!(w1, 111);
    assert_eq!(rw1, 0);

    b.add_transaction(tx.get_hash(), &txc);
    let w2 = b.get_difficulty();
    let rw2 = b.get_reflected_weight();
    assert_eq!(w2, 111);
    assert_eq!(rw2, 222);

    // the block must be stored for a child to find its height; its metadata does not matter
    let md = BlockMD::mk_genesis_md(&b, 10, &mut store);
    store.insert((b.clone(), md));

    let mut b2 = B::new(
        10,
        b.get_hash(),
        b.get_difficulty(),
        b.get_chain_id(),
        b.get_chain_weight() + b.get_difficulty(),
        &store,
    );
    assert_eq!(b2.get_reflected_weight(), 0);
    let tx2 = Transaction::ReflectAndProve(ReflectionData {
        r_chain: orig_id + 1,
        r_block: 0,
        r_cw: 0,
        weight: 333,
        l_headers: vec![orig_id],
        l_cw: ReflectedCw { cw: b.get_chain_weight(), blocks: NonEmptyIds::singleton(orig_id) },
    });
    Transaction::set_cached_tx(&mut txc, tx2.clone());
    b2.add_transaction(tx2.get_hash(), &txc);
    assert_eq!(b2.get_reflected_weight(), 333);

    let tx3 = Transaction::ReflectAndProve(ReflectionData {
        r_chain: orig_id + 1,
        r_block: 0,
        r_cw: 0,
        weight: 333,
        l_headers: vec![b.get_hash()],
        l_cw: ReflectedCw { cw: b.get_chain_weight(), blocks: NonEmptyIds::singleton(b.get_hash()) },
    });
    Transaction::set_cached_tx(&mut txc, tx3.clone());
    b2.add_transaction(tx3.get_hash(), &txc);
    // a new transaction: the id of `b` changed when it took in a transaction
    assert_eq!(b2.get_reflected_weight(), 666);
}

#[test]
fn adding_por_transaction_updates_header_deets() {
    check_block(Block::genesis(0));
    check_block(DagBlock::genesis(0));
}

#[test]
fn test_hash_u128() {
    hash_u128(0x0);
}

#[test]
fn txs_have_different_hashes() {
    let tx0 = Transaction::HelloWorld(0);
    let tx0_dup = Transaction::HelloWorld(0);
    let tx2 = Transaction::HelloWorld(2);
    assert_ne!(tx0.id(), tx2.id());
    assert_eq!(tx0.id(), tx0_dup.id());

    let tx3 = Transaction::GenesisBalance { account: 123, value: 123 };
    assert_ne!(tx0.id(), tx3.id());

    // the same number as tx0
    let tx_atomic0 = Transaction::AtomicOnce(0);
    let tx_atomic2 = Transaction::AtomicOnce(2);
    assert_ne!(tx0.id(), tx_atomic0.id());
    assert_ne!(tx2.id(), tx_atomic2.id());
    assert_ne!(tx_atomic0.id(), tx_atomic2.id());
}

#[test]
fn reflected_ancestors_are_recorded() {
    fn check<B: BlockT>(mut b: B) {
        assert_eq!(b.get_reflected_ancestors().map(|v| v.len()), Some(0));
        b.add_reflected_ancestor(5, 9);
        b.add_reflected_ancestor(6, 9);
        let v = b.get_reflected_ancestors().unwrap();
        assert_eq!(v, &vec![(5, 9), (6, 9)]);
    }
    check(Block::genesis(0));
    check(DagBlock::genesis(0));
}

/// The id of a transaction is what its derived `Hash` writes into a default XXH3 hasher.
#[test]
fn tx_id_is_the_xxh3_of_its_hash_stream() {
    fn streamed(tx: &Transaction) -> u64 {
        let mut h: twox_hash::Xxh3Hash64 = Default::default();
        tx.hash(&mut h);
        h.finish()
    }
    let txs = vec![
        Transaction::HelloWorld(7),
        Transaction::SendFromTo { from: 1, to: 2, value: 3 },
        Transaction::GenesisBalance { account: 4, value: 5 },
        Transaction::AtomicOnce(9),
        Transaction::ReflectAndProve(ReflectionData {
            r_chain: 11,
            r_block: 12,
            r_cw: 13,
            weight: 14,
            l_headers: vec![15, 16, 17],
            l_cw: ReflectedCw { cw: 18, blocks: NonEmptyIds { first: 19, rest: vec![20, 21] } },
        }),
        Transaction::ReflectAndProve(ReflectionData {
            r_chain: 1,
            r_block: 2,
            r_cw: 3,
            weight: 4,
            l_headers: (0..40).collect(),
            l_cw: ReflectedCw { cw: 5, blocks: NonEmptyIds::singleton(6) },
        }),
    ];
    for tx in txs.iter() {
        assert_eq!(tx.get_hash(), streamed(tx));
    }
}
