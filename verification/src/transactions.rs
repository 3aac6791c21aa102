use vstd::prelude::*;
use std::collections::HashMap;
use crate::types::{Difficulty, HashID};
use crate::hash::{le_bytes_u64, push_le_u64, xxh3_64};

verus! {

broadcast use vstd::std_specs::hash::group_hash_axioms;

pub type TxId = u64;

pub type TxInCache = Transaction;

/// A list of ids that holds at least one id: `first`, then `rest`.
#[derive(Debug, Clone, PartialEq, Eq, PartialOrd, Hash)]
pub struct NonEmptyIds {
    pub first: HashID,
    pub rest: Vec<HashID>,
}

impl NonEmptyIds {
    pub open spec fn view(&self) -> Seq<HashID> {
        seq![self.first] + self.rest@
    }

    /// The list holding only `id`.
    pub fn singleton(id: HashID) -> (r: NonEmptyIds)
        ensures
            r@ == seq![id],
            r.first == id,
    {
        let r = NonEmptyIds { first: id, rest: Vec::new() };
        assert(r@ =~= seq![id]);
        r
    }
}

/// The best reflected chain weight and the L blocks that carry it.
#[derive(Debug, Clone, PartialEq, Eq, PartialOrd, Hash)]
pub struct ReflectedCw {
    pub cw: Difficulty,
    pub blocks: NonEmptyIds,
}

#[derive(Debug, Clone, PartialEq, Eq, PartialOrd, Hash)]
pub struct ReflectionData {
    /// the reflecting chain
    pub r_chain: HashID,
    /// the reflecting block
    pub r_block: HashID,
    /// the chain_work of the R block
    pub r_cw: Difficulty,
    /// the weight of the reflection
    pub weight: Difficulty,
    /// L headers being reflected
    pub l_headers: Vec<HashID>,
    /// highest reflected l blocks
    pub l_cw: ReflectedCw,
}

#[derive(Debug, Clone, PartialEq, Eq, PartialOrd, Hash)]
pub enum Transaction {
    /// Trivial transaction (for testing)
    HelloWorld(u64),
    /// Normal transaction type
    SendFromTo { from: u64, to: u64, value: u64 },
    /// Tx for reflecting other blocks
    ReflectAndProve(ReflectionData),
    /// Load some balances in the genesis block (this tx should be invalid outside the genesis block)
    GenesisBalance { account: u64, value: u64 },
    /// Used to check doublespends
    AtomicOnce(u64),
}

/// The little-endian bytes of each element of `s`, in order.
pub open spec fn seq_le_bytes(s: Seq<u64>) -> Seq<u8>
    decreases s.len(),
{
    if s.len() == 0 {
        Seq::empty()
    } else {
        seq_le_bytes(s.drop_last()) + le_bytes_u64(s.last())
    }
}

/// A list of ids as bytes: its length, then its elements.
pub open spec fn ids_bytes(s: Seq<u64>) -> Seq<u8> {
    le_bytes_u64(s.len() as u64) + seq_le_bytes(s)
}

/// The bytes that identify a transaction: the number of its kind, then its fields in order,
/// each number in 8 little-endian bytes, each list as its length and then its elements, a
/// non-empty list as its first element and then the list of the others. On a 64-bit
/// little-endian machine these are the bytes the transaction's derived `Hash` writes.
pub open spec fn tx_bytes(tx: Transaction) -> Seq<u8> {
    match tx {
        Transaction::HelloWorld(n) => le_bytes_u64(0) + le_bytes_u64(n),
        Transaction::SendFromTo { from, to, value } => le_bytes_u64(1) + le_bytes_u64(from)
            + le_bytes_u64(to) + le_bytes_u64(value),
        Transaction::ReflectAndProve(r) => le_bytes_u64(2) + le_bytes_u64(r.r_chain)
            + le_bytes_u64(r.r_block) + le_bytes_u64(r.r_cw) + le_bytes_u64(r.weight)
            + ids_bytes(r.l_headers@) + le_bytes_u64(r.l_cw.cw) + le_bytes_u64(r.l_cw.blocks.first)
            + ids_bytes(r.l_cw.blocks.rest@),
        Transaction::GenesisBalance { account, value } => le_bytes_u64(3) + le_bytes_u64(account)
            + le_bytes_u64(value),
        Transaction::AtomicOnce(n) => le_bytes_u64(4) + le_bytes_u64(n),
    }
}

/// The id of a transaction: the XXH3 hash of its bytes.
pub open spec fn spec_tx_id(tx: Transaction) -> TxId {
    xxh3_64(tx_bytes(tx))
}

/// The weight that a transaction reflects onto chain `l_chain_id`.
pub open spec fn spec_reflected_weight2(tx: Transaction, l_chain_id: HashID) -> Difficulty {
    match tx {
        Transaction::ReflectAndProve(r) => if r.r_chain == l_chain_id {
            0
        } else {
            r.weight
        },
        _ => if l_chain_id == 0 {
            0
        } else {
            0
        },
    }
}

/// The reflected L block a reflection vouches for: the first of its highest reflected L
/// blocks (the L chain's genesis where it reflects none).
pub open spec fn spec_reflected_l_block(tx: Transaction) -> Option<HashID> {
    match tx {
        Transaction::ReflectAndProve(r) => Some(r.l_cw.blocks.first),
        _ => None,
    }
}

/// Appends the bytes of each element of `v` to `buf`.
fn push_seq_le(buf: &mut Vec<u8>, v: &Vec<u64>)
    ensures
        final(buf)@ == old(buf)@ + seq_le_bytes(v@),
{
    let mut i: usize = 0;
    while i < v.len()
        invariant
            i <= v.len(),
            buf@ == old(buf)@ + seq_le_bytes(v@.take(i as int)),
        decreases v.len() - i,
    {
        push_le_u64(buf, v[i]);
        proof {
            assert(v@.take(i + 1).drop_last() =~= v@.take(i as int));
            assert(buf@ =~= old(buf)@ + seq_le_bytes(v@.take(i + 1)));
        }
        i += 1;
    }
    assert(v@.take(v.len() as int) =~= v@);
}

/// Appends the bytes of the list `v`, length first, to `buf`.
fn push_ids(buf: &mut Vec<u8>, v: &Vec<u64>)
    ensures
        final(buf)@ == old(buf)@ + ids_bytes(v@),
{
    push_le_u64(buf, v.len() as u64);
    push_seq_le(buf, v);
    assert(buf@ =~= old(buf)@ + ids_bytes(v@));
}

/// The store of transactions, each under its id.
pub struct TxCache {
    txs: HashMap<TxId, Transaction>,
}

impl TxCache {
    pub closed spec fn view(&self) -> Map<TxId, Transaction> {
        self.txs@
    }

    /// An empty store.
    pub fn new() -> (r: TxCache)
        ensures
            r@ == Map::<TxId, Transaction>::empty(),
    {
        TxCache { txs: HashMap::new() }
    }
}

impl Transaction {
    /// The bytes of the transaction (see [`tx_bytes`]).
    pub fn encode(&self) -> (r: Vec<u8>)
        ensures
            r@ == tx_bytes(*self),
    {
        let mut buf: Vec<u8> = Vec::new();
        match self {
            Transaction::HelloWorld(n) => {
                push_le_u64(&mut buf, 0);
                push_le_u64(&mut buf, *n);
            },
            Transaction::SendFromTo { from, to, value } => {
                push_le_u64(&mut buf, 1);
                push_le_u64(&mut buf, *from);
                push_le_u64(&mut buf, *to);
                push_le_u64(&mut buf, *value);
            },
            Transaction::ReflectAndProve(r) => {
                push_le_u64(&mut buf, 2);
                push_le_u64(&mut buf, r.r_chain);
                push_le_u64(&mut buf, r.r_block);
                push_le_u64(&mut buf, r.r_cw);
                push_le_u64(&mut buf, r.weight);
                push_ids(&mut buf, &r.l_headers);
                push_le_u64(&mut buf, r.l_cw.cw);
                push_le_u64(&mut buf, r.l_cw.blocks.first);
                push_ids(&mut buf, &r.l_cw.blocks.rest);
            },
            Transaction::GenesisBalance { account, value } => {
                push_le_u64(&mut buf, 3);
                push_le_u64(&mut buf, *account);
                push_le_u64(&mut buf, *value);
            },
            Transaction::AtomicOnce(n) => {
                push_le_u64(&mut buf, 4);
                push_le_u64(&mut buf, *n);
            },
        }
        assert(buf@ =~= tx_bytes(*self));
        buf
    }

    pub fn id(&self) -> (r: TxId)
        ensures
            r == spec_tx_id(*self),
    {
        self.get_hash()
    }

    /// The XXH3 hash of the transaction's bytes.
    pub fn get_hash(&self) -> (r: TxId)
        ensures
            r == spec_tx_id(*self),
    {
        let bytes = self.encode();
        crate::hash::xxh3_of(bytes.as_slice())
    }

    pub fn get_cached_tx(cache: &TxCache, id: TxId) -> (r: Option<&Transaction>)
        ensures
            match r {
                Some(tx) => cache@.contains_key(id) && *tx == cache@[id],
                None => !cache@.contains_key(id),
            },
    {
        cache.txs.get(&id)
    }

    /// Stores `tx` under its id.
    pub fn set_cached_tx(cache: &mut TxCache, tx: TxInCache)
        ensures
            final(cache)@ == old(cache)@.insert(spec_tx_id(tx), tx),
    {
        let tx_id = tx.get_hash();
        cache.txs.insert(tx_id, tx);
    }

    pub fn get_reflection_data(&self) -> (r: Option<&ReflectionData>)
        ensures
            match *self {
                Transaction::ReflectAndProve(d) => r == Some(&d),
                _ => r is None,
            },
    {
        match self {
            Transaction::ReflectAndProve(r) => Some(r),
            _ => None,
        }
    }

    /// The weight of a reflection made by chain `r_chain_id` (0 for any other transaction).
    pub fn get_reflected_weight(&self, l_chain_id: HashID, r_chain_id: HashID) -> (r: Difficulty)
        ensures
            r == (match *self {
                Transaction::ReflectAndProve(d) => if d.r_chain == r_chain_id {
                    d.weight
                } else {
                    0
                },
                _ => 0,
            }),
    {
        match self.get_reflection_data() {
            Some(r) => if r.r_chain == r_chain_id {
                r.weight
            } else {
                0
            },
            None => 0,
        }
    }

    /// For reflection txs; recorded in L chain.
    /// tx.chain == R chain ID: the weight counts unless the reflection is of the chain itself.
    pub fn get_reflected_weight2(&self, l_chain_id: HashID) -> (r: Difficulty)
        ensures
            r == spec_reflected_weight2(*self, l_chain_id),
    {
        let (r_chain_id, weight) = match self.get_reflection_data() {
            Some(r) => (r.r_chain, r.weight),
            None => (0, 0),
        };
        if l_chain_id == r_chain_id {
            0
        } else {
            weight
        }
    }

    pub fn is_reflect_and_prove(&self) -> (r: bool)
        ensures
            r == (*self is ReflectAndProve),
    {
        match self {
            Transaction::ReflectAndProve(_) => true,
            _ => false,
        }
    }

    pub fn is_reflecting(&self, r_b: HashID, r_chain_id: HashID) -> (r: bool)
        ensures
            r == (match *self {
                Transaction::ReflectAndProve(d) => d.r_block == r_b && d.r_chain == r_chain_id,
                _ => false,
            }),
    {
        match self {
            Transaction::ReflectAndProve(r) => r_b == r.r_block && r.r_chain == r_chain_id,
            _ => false,
        }
    }

    pub fn has_r_chain_id(&self, r_chain_id: HashID) -> (r: bool)
        ensures
            r == (match *self {
                Transaction::ReflectAndProve(d) => d.r_chain == r_chain_id,
                _ => false,
            }),
    {
        match self {
            Transaction::ReflectAndProve(r) => r.r_chain == r_chain_id,
            _ => false,
        }
    }

    /// the block doing the reflecting on R-chain
    pub fn get_reflecting_r_block(&self, r_c_id: HashID) -> (r: Option<HashID>)
        ensures
            r == (match *self {
                Transaction::ReflectAndProve(d) => if d.r_chain == r_c_id {
                    Some(d.r_block)
                } else {
                    None
                },
                _ => None,
            }),
    {
        match self {
            Transaction::ReflectAndProve(r) => if r.r_chain == r_c_id {
                Some(r.r_block)
            } else {
                None
            },
            _ => None,
        }
    }

    /// the blocks being reflected (on L-chain)
    pub fn get_reflected_l_blocks(&self) -> (r: Option<&Vec<HashID>>)
        ensures
            match *self {
                Transaction::ReflectAndProve(d) => r == Some(&d.l_headers),
                _ => r is None,
            },
    {
        match self {
            Transaction::ReflectAndProve(r) => Some(&r.l_headers),
            _ => None,
        }
    }

    /// The reflected L block this reflection vouches for (see [`spec_reflected_l_block`]).
    pub fn get_reflected_l_block(&self) -> (r: Option<HashID>)
        ensures
            r == spec_reflected_l_block(*self),
    {
        match self {
            Transaction::ReflectAndProve(r) => Some(r.l_cw.blocks.first),
            _ => None,
        }
    }
}

} // verus!
