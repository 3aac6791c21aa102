//! State kept beside a chain: light views of the other chains it reflects, and a key-value
//! store, both persistent (each change makes a new value and leaves the old one as it was).
use vstd::prelude::*;
use std::hash::BuildHasherDefault;
use hashers::null::PassThroughHasher;
use im_rc::{HashMap as ImHashMap, OrdSet};
use crate::collections::IdSet;
use crate::transactions::TxId;
use crate::types::HashID;

verus! {

#[verifier::external_type_specification]
#[verifier::external_body]
#[verifier::reject_recursive_types(A)]
pub struct ExOrdSet<A>(OrdSet<A>);

#[verifier::external_type_specification]
#[verifier::external_body]
#[verifier::reject_recursive_types(K)]
#[verifier::reject_recursive_types(V)]
#[verifier::reject_recursive_types(S)]
pub struct ExImHashMap<K, V, S>(ImHashMap<K, V, S>);

#[verifier::external_type_specification]
#[verifier::external_body]
pub struct ExPassThroughHasher(PassThroughHasher);

#[verifier::external_type_specification]
#[verifier::external_body]
#[verifier::reject_recursive_types(H)]
pub struct ExBuildHasherDefault<H>(BuildHasherDefault<H>);

/// A persistent hash map keyed by id, hashing an id to itself.
pub type HashMapIdPassthrough<V> = ImHashMap<HashID, V, BuildHasherDefault<PassThroughHasher>>;

/// The ids an `im_rc::OrdSet` of ids holds.
pub uninterp spec fn ord_set_ids(s: OrdSet<u64>) -> Set<u64>;

/// The entries of a key-value store.
pub uninterp spec fn kv_entries(m: HashMapIdPassthrough<String>) -> Map<u64, Seq<char>>;

/// The entries of a map from ids to sets of ids.
pub uninterp spec fn id_set_entries(m: HashMapIdPassthrough<OrdSet<u64>>) -> Map<u64, Set<u64>>;

/// The entries of a map from chain ids to light chains, each light chain by its view.
pub uninterp spec fn light_chain_entries(m: HashMapIdPassthrough<LightChainIM>) -> Map<u64, LightChainView>;

/// The map from ids to sets of ids with no entries.
pub open spec fn no_id_sets() -> Map<u64, Set<u64>> {
    Map::empty()
}

/// The key-value store with no entries.
pub open spec fn no_kv_entries() -> Map<u64, Seq<char>> {
    Map::empty()
}

/// No light chains.
pub open spec fn no_light_chains() -> Map<u64, LightChainView> {
    Map::empty()
}

/// `im_rc::OrdSet::new`: an empty set.
#[verifier::external_body]
fn ord_set_new() -> (r: OrdSet<u64>)
    ensures
        ord_set_ids(r) == Set::<u64>::empty(),
{
    OrdSet::new()
}

/// `im_rc::OrdSet::unit`: the set holding only `x`.
#[verifier::external_body]
fn ord_set_unit(x: u64) -> (r: OrdSet<u64>)
    ensures
        ord_set_ids(r) == set![x],
{
    OrdSet::unit(x)
}

/// `im_rc::OrdSet::update`: a new set, `s` with `x` added; `s` is left as it was.
#[verifier::external_body]
fn ord_set_update(s: &OrdSet<u64>, x: u64) -> (r: OrdSet<u64>)
    ensures
        ord_set_ids(r) == ord_set_ids(*s).insert(x),
{
    s.update(x)
}

/// `im_rc::HashMap::default`: an empty map from ids to sets of ids.
#[verifier::external_body]
fn id_set_map_new() -> (r: HashMapIdPassthrough<OrdSet<u64>>)
    ensures
        id_set_entries(r) == no_id_sets(),
{
    ImHashMap::default()
}

/// `im_rc::HashMap::update`: a new map, `m` with `k` mapped to `v`; `m` is left as it was.
#[verifier::external_body]
fn id_set_map_update(m: &HashMapIdPassthrough<OrdSet<u64>>, k: u64, v: OrdSet<u64>) -> (r: HashMapIdPassthrough<OrdSet<u64>>)
    ensures
        id_set_entries(r) == id_set_entries(*m).insert(k, ord_set_ids(v)),
{
    m.update(k, v)
}

/// `Clone::clone` of `im_rc::HashMap`: a map with the same entries.
#[verifier::external_body]
fn id_set_map_clone(m: &HashMapIdPassthrough<OrdSet<u64>>) -> (r: HashMapIdPassthrough<OrdSet<u64>>)
    ensures
        id_set_entries(r) == id_set_entries(*m),
{
    m.clone()
}

/// `Clone::clone` of `im_rc::OrdSet`: a set with the same ids.
#[verifier::external_body]
fn ord_set_clone(s: &OrdSet<u64>) -> (r: OrdSet<u64>)
    ensures
        ord_set_ids(r) == ord_set_ids(*s),
{
    s.clone()
}

/// `im_rc::HashMap::default`: an empty key-value store.
#[verifier::external_body]
fn kv_new() -> (r: HashMapIdPassthrough<String>)
    ensures
        kv_entries(r) == no_kv_entries(),
{
    ImHashMap::default()
}

/// `im_rc::HashMap::update`: a new store, `m` with `k` mapped to `v`; `m` is left as it was.
#[verifier::external_body]
fn kv_update(m: &HashMapIdPassthrough<String>, k: u64, v: String) -> (r: HashMapIdPassthrough<String>)
    ensures
        kv_entries(r) == kv_entries(*m).insert(k, v@),
{
    m.update(k, v)
}

/// `im_rc::HashMap::default`: no light chains.
#[verifier::external_body]
fn light_chains_new() -> (r: HashMapIdPassthrough<LightChainIM>)
    ensures
        light_chain_entries(r) == no_light_chains(),
{
    ImHashMap::default()
}

/// `im_rc::HashMap::get`: the light chain of `k`, if there is one.
#[verifier::external_body]
fn light_chains_get(m: &HashMapIdPassthrough<LightChainIM>, k: u64) -> (r: Option<&LightChainIM>)
    ensures
        match r {
            Some(c) => light_chain_entries(*m).contains_key(k) && c.view() == light_chain_entries(*m)[k],
            None => !light_chain_entries(*m).contains_key(k),
        },
{
    m.get(&k)
}

/// `im_rc::HashMap::update`: a new map, `m` with `k` mapped to the light chain `v`; `m` is
/// left as it was.
#[verifier::external_body]
fn light_chains_update(m: &HashMapIdPassthrough<LightChainIM>, k: u64, v: LightChainIM) -> (r: HashMapIdPassthrough<LightChainIM>)
    ensures
        light_chain_entries(r) == light_chain_entries(*m).insert(k, v.view()),
{
    m.update(k, v)
}

/// What a light chain holds: its blocks, its heads, how often it makes blocks, and for each
/// of its blocks the blocks that reflect it.
pub type LightChainView = (Set<u64>, Set<u64>, u32, Map<u64, Set<u64>>);

/// The changes one block makes to a chain's state.
pub struct ChainStateDelta {
    pub block_id: HashID,
    pub valid_txs: Vec<TxId>,
    pub invalid_txs: Vec<TxId>,
    pub hellos: Vec<u64>,
    pub balances: HashMapIdPassthrough<u64>,
    /// reflections[chain_id] = [... r_block_ids]
    pub reflections: HashMapIdPassthrough<Vec<HashID>>,
}

/// A chain's state.
pub struct ChainState {
    pub valid_txs: IdSet,
    pub invalid_txs: IdSet,
    pub hellos: Vec<TxId>,
    pub balances: HashMapIdPassthrough<u64>,
    /// reflections[r_chain_id] = {... r_block_ids}
    pub reflections: HashMapIdPassthrough<IdSet>,
}

/// The state kept beside a chain: light views of other chains and a key-value store.
pub struct PoRStateIM {
    pub other_chains: HashMapIdPassthrough<LightChainIM>,
    pub kv_store: HashMapIdPassthrough<String>,
}

/// A light view of another chain.
pub struct LightChainIM {
    pub blocks: OrdSet<HashID>,
    pub heads: OrdSet<HashID>,
    pub block_frequency: u32,
    pub reflection_map: HashMapIdPassthrough<OrdSet<HashID>>,
}

/// A change to the state.
pub enum PoRStateTx {
    ReflectBlock { chain_id: HashID, block_id: HashID },
    AddKvStoreEntry { key: HashID, value: String },
}

pub enum StateTransErr {
    UnkTxType,
}

impl LightChainIM {
    pub closed spec fn view(&self) -> LightChainView {
        (ord_set_ids(self.blocks), ord_set_ids(self.heads), self.block_frequency, id_set_entries(self.reflection_map))
    }

    /// A light chain of the one block `block`, which is its head, reflected by nothing, with
    /// a block every 10 ticks.
    pub fn new(block: HashID) -> (r: Self)
        ensures
            r@ == new_light_chain(block),
    {
        let reflection_map = id_set_map_new();
        let empty = ord_set_new();
        LightChainIM {
            blocks: ord_set_unit(block),
            heads: ord_set_unit(block),
            block_frequency: 10,
            reflection_map: id_set_map_update(&reflection_map, block, empty),
        }
    }
}

/// The view of a new light chain of the one block `block`.
pub open spec fn new_light_chain(block: HashID) -> LightChainView {
    (set![block], set![block], 10, map![block => Set::<u64>::empty()])
}

/// A light chain after the block `block` joins it: among its blocks and among its heads.
pub open spec fn light_chain_with(lc: LightChainView, block: HashID) -> LightChainView {
    (lc.0.insert(block), lc.1.insert(block), lc.2, lc.3)
}

impl Clone for LightChainIM {
    /// A light chain with the same blocks, heads, frequency and reflections.
    fn clone(&self) -> (r: Self)
        ensures
            r@ == self@,
    {
        LightChainIM {
            blocks: ord_set_clone(&self.blocks),
            heads: ord_set_clone(&self.heads),
            block_frequency: self.block_frequency,
            reflection_map: id_set_map_clone(&self.reflection_map),
        }
    }
}

impl PoRStateIM {
    pub closed spec fn chains_view(&self) -> Map<u64, LightChainView> {
        light_chain_entries(self.other_chains)
    }

    pub closed spec fn kv_view(&self) -> Map<u64, Seq<char>> {
        kv_entries(self.kv_store)
    }

    /// No other chains and an empty store.
    pub fn new() -> (r: Self)
        ensures
            r.chains_view() == no_light_chains(),
            r.kv_view() == no_kv_entries(),
    {
        PoRStateIM { other_chains: light_chains_new(), kv_store: kv_new() }
    }

    /// The state after `tx`; always `Ok`. Reflecting block `block_id` of chain `chain_id`
    /// adds the block to the light chain of `chain_id` (a new one of that block where there
    /// is none); adding an entry maps `key` to `value`. The rest of the state stays.
    pub fn on_tx(&self, pre_state: PoRStateIM, tx: PoRStateTx) -> (r: Result<PoRStateIM, StateTransErr>)
        ensures
            r is Ok,
            match (r, tx) {
                (Ok(s), PoRStateTx::ReflectBlock { chain_id, block_id }) => {
                    let lc = if pre_state.chains_view().contains_key(chain_id) {
                        pre_state.chains_view()[chain_id]
                    } else {
                        new_light_chain(block_id)
                    };
                    &&& s.chains_view() == pre_state.chains_view().insert(chain_id, light_chain_with(lc, block_id))
                    &&& s.kv_view() == pre_state.kv_view()
                },
                (Ok(s), PoRStateTx::AddKvStoreEntry { key, value }) => {
                    &&& s.kv_view() == pre_state.kv_view().insert(key, value@)
                    &&& s.chains_view() == pre_state.chains_view()
                },
                _ => false,
            },
    {
        match tx {
            PoRStateTx::ReflectBlock { chain_id, block_id } => {
                // the light chain, or a new one from this block
                let updated = match light_chains_get(&pre_state.other_chains, chain_id) {
                    Some(c) => self.update_light_chain(c, block_id),
                    None => {
                        let lc = LightChainIM::new(block_id);
                        self.update_light_chain(&lc, block_id)
                    },
                };
                let other_chains = light_chains_update(&pre_state.other_chains, chain_id, updated);
                Ok(PoRStateIM { other_chains, kv_store: pre_state.kv_store })
            },
            PoRStateTx::AddKvStoreEntry { key, value } => {
                let kv_store = kv_update(&pre_state.kv_store, key, value);
                Ok(PoRStateIM { kv_store, other_chains: pre_state.other_chains })
            },
        }
    }

    /// A new light chain: `lc` with `block` among its blocks and among its heads.
    fn update_light_chain(&self, lc: &LightChainIM, block: HashID) -> (r: LightChainIM)
        ensures
            r@ == light_chain_with(lc@, block),
    {
        LightChainIM {
            blocks: ord_set_update(&lc.blocks, block),
            heads: ord_set_update(&lc.heads, block),
            block_frequency: lc.block_frequency,
            reflection_map: id_set_map_clone(&lc.reflection_map),
        }
    }
}

} // verus!
