use vstd::prelude::*;
use crate::block::{all_prev_iter_excluding, ancestors, block_wf, is_anc_path, same_block, BlockStore, BlockT};
use crate::block_metadata::BlockMD;
use crate::chain::fork_rules::ForkRules;
use crate::chain::Chain;
use crate::collections::{sort_heaviest_first, sorted_heaviest_first, IdSet};
use crate::types::HashID;

verus! {

/// Every stored parent of a block of `f` is in `e` or in `f`.
pub open spec fn closed_under_parents<B: BlockT>(m: Map<HashID, (B, BlockMD)>, f: Set<HashID>, e: Set<HashID>) -> bool {
    forall|y: HashID, i: int|
        #![trigger f.contains(y), m[y].0.spec_parents()[i]]
        f.contains(y) && 0 <= i < m[y].0.spec_parents().len() ==> e.contains(m[y].0.spec_parents()[i]) || f.contains(
            m[y].0.spec_parents()[i],
        )
}

/// A block reachable from `h` without passing through `e` is reachable without passing
/// through `e` or `f`, or is in `f`, when `f` is closed under parents outside `e`.
proof fn lemma_anc_split<B: BlockT>(m: Map<HashID, (B, BlockMD)>, h: HashID, e: Set<HashID>, f: Set<HashID>, p: Seq<HashID>)
    requires
        is_anc_path(m, p, e),
        p[0] == h,
        closed_under_parents(m, f, e),
    ensures
        ancestors(m, h, e.union(f)).contains(p.last()) || f.contains(p.last()),
    decreases p.len(),
{
    if p.len() == 1 {
        if !f.contains(h) {
            assert(is_anc_path(m, seq![h], e.union(f)));
            assert(seq![h].last() == h);
        }
    } else {
        let q = p.drop_last();
        assert forall|i: int| 0 <= i < q.len() - 1 implies #[trigger] m[q[i]].0.spec_parents().contains(q[i + 1]) by {
            assert(m[p[i]].0.spec_parents().contains(p[i + 1]));
        }
        assert(is_anc_path(m, q, e));
        lemma_anc_split(m, h, e, f, q);
        let y = q.last();
        let x = p.last();
        let n = p.len() - 2;
        assert(m[p[n]].0.spec_parents().contains(p[n + 1]));
        assert(y == p[n] && x == p[n + 1]);
        let k = choose|k: int| 0 <= k < m[y].0.spec_parents().len() && m[y].0.spec_parents()[k] == x;
        if f.contains(y) {
            assert(e.contains(m[y].0.spec_parents()[k]) || f.contains(m[y].0.spec_parents()[k]));
            assert(!e.contains(p[p.len() - 1]));
        } else if !f.contains(x) {
            let r = choose|r: Seq<HashID>| #[trigger] is_anc_path(m, r, e.union(f)) && r[0] == h && r.last() == y;
            let r2 = r.push(x);
            assert(!e.contains(p[p.len() - 1]));
            assert forall|i: int| 0 <= i < r2.len() - 1 implies #[trigger] m[r2[i]].0.spec_parents().contains(r2[i + 1]) by {
                if i < r.len() - 1 {
                    assert(r2[i] == r[i] && r2[i + 1] == r[i + 1]);
                } else {
                    assert(r2[i] == y && r2[i + 1] == x);
                }
            }
            assert(is_anc_path(m, r2, e.union(f)));
            assert(r2.last() == x);
        }
    }
}

impl<B: BlockT, F: ForkRules<B>> Chain<B, F> {
    /// The blocks reachable from a chain head of one side without passing through a block the
    /// other side has seen: what the other side lacks of this one.
    pub open spec fn missing_ids(&self, store: &BlockStore<B>, is_private: bool) -> Set<HashID> {
        Set::new(
            |x: HashID|
                exists|h: HashID|
                    #[trigger] self.heads_view(is_private).contains_key(h) && ancestors(store@, h, self.seen_view(!is_private)).contains(x),
        )
    }

    /// The ids of [`Self::missing_ids`], each once.
    fn missing_block_ids(&self, store: &BlockStore<B>, is_private: bool) -> (r: Vec<HashID>)
        requires
            self.inv(store),
        ensures
            r@.no_duplicates(),
            r@.to_set() == self.missing_ids(store, is_private),
    {
        let ghost m = store@;
        let ghost e = self.seen_view(!is_private);
        let hs = self.get_chain_heads(is_private).keys();
        let mut excl = self.get_seen_blocks(!is_private).copy();
        let mut found: Vec<HashID> = Vec::new();
        let mut i: usize = 0;
        assert(found@.to_set() =~= Set::<HashID>::empty());
        assert(excl@ =~= e.union(found@.to_set()));
        while i < hs.len()
            invariant
                self.inv(store),
                m == store@,
                e == self.seen_view(!is_private),
                i <= hs.len(),
                hs@.to_set() == self.heads_view(is_private).dom(),
                found@.no_duplicates(),
                excl@ == e.union(found@.to_set()),
                found@.to_set() == Set::new(
                    |x: HashID| exists|j: int| 0 <= j < i && #[trigger] ancestors(m, hs@[j], e).contains(x),
                ),
                closed_under_parents(m, found@.to_set(), e),
            decreases hs.len() - i,
        {
            let h = hs[i];
            proof {
                assert(hs@.to_set().contains(h));
                assert(self.heads_view(is_private).contains_key(h));
            }
            let ent = store.get(h).unwrap();
            let ghost f = found@.to_set();
            let bs = all_prev_iter_excluding(&ent.0, store, &excl);
            proof {
                assert(block_wf(m, h));
            }
            let ghost a = ancestors(m, h, e.union(f));
            let ghost old_found = found@;
            excl.extend(&bs);
            let mut k: usize = 0;
            while k < bs.len()
                invariant
                    k <= bs.len(),
                    found@ == old_found + bs@.take(k as int),
                decreases bs.len() - k,
            {
                found.push(bs[k]);
                assert(bs@.take(k + 1) =~= bs@.take(k as int).push(bs@[k as int]));
                k += 1;
            }
            proof {
                assert(bs@.take(bs.len() as int) =~= bs@);
                assert(bs@.to_set() == a);
                // the new ids avoid the old ones
                assert forall|x: HashID| #[trigger] a.contains(x) implies !f.contains(x) by {
                    let p = choose|p: Seq<HashID>| #[trigger] is_anc_path(m, p, e.union(f)) && p[0] == h && p.last() == x;
                    assert(!e.union(f).contains(p[p.len() - 1]));
                }
                assert forall|s: int, t: int| 0 <= s < found@.len() && 0 <= t < found@.len() && s != t implies found@[s] != found@[t] by {
                    if s < old_found.len() && t >= old_found.len() {
                        assert(found@[t] == bs@[t - old_found.len()]);
                        assert(bs@.to_set().contains(bs@[t - old_found.len()]));
                        assert(old_found.to_set().contains(found@[s]));
                    } else if t < old_found.len() && s >= old_found.len() {
                        assert(found@[s] == bs@[s - old_found.len()]);
                        assert(bs@.to_set().contains(bs@[s - old_found.len()]));
                        assert(old_found.to_set().contains(found@[t]));
                    } else if s >= old_found.len() && t >= old_found.len() {
                        assert(found@[s] == bs@[s - old_found.len()]);
                        assert(found@[t] == bs@[t - old_found.len()]);
                    }
                }
                assert(found@.to_set() =~= f.union(a)) by {
                    assert forall|x: HashID| found@.to_set().contains(x) implies f.union(a).contains(x) by {
                        let s = choose|s: int| 0 <= s < found@.len() && found@[s] == x;
                        if s < old_found.len() {
                            assert(old_found[s] == x);
                        } else {
                            assert(bs@[s - old_found.len()] == x);
                        }
                    }
                    assert forall|x: HashID| f.union(a).contains(x) implies found@.to_set().contains(x) by {
                        if f.contains(x) {
                            let s = choose|s: int| 0 <= s < old_found.len() && old_found[s] == x;
                            assert(found@[s] == x);
                        } else {
                            let s = choose|s: int| 0 <= s < bs@.len() && bs@[s] == x;
                            assert(found@[old_found.len() + s] == x);
                        }
                    }
                }
                assert(excl@ =~= e.union(found@.to_set()));
                // the union over heads so far
                assert forall|x: HashID| #[trigger] f.union(a).contains(x) <==> (exists|j: int| 0 <= j < i + 1 && #[trigger] ancestors(m, hs@[j], e).contains(x)) by {
                    if a.contains(x) {
                        let p = choose|p: Seq<HashID>| #[trigger] is_anc_path(m, p, e.union(f)) && p[0] == h && p.last() == x;
                        assert(is_anc_path(m, p, e));
                        assert(ancestors(m, hs@[i as int], e).contains(x));
                    }
                    if exists|j: int| 0 <= j < i + 1 && #[trigger] ancestors(m, hs@[j], e).contains(x) {
                        let j = choose|j: int| 0 <= j < i + 1 && #[trigger] ancestors(m, hs@[j], e).contains(x);
                        if j == i {
                            let p = choose|p: Seq<HashID>| #[trigger] is_anc_path(m, p, e) && p[0] == h && p.last() == x;
                            lemma_anc_split(m, h, e, f, p);
                        }
                    }
                }
                assert(found@.to_set() =~= Set::new(
                    |x: HashID| exists|j: int| 0 <= j < i + 1 && #[trigger] ancestors(m, hs@[j], e).contains(x),
                ));
                // still closed
                assert forall|y: HashID, t: int|
                    #![trigger found@.to_set().contains(y), m[y].0.spec_parents()[t]]
                    found@.to_set().contains(y) && 0 <= t < m[y].0.spec_parents().len() implies e.contains(m[y].0.spec_parents()[t])
                        || found@.to_set().contains(m[y].0.spec_parents()[t]) by {
                    let z = m[y].0.spec_parents()[t];
                    if f.contains(y) {
                        assert(e.contains(z) || f.contains(z));
                    } else {
                        assert(a.contains(y));
                        let p = choose|p: Seq<HashID>| #[trigger] is_anc_path(m, p, e.union(f)) && p[0] == h && p.last() == y;
                        if !e.contains(z) && !f.contains(z) {
                            assert(block_wf(m, y)) by {
                                assert(m.contains_key(p[p.len() - 1]));
                            }
                            assert(m.contains_key(m[y].0.spec_parents()[t]));
                            let p2 = p.push(z);
                            assert forall|s: int| 0 <= s < p2.len() - 1 implies #[trigger] m[p2[s]].0.spec_parents().contains(p2[s + 1]) by {
                                if s < p.len() - 1 {
                                    assert(p2[s] == p[s] && p2[s + 1] == p[s + 1]);
                                } else {
                                    assert(p2[s] == y && p2[s + 1] == z);
                                    assert(m[y].0.spec_parents()[t] == z);
                                }
                            }
                            assert(is_anc_path(m, p2, e.union(f)));
                            assert(p2.last() == z);
                            assert(a.contains(z));
                        }
                    }
                }
            }
            i += 1;
        }
        proof {
            assert forall|x: HashID| found@.to_set().contains(x) <==> self.missing_ids(store, is_private).contains(x) by {
                if found@.to_set().contains(x) {
                    let j = choose|j: int| 0 <= j < hs@.len() && #[trigger] ancestors(m, hs@[j], e).contains(x);
                    assert(hs@.to_set().contains(hs@[j]));
                }
                if self.missing_ids(store, is_private).contains(x) {
                    let h = choose|h: HashID| #[trigger] self.heads_view(is_private).contains_key(h) && ancestors(m, h, e).contains(x);
                    assert(hs@.to_set().contains(h));
                    let j = choose|j: int| 0 <= j < hs@.len() && hs@[j] == h;
                    assert(ancestors(m, hs@[j], e).contains(x));
                }
            }
            assert(found@.to_set() =~= self.missing_ids(store, is_private));
        }
        found
    }
}

/// The key that orders blocks by timestamp, then height.
pub open spec fn ts_height_key<B: BlockT>(b: B) -> int {
    b.spec_ts() * 0x1_0000_0000 + b.spec_height()
}

/// The entry holds a stored block's id and its key.
pub open spec fn key_ok<B: BlockT>(m: Map<HashID, (B, BlockMD)>, e: (u64, u64)) -> bool {
    e.1 == ts_height_key(m[e.0].0)
}

impl<B: BlockT, F: ForkRules<B>> Chain<B, F> {
    /// The blocks one side has that the other lacks (see [`Self::missing_ids`]), each once,
    /// oldest first: ordered by timestamp, then height.
    pub fn find_missing_blocks_in(&self, store: &BlockStore<B>, is_private: bool) -> (r: Vec<B>)
        requires
            self.inv(store),
        ensures
            r@.map_values(|b: B| b.spec_id()).no_duplicates(),
            r@.map_values(|b: B| b.spec_id()).to_set() == self.missing_ids(store, is_private),
            forall|i: int|
                0 <= i < r@.len() ==> store@.contains_key(#[trigger] r@[i].spec_id()) && same_block(r@[i], store@[r@[i].spec_id()].0),
            forall|i: int, j: int|
                0 <= i < j < r@.len() ==> #[trigger] r@[i].spec_ts() < #[trigger] r@[j].spec_ts() || (r@[i].spec_ts() == r@[j].spec_ts()
                    && r@[i].spec_height() <= r@[j].spec_height()),
    {
        broadcast use vstd::seq_lib::group_to_multiset_ensures;
        let ghost m = store@;
        let ids = self.missing_block_ids(store, is_private);
        proof {
            assert forall|k: int| 0 <= k < ids@.len() implies m.contains_key(#[trigger] ids@[k]) by {
                assert(ids@.to_set().contains(ids@[k]));
                let e = self.seen_view(!is_private);
                let h = choose|h: HashID| #[trigger] self.heads_view(is_private).contains_key(h)
                    && ancestors(m, h, e).contains(ids@[k]);
                let p = choose|p: Seq<HashID>| #[trigger] is_anc_path(m, p, e) && p[0] == h && p.last() == ids@[k];
                assert(m.contains_key(p[p.len() - 1]));
            }
        }
        let mut es: Vec<(u64, u64)> = Vec::new();
        let mut i: usize = 0;
        while i < ids.len()
            invariant
                m == store@,
                i <= ids.len(),
                ids@.to_set() == self.missing_ids(store, is_private),
                es@.len() == i,
                forall|k: int| 0 <= k < i ==> #[trigger] es@[k].0 == ids@[k] && key_ok(m, es@[k]),
                forall|k: int| 0 <= k < ids@.len() ==> m.contains_key(#[trigger] ids@[k]),
            decreases ids.len() - i,
        {
            let e = store.get(ids[i]).unwrap();
            let ts = e.0.get_ts() as u64;
            let hh = e.0.get_height() as u64;
            assert(ts * 0x1_0000_0000 + hh <= u64::MAX) by (nonlinear_arith)
                requires
                    ts <= u32::MAX,
                    hh <= u32::MAX,
            ;
            let key: u64 = ts * 0x1_0000_0000u64 + hh;
            es.push((ids[i], key));
            i += 1;
        }
        let sorted = sort_heaviest_first(&es);
        let n = sorted.len();
        let mut r: Vec<B> = Vec::new();
        let mut j: usize = 0;
        proof {
            assert(es@.map_values(|e: (u64, u64)| e.0) =~= ids@);
            crate::block::lemma_perm_keeps_ids_distinct(es@, sorted@);
            assert forall|k: int| 0 <= k < sorted@.len() implies #[trigger] key_ok(m, sorted@[k])
                && self.missing_ids(store, is_private).contains(sorted@[k].0) by {
                assert(sorted@.to_multiset().count(sorted@[k]) > 0);
                assert(es@.contains(sorted@[k]));
                let t = choose|t: int| 0 <= t < es@.len() && es@[t] == sorted@[k];
                assert(ids@.to_set().contains(ids@[t]));
            }
        }
        while j < n
            invariant
                m == store@,
                n == sorted@.len(),
                j <= n,
                r@.len() == j,
                forall|k: int| 0 <= k < n ==> #[trigger] key_ok(m, sorted@[k])
                    && self.missing_ids(store, is_private).contains(sorted@[k].0),
                forall|k: int| 0 <= k < ids@.len() ==> m.contains_key(#[trigger] ids@[k]),
                ids@.to_set() == self.missing_ids(store, is_private),
                forall|t: int| 0 <= t < j ==> #[trigger] r@[t].spec_id() == sorted@[n - 1 - t].0 && same_block(r@[t], m[r@[t].spec_id()].0)
                    && m.contains_key(r@[t].spec_id()),
                self.inv(store),
            decreases n - j,
        {
            let id = sorted[n - 1 - j].0;
            proof {
                let k = n - 1 - j;
                assert(key_ok(m, sorted@[k]));
                assert(self.missing_ids(store, is_private).contains(sorted@[k].0));
                let t = choose|t: int| 0 <= t < ids@.len() && ids@[t] == id;
                assert(m.contains_key(ids@[t]));
            }
            let e = store.get(id).unwrap();
            let b = e.0.copy();
            let ghost r0 = r@;
            r.push(b);
            proof {
                assert(block_wf(m, id));
                assert forall|t: int| 0 <= t < j + 1 implies #[trigger] r@[t].spec_id() == sorted@[n - 1 - t].0
                    && same_block(r@[t], m[r@[t].spec_id()].0) && m.contains_key(r@[t].spec_id()) by {
                    if t < j {
                        assert(r@[t] == r0[t]);
                    } else {
                        assert(r@[t] == b);
                    }
                }
            }
            j += 1;
        }
        proof {
            let rid = r@.map_values(|b: B| b.spec_id());
            assert forall|t: int| 0 <= t < n implies rid[t] == sorted@.map_values(|e: (u64, u64)| e.0)[n - 1 - t] by {
                assert(r@[t].spec_id() == sorted@[n - 1 - t].0);
            }
            assert forall|a: int, b: int| 0 <= a < b < rid.len() implies rid[a] != rid[b] by {
                assert(rid[a] == sorted@.map_values(|e: (u64, u64)| e.0)[n - 1 - a]);
                assert(rid[b] == sorted@.map_values(|e: (u64, u64)| e.0)[n - 1 - b]);
            }
            assert forall|x: HashID| rid.to_set().contains(x) <==> self.missing_ids(store, is_private).contains(x) by {
                if rid.to_set().contains(x) {
                    let t = choose|t: int| 0 <= t < rid.len() && rid[t] == x;
                    assert(r@[t].spec_id() == sorted@[n - 1 - t].0);
                    assert(key_ok(m, sorted@[n - 1 - t]));
                    assert(rid[t] == r@[t].spec_id());
                }
                if self.missing_ids(store, is_private).contains(x) {
                    let t = choose|t: int| 0 <= t < ids@.len() && ids@[t] == x;
                    assert(es@[t].0 == ids@[t]);
                    assert(es@.to_multiset().count(es@[t]) > 0);
                    assert(sorted@.contains(es@[t]));
                    let k = choose|k: int| 0 <= k < sorted@.len() && sorted@[k] == es@[t];
                    let tt = n - 1 - k;
                    assert(r@[tt].spec_id() == sorted@[n - 1 - tt].0);
                    assert(n - 1 - tt == k);
                    assert(rid[tt] == r@[tt].spec_id());
                    assert(rid[tt] == x);
                }
            }
            assert(rid.to_set() =~= self.missing_ids(store, is_private));
            assert forall|a: int, b: int| 0 <= a < b < r@.len() implies #[trigger] r@[a].spec_ts() < #[trigger] r@[b].spec_ts()
                || (r@[a].spec_ts() == r@[b].spec_ts() && r@[a].spec_height() <= r@[b].spec_height()) by {
                let ka = n - 1 - a;
                let kb = n - 1 - b;
                assert(crate::collections::heavier_first(sorted@[kb], sorted@[ka]));
                assert(key_ok(m, sorted@[ka]));
                assert(key_ok(m, sorted@[kb]));
                assert(r@[a].spec_id() == sorted@[ka].0);
                assert(r@[b].spec_id() == sorted@[kb].0);
                let ta = r@[a].spec_ts() as int;
                let ha = r@[a].spec_height() as int;
                let tb = r@[b].spec_ts() as int;
                let hb = r@[b].spec_height() as int;
                assert(sorted@[ka].1 == ta * 0x1_0000_0000 + ha);
                assert(sorted@[kb].1 == tb * 0x1_0000_0000 + hb);
                assert(ta * 0x1_0000_0000 + ha <= tb * 0x1_0000_0000 + hb);
            }
        }
        r
    }

    /// The private side's blocks that the public side lacks, oldest first.
    pub fn find_priv_blocks_not_in_pub(&self, store: &BlockStore<B>) -> (r: Vec<B>)
        requires
            self.inv(store),
        ensures
            r@.map_values(|b: B| b.spec_id()).no_duplicates(),
            r@.map_values(|b: B| b.spec_id()).to_set() == self.missing_ids(store, true),
            forall|i: int|
                0 <= i < r@.len() ==> store@.contains_key(#[trigger] r@[i].spec_id()) && same_block(r@[i], store@[r@[i].spec_id()].0),
            forall|i: int, j: int|
                0 <= i < j < r@.len() ==> #[trigger] r@[i].spec_ts() < #[trigger] r@[j].spec_ts() || (r@[i].spec_ts() == r@[j].spec_ts()
                    && r@[i].spec_height() <= r@[j].spec_height()),
    {
        self.find_missing_blocks_in(store, true)
    }

    /// The public side's blocks that the private side lacks, oldest first.
    pub fn find_pub_blocks_not_in_priv(&self, store: &BlockStore<B>) -> (r: Vec<B>)
        requires
            self.inv(store),
        ensures
            r@.map_values(|b: B| b.spec_id()).no_duplicates(),
            r@.map_values(|b: B| b.spec_id()).to_set() == self.missing_ids(store, false),
            forall|i: int|
                0 <= i < r@.len() ==> store@.contains_key(#[trigger] r@[i].spec_id()) && same_block(r@[i], store@[r@[i].spec_id()].0),
            forall|i: int, j: int|
                0 <= i < j < r@.len() ==> #[trigger] r@[i].spec_ts() < #[trigger] r@[j].spec_ts() || (r@[i].spec_ts() == r@[j].spec_ts()
                    && r@[i].spec_height() <= r@[j].spec_height()),
    {
        self.find_missing_blocks_in(store, false)
    }
}

/// `id` is a stored block outside `pubb` whose chain weight is above `fm`.
pub open spec fn heavier_private<B: BlockT>(m: Map<HashID, (B, BlockMD)>, pubb: Set<HashID>, fm: u64, id: HashID) -> bool {
    !pubb.contains(id) && m.contains_key(id) && m[id].1.chain_weight > fm
}

/// The parents of `id` that are [`heavier_private`].
pub open spec fn heavier_parents<B: BlockT>(m: Map<HashID, (B, BlockMD)>, pubb: Set<HashID>, fm: u64, id: HashID) -> Set<HashID> {
    Set::new(|p: HashID| m[id].0.spec_parents().contains(p) && heavier_private(m, pubb, fm, p))
}

/// The blocks of `edge` that are heavier than `fm` and rest on `pubb`: one of their parents is
/// in `pubb`, or none of them is heavier than `fm`.
pub open spec fn first_better<B: BlockT>(m: Map<HashID, (B, BlockMD)>, pubb: Set<HashID>, fm: u64, edge: Set<HashID>) -> Set<HashID> {
    Set::new(
        |id: HashID|
            edge.contains(id) && heavier_private(m, pubb, fm, id) && ((exists|i: int|
                0 <= i < m[id].0.spec_parents().len() && pubb.contains(#[trigger] m[id].0.spec_parents()[i]))
                || heavier_parents(m, pubb, fm, id) =~= Set::empty()),
    )
}

/// The heavier parents of the heavier blocks of `edge`: where the walk goes next.
pub open spec fn next_edge<B: BlockT>(m: Map<HashID, (B, BlockMD)>, pubb: Set<HashID>, fm: u64, edge: Set<HashID>) -> Set<HashID> {
    Set::new(
        |p: HashID|
            exists|id: HashID| #[trigger] edge.contains(id) && heavier_private(m, pubb, fm, id) && heavier_parents(m, pubb, fm, id).contains(p),
    )
}

/// The walk down from `edge`, for at most `fuel` rounds, collecting [`first_better`] blocks.
pub open spec fn better_walk<B: BlockT>(m: Map<HashID, (B, BlockMD)>, pubb: Set<HashID>, fm: u64, edge: Set<HashID>, fuel: nat) -> Set<HashID>
    decreases fuel,
{
    if fuel == 0 || edge =~= Set::empty() {
        Set::empty()
    } else {
        first_better(m, pubb, fm, edge).union(better_walk(m, pubb, fm, next_edge(m, pubb, fm, edge), (fuel - 1) as nat))
    }
}

/// `id` rests on the public best blocks `pubb`: one of its parents is one of them, or none of
/// its parents is [`heavier_private`].
pub open spec fn rests_on<B: BlockT>(m: Map<HashID, (B, BlockMD)>, pubb: Set<HashID>, fm: u64, id: HashID) -> bool {
    (exists|i: int| 0 <= i < m[id].0.spec_parents().len() && pubb.contains(#[trigger] m[id].0.spec_parents()[i]))
        || heavier_parents(m, pubb, fm, id) =~= Set::empty()
}

/// Every block the walk collects is heavier than `fm`, outside `pubb`, and rests on `pubb`.
pub proof fn lemma_better_walk_sound<B: BlockT>(m: Map<HashID, (B, BlockMD)>, pubb: Set<HashID>, fm: u64, edge: Set<HashID>, fuel: nat)
    ensures
        forall|x: HashID|
            #[trigger] better_walk(m, pubb, fm, edge, fuel).contains(x) ==> heavier_private(m, pubb, fm, x) && rests_on(m, pubb, fm, x),
    decreases fuel,
{
    if fuel == 0 || edge =~= Set::empty() {
    } else {
        let rest = better_walk(m, pubb, fm, next_edge(m, pubb, fm, edge), (fuel - 1) as nat);
        lemma_better_walk_sound(m, pubb, fm, next_edge(m, pubb, fm, edge), (fuel - 1) as nat);
        assert(better_walk(m, pubb, fm, edge, fuel) == first_better(m, pubb, fm, edge).union(rest));
        assert forall|x: HashID| #[trigger] better_walk(m, pubb, fm, edge, fuel).contains(x) implies heavier_private(m, pubb, fm, x)
            && rests_on(m, pubb, fm, x) by {
            if !rest.contains(x) {
                assert(first_better(m, pubb, fm, edge).contains(x));
            }
        }
    }
}

/// The walk collects every first better block it meets: a block of `edge` that is heavier
/// than `fm` and outside `pubb`, one of whose parents is in `pubb` or none of whose parents
/// is itself heavier and outside `pubb`, is collected (when the walk has a round left).
pub proof fn lemma_better_walk_collects<B: BlockT>(m: Map<HashID, (B, BlockMD)>, pubb: Set<HashID>, fm: u64, edge: Set<HashID>, fuel: nat, x: HashID)
    requires
        fuel > 0,
        edge.contains(x),
        !pubb.contains(x),
        m.contains_key(x),
        m[x].1.chain_weight > fm,
        (exists|i: int| 0 <= i < m[x].0.spec_parents().len() && pubb.contains(#[trigger] m[x].0.spec_parents()[i]))
            || (forall|i: int|
            0 <= i < m[x].0.spec_parents().len() ==> !(!pubb.contains(#[trigger] m[x].0.spec_parents()[i]) && m.contains_key(
                m[x].0.spec_parents()[i],
            ) && m[m[x].0.spec_parents()[i]].1.chain_weight > fm)),
    ensures
        better_walk(m, pubb, fm, edge, fuel).contains(x),
{
    assert(!(edge =~= Set::<HashID>::empty()));
    if !(exists|i: int| 0 <= i < m[x].0.spec_parents().len() && pubb.contains(#[trigger] m[x].0.spec_parents()[i])) {
        assert(heavier_parents(m, pubb, fm, x) =~= Set::<HashID>::empty()) by {
            assert forall|q: HashID| !heavier_parents(m, pubb, fm, x).contains(q) by {
                if heavier_parents(m, pubb, fm, x).contains(q) {
                    let i = choose|i: int| 0 <= i < m[x].0.spec_parents().len() && m[x].0.spec_parents()[i] == q;
                    assert(!(!pubb.contains(m[x].0.spec_parents()[i]) && m.contains_key(m[x].0.spec_parents()[i])
                        && m[m[x].0.spec_parents()[i]].1.chain_weight > fm));
                }
            }
        }
    }
    assert(first_better(m, pubb, fm, edge).contains(x));
}

/// The walk goes on from the heavier parents of the heavier blocks it meets: whatever a walk
/// from those parents collects, the walk one round longer collects too.
pub proof fn lemma_better_walk_descends<B: BlockT>(m: Map<HashID, (B, BlockMD)>, pubb: Set<HashID>, fm: u64, edge: Set<HashID>, fuel: nat, x: HashID)
    requires
        better_walk(m, pubb, fm, next_edge(m, pubb, fm, edge), fuel).contains(x),
    ensures
        better_walk(m, pubb, fm, edge, fuel + 1).contains(x),
{
    if edge =~= Set::<HashID>::empty() {
        assert(next_edge(m, pubb, fm, edge) =~= Set::<HashID>::empty());
        assert(better_walk(m, pubb, fm, next_edge(m, pubb, fm, edge), fuel) =~= Set::<HashID>::empty());
    }
}

impl<B: BlockT, F: ForkRules<B>> Chain<B, F> {
    /// A private best block that beats the public side without help is among the first
    /// private blocks better than the public ones: where the private side's measure is above
    /// the public one, a private best block outside the public best blocks whose chain weight
    /// is above the public measure, one of whose parents is a public best block or none of
    /// whose parents is itself heavier and outside them, is one of them.
    pub proof fn lemma_first_priv_better_has_best(&self, store: &BlockStore<B>, x: HashID)
        requires
            self.best_measure(store, true) > self.best_measure(store, false),
            self.best_view(true).contains(x),
            !self.best_view(false).contains(x),
            store@.contains_key(x),
            store@[x].1.chain_weight > self.best_measure(store, false),
            (exists|i: int|
                0 <= i < store@[x].0.spec_parents().len() && self.best_view(false).contains(#[trigger] store@[x].0.spec_parents()[i]))
                || (forall|i: int|
                0 <= i < store@[x].0.spec_parents().len() ==> !(!self.best_view(false).contains(
                    #[trigger] store@[x].0.spec_parents()[i],
                ) && store@.contains_key(store@[x].0.spec_parents()[i]) && store@[store@[x].0.spec_parents()[i]].1.chain_weight
                    > self.best_measure(store, false))),
        ensures
            self.first_priv_better(store).contains(x),
    {
        lemma_better_walk_collects(
            store@,
            self.best_view(false),
            self.best_measure(store, false),
            self.best_view(true),
            (store@.len() + 1) as nat,
            x,
        );
    }

    /// Every block that is the first to beat the public side (see
    /// [`Self::first_priv_better`]) is outside the public best blocks, has a chain weight above
    /// the public measure, and rests on the public best blocks: one of its parents is one of
    /// them, or none of its parents is itself heavier and outside them.
    pub proof fn lemma_first_priv_better_sound(&self, store: &BlockStore<B>, x: HashID)
        requires
            self.first_priv_better(store).contains(x),
        ensures
            heavier_private(store@, self.best_view(false), self.best_measure(store, false), x),
            rests_on(store@, self.best_view(false), self.best_measure(store, false), x),
    {
        lemma_better_walk_sound(
            store@,
            self.best_view(false),
            self.best_measure(store, false),
            self.best_view(true),
            (store@.len() + 1) as nat,
        );
    }
}

impl<B: BlockT, F: ForkRules<B>> Chain<B, F> {
    /// The private blocks that are the first to beat the public side: where the private side's
    /// measure is above the public one, the walk from the private best blocks down to the
    /// public best blocks, through blocks whose chain weight is above the public measure, for
    /// at most as many rounds as there are blocks, collecting [`first_better`] blocks.
    pub open spec fn first_priv_better(&self, store: &BlockStore<B>) -> Set<HashID> {
        if self.best_measure(store, true) <= self.best_measure(store, false) {
            Set::empty()
        } else {
            better_walk(
                store@,
                self.best_view(false),
                self.best_measure(store, false),
                self.best_view(true),
                (store@.len() + 1) as nat,
            )
        }
    }

    /// The private blocks one better than the public ones (see [`Self::first_priv_better`]),
    /// each once, with their metadata.
    pub fn find_first_priv_blocks_better_than_public<'a>(&self, store: &'a BlockStore<B>) -> (r: Vec<&'a (B, BlockMD)>)
        requires
            self.inv(store),
        ensures
            r@.map_values(|e: &(B, BlockMD)| e.0.spec_id()).no_duplicates(),
            r@.map_values(|e: &(B, BlockMD)| e.0.spec_id()).to_set() == self.first_priv_better(store),
            forall|i: int| 0 <= i < r@.len() ==> store@.contains_key(#[trigger] r@[i].0.spec_id()) && store@[r@[i].0.spec_id()] == *r@[i],
    {
        let ghost m = store@;
        let fm = self.get_fork_measure_pub_priv(store);
        let mut out: Vec<&'a (B, BlockMD)> = Vec::new();
        if fm.private <= fm.public {
            proof {
                assert(out@.map_values(|e: &(B, BlockMD)| e.0.spec_id()).to_set() =~= Set::<HashID>::empty());
            }
            return out;
        }
        let ghost pubb = self.best_view(false);
        let ghost fmp = fm.public;
        let pub_best = self.get_best_blocks(false);
        let mut edge = self.get_best_blocks(true).copy();
        let mut ret = IdSet::new();
        let mut fuel: u128 = store.len() as u128 + 1;
        proof {
            assert(ret@.union(better_walk(m, pubb, fmp, edge@, fuel as nat)) =~= self.first_priv_better(store));
        }
        while edge.len() > 0 && fuel > 0
            invariant
                self.inv(store),
                m == store@,
                pub_best@ == pubb,
                pubb == self.best_view(false),
                fmp == self.best_measure(store, false),
                fmp == fm.public,
                edge@.finite(),
                edge@.subset_of(m.dom()),
                ret@.subset_of(m.dom()),
                ret@.union(better_walk(m, pubb, fmp, edge@, fuel as nat)) == self.first_priv_better(store),
            decreases fuel,
        {
            let curr = edge.to_vec();
            let ghost e0 = edge@;
            let ghost ret0 = ret@;
            let mut new_edge = IdSet::new();
            let mut i: usize = 0;
            proof {
                assert(curr@.take(0).to_set() =~= Set::<HashID>::empty());
                assert(new_edge@ =~= next_edge(m, pubb, fmp, curr@.take(0).to_set()));
                assert(ret@ =~= ret0.union(first_better(m, pubb, fmp, curr@.take(0).to_set())));
            }
            while i < curr.len()
                invariant
                    self.inv(store),
                    m == store@,
                    pub_best@ == pubb,
                    fmp == fm.public,
                    i <= curr.len(),
                    curr@.to_set() == e0,
                    e0.subset_of(m.dom()),
                    ret0.subset_of(m.dom()),
                    new_edge@.finite(),
                    new_edge@ == next_edge(m, pubb, fmp, curr@.take(i as int).to_set()),
                    ret@ == ret0.union(first_better(m, pubb, fmp, curr@.take(i as int).to_set())),
                decreases curr.len() - i,
            {
                let id = curr[i];
                let ghost t0 = curr@.take(i as int).to_set();
                proof {
                    assert(curr@.take(i + 1) =~= curr@.take(i as int).push(id));
                    crate::collections::lemma_push_to_set(curr@.take(i as int), id);
                    assert(curr@.to_set().contains(id));
                }
                let ghost ne0 = new_edge@;
                let ghost r0 = ret@;
                if !pub_best.contains(id) {
                    let e = store.get(id).unwrap();
                    if e.1.chain_weight > fm.public {
                        proof {
                            assert(block_wf(m, id));
                        }
                        let ps = e.0.all_parents();
                        let mut on_pub = false;
                        let mut any_add = false;
                        let mut k: usize = 0;
                        while k < ps.len()
                            invariant
                                self.inv(store),
                                m == store@,
                                pub_best@ == pubb,
                                fmp == fm.public,
                                k <= ps.len(),
                                ps@ == m[id].0.spec_parents(),
                                forall|t: int| 0 <= t < ps@.len() ==> m.contains_key(#[trigger] ps@[t]),
                                on_pub == exists|t: int| 0 <= t < k && pubb.contains(#[trigger] ps@[t]),
                                any_add == exists|t: int| 0 <= t < k && heavier_private(m, pubb, fmp, #[trigger] ps@[t]),
                                new_edge@.finite(),
                                new_edge@ == ne0.union(Set::new(|p: HashID| ps@.take(k as int).contains(p) && heavier_private(m, pubb, fmp, p))),
                            decreases ps.len() - k,
                        {
                            let p = ps[k];
                            proof {
                                assert(ps@.take(k + 1) =~= ps@.take(k as int).push(p));
                            }
                            if pub_best.contains(p) {
                                on_pub = true;
                            } else {
                                let pe = store.get(p).unwrap();
                                if pe.1.chain_weight > fm.public {
                                    new_edge.insert(p);
                                    any_add = true;
                                }
                            }
                            proof {
                                assert(new_edge@ =~= ne0.union(Set::new(|q: HashID| ps@.take(k + 1).contains(q) && heavier_private(m, pubb, fmp, q)))) by {
                                    let pk1 = ps@.take(k + 1);
                                    let pk = ps@.take(k as int);
                                    assert forall|q: HashID| pk1.contains(q) implies pk.contains(q) || q == p by {
                                        let t = choose|t: int| 0 <= t < pk1.len() && pk1[t] == q;
                                        if t < k {
                                            assert(pk[t] == q);
                                        }
                                    }
                                    assert(ps@.take(k + 1)[k as int] == p);
                                    assert forall|q: HashID| pk.contains(q) implies pk1.contains(q) by {
                                        let t = choose|t: int| 0 <= t < pk.len() && pk[t] == q;
                                        assert(pk1[t] == q);
                                    }
                                }
                            }
                            k += 1;
                        }
                        proof {
                            assert(ps@.take(ps.len() as int) =~= ps@);
                            assert(Set::new(|p: HashID| ps@.take(ps.len() as int).contains(p) && heavier_private(m, pubb, fmp, p))
                                =~= heavier_parents(m, pubb, fmp, id));
                            if !any_add {
                                assert(heavier_parents(m, pubb, fmp, id) =~= Set::<HashID>::empty()) by {
                                    assert forall|q: HashID| !heavier_parents(m, pubb, fmp, id).contains(q) by {
                                        if heavier_parents(m, pubb, fmp, id).contains(q) {
                                            let t = choose|t: int| 0 <= t < ps@.len() && ps@[t] == q;
                                            assert(heavier_private(m, pubb, fmp, ps@[t]));
                                        }
                                    }
                                }
                            } else {
                                let t = choose|t: int| 0 <= t < ps@.len() && heavier_private(m, pubb, fmp, #[trigger] ps@[t]);
                                assert(heavier_parents(m, pubb, fmp, id).contains(ps@[t]));
                            }
                        }
                        if on_pub || !any_add {
                            ret.insert(id);
                        }
                    }
                }
                proof {
                    let t1 = curr@.take(i + 1).to_set();
                    assert(t1 == t0.insert(id));
                    assert(new_edge@ =~= next_edge(m, pubb, fmp, t1)) by {
                        assert forall|q: HashID| next_edge(m, pubb, fmp, t1).contains(q) implies new_edge@.contains(q) by {
                            let x = choose|x: HashID| #[trigger] t1.contains(x) && heavier_private(m, pubb, fmp, x) && heavier_parents(m, pubb, fmp, x).contains(q);
                            if x != id {
                                assert(t0.contains(x));
                                assert(next_edge(m, pubb, fmp, t0).contains(q));
                            }
                        }
                        assert forall|q: HashID| new_edge@.contains(q) implies next_edge(m, pubb, fmp, t1).contains(q) by {
                            if ne0.contains(q) {
                                let x = choose|x: HashID| #[trigger] t0.contains(x) && heavier_private(m, pubb, fmp, x) && heavier_parents(m, pubb, fmp, x).contains(q);
                                assert(t1.contains(x));
                            } else {
                                assert(t1.contains(id));
                            }
                        }
                    }
                    assert(ret@ =~= ret0.union(first_better(m, pubb, fmp, t1))) by {
                        assert forall|q: HashID| first_better(m, pubb, fmp, t1).contains(q) && q != id implies first_better(m, pubb, fmp, t0).contains(q) by {
                            assert(t0.contains(q));
                        }
                        assert forall|q: HashID| first_better(m, pubb, fmp, t0).contains(q) implies first_better(m, pubb, fmp, t1).contains(q) by {
                            assert(t1.contains(q));
                        }
                    }
                }
                i += 1;
            }
            proof {
                assert(curr@.take(curr.len() as int) =~= curr@);
                assert(e0.len() > 0);
                assert(!(e0 =~= Set::<HashID>::empty())) by {
                    if e0 =~= Set::<HashID>::empty() {
                        assert(e0.len() == 0);
                    }
                }
                assert(better_walk(m, pubb, fmp, e0, fuel as nat) == first_better(m, pubb, fmp, e0).union(
                    better_walk(m, pubb, fmp, next_edge(m, pubb, fmp, e0), (fuel - 1) as nat),
                ));
                assert(ret@.union(better_walk(m, pubb, fmp, new_edge@, (fuel - 1) as nat)) =~= self.first_priv_better(store));
                assert forall|q: HashID| #[trigger] new_edge@.contains(q) implies m.contains_key(q) by {
                    let x = choose|x: HashID| #[trigger] e0.contains(x) && heavier_private(m, pubb, fmp, x) && heavier_parents(m, pubb, fmp, x).contains(q);
                }
                assert forall|q: HashID| #[trigger] ret@.contains(q) implies m.contains_key(q) by {
                    if !ret0.contains(q) {
                        assert(first_better(m, pubb, fmp, e0).contains(q));
                    }
                }
            }
            edge = new_edge;
            fuel = fuel - 1;
        }
        proof {
            if edge@.len() == 0 {
                assert(edge@ =~= Set::<HashID>::empty());
            }
            assert(better_walk(m, pubb, fmp, edge@, fuel as nat) =~= Set::<HashID>::empty());
            assert(ret@ =~= self.first_priv_better(store));
        }
        let ids = ret.to_vec();
        let mut j: usize = 0;
        while j < ids.len()
            invariant
                m == store@,
                j <= ids.len(),
                ids@.to_set() == ret@,
                ret@.subset_of(m.dom()),
                out@.len() == j,
                forall|t: int| 0 <= t < j ==> #[trigger] out@[t].0.spec_id() == ids@[t] && m.contains_key(ids@[t]) && m[ids@[t]] == *out@[t],
                self.inv(store),
            decreases ids.len() - j,
        {
            proof {
                assert(ids@.to_set().contains(ids@[j as int]));
                assert(block_wf(m, ids@[j as int]));
            }
            let e = store.get(ids[j]).unwrap();
            out.push(e);
            j += 1;
        }
        proof {
            let oid = out@.map_values(|e: &(B, BlockMD)| e.0.spec_id());
            assert(oid =~= ids@) by {
                assert forall|t: int| 0 <= t < oid.len() implies oid[t] == ids@[t] by {
                    assert(out@[t].0.spec_id() == ids@[t]);
                }
            }
        }
        out
    }
}

} // verus!
