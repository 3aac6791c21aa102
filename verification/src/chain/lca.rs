use vstd::prelude::*;
use std::collections::HashMap;
use crate::block::{ancestors, block_wf, is_anc_path, BlockStore, BlockT};
use crate::block_metadata::BlockMD;
use crate::chain::BInfo;
use crate::collections::{copy_ids, vec_contains};
use crate::types::{HashID, Height};

verus! {

broadcast use vstd::std_specs::hash::group_hash_axioms;

/// Every path of parents from `k` that ends at a block of height 0 ends at `g`: `k` belongs
/// to the chain whose genesis block is `g`.
pub open spec fn rooted<B: BlockT>(m: Map<HashID, (B, BlockMD)>, k: HashID, g: HashID) -> bool {
    forall|p: Seq<HashID>|
        #[trigger] is_anc_path(m, p, Set::empty()) && p[0] == k && m[p.last()].1.height == 0
            ==> p.last() == g
}

/// `m2` holds every block of `m1`, unchanged.
pub open spec fn extends<B>(m1: Map<HashID, (B, BlockMD)>, m2: Map<HashID, (B, BlockMD)>) -> bool {
    forall|k: HashID| #[trigger] m1.contains_key(k) ==> m2.contains_key(k) && m2[k] == m1[k]
}

/// A path in a larger store that starts at a block of a smaller well-formed one stays in it.
proof fn lemma_path_in_smaller<B: BlockT>(m1: Map<HashID, (B, BlockMD)>, m2: Map<HashID, (B, BlockMD)>, p: Seq<HashID>)
    requires
        forall|k: HashID| #[trigger] m1.contains_key(k) ==> block_wf(m1, k),
        extends(m1, m2),
        is_anc_path(m2, p, Set::empty()),
        m1.contains_key(p[0]),
    ensures
        is_anc_path(m1, p, Set::empty()),
    decreases p.len(),
{
    if p.len() > 1 {
        let p0 = p.drop_last();
        assert forall|i: int| 0 <= i < p0.len() - 1 implies #[trigger] m2[p0[i]].0.spec_parents().contains(p0[i + 1]) by {
            assert(m2[p[i]].0.spec_parents().contains(p[i + 1]));
        }
        lemma_path_in_smaller(m1, m2, p0);
        let n = p.len() - 1;
        let y = p[n - 1];
        assert(p0[n - 1] == y);
        assert(m1.contains_key(p0[n - 1]));
        let i0 = n - 1;
        assert(m2[p[i0]].0.spec_parents().contains(p[i0 + 1]));
        assert(p[i0 + 1] == p[n]);
        assert(block_wf(m1, y));
        let j = choose|j: int| 0 <= j < m1[y].0.spec_parents().len() && m1[y].0.spec_parents()[j] == p[n];
        assert(m1.contains_key(m1[y].0.spec_parents()[j]));
        assert forall|i: int| 0 <= i < p.len() implies m1.contains_key(#[trigger] p[i]) by {
            if i < n {
                assert(p0[i] == p[i]);
            }
        }
        assert forall|i: int| 0 <= i < p.len() - 1 implies #[trigger] m1[p[i]].0.spec_parents().contains(p[i + 1]) by {
            assert(m2[p[i]].0.spec_parents().contains(p[i + 1]));
        }
    }
}

/// A block of the chain of `g` stays in it as the store grows.
pub proof fn lemma_rooted_extends<B: BlockT>(m1: Map<HashID, (B, BlockMD)>, m2: Map<HashID, (B, BlockMD)>, k: HashID, g: HashID)
    requires
        forall|x: HashID| #[trigger] m1.contains_key(x) ==> block_wf(m1, x),
        extends(m1, m2),
        m1.contains_key(k),
        rooted(m1, k, g),
    ensures
        rooted(m2, k, g),
{
    assert forall|p: Seq<HashID>|
        #[trigger] is_anc_path(m2, p, Set::empty()) && p[0] == k && m2[p.last()].1.height == 0 implies p.last() == g by {
        lemma_path_in_smaller(m1, m2, p);
        assert(m1.contains_key(p[p.len() - 1]));
    }
}

/// A block whose parents all belong to the chain of `g` belongs to it too.
pub proof fn lemma_rooted_child<B: BlockT>(m: Map<HashID, (B, BlockMD)>, k: HashID, g: HashID)
    requires
        m.contains_key(k),
        block_wf(m, k),
        forall|i: int| 0 <= i < m[k].0.spec_parents().len() ==> rooted(m, #[trigger] m[k].0.spec_parents()[i], g),
    ensures
        rooted(m, k, g),
{
    assert forall|p: Seq<HashID>|
        #[trigger] is_anc_path(m, p, Set::empty()) && p[0] == k && m[p.last()].1.height == 0 implies p.last() == g by {
        if p.len() == 1 {
            assert(m[k].1.height == 0);
            assert(m[k].0.spec_parents()[0] == k);
            assert(rooted(m, m[k].0.spec_parents()[0], g));
            assert(is_anc_path(m, seq![k], Set::empty()));
        } else {
            let i0 = 0int;
            assert(m[p[i0]].0.spec_parents().contains(p[i0 + 1]));
            let j = choose|j: int| 0 <= j < m[k].0.spec_parents().len() && m[k].0.spec_parents()[j] == p[1];
            assert(rooted(m, m[k].0.spec_parents()[j], g));
            let t = p.subrange(1, p.len() as int);
            assert(t.last() == p.last());
            assert forall|i: int| 0 <= i < t.len() - 1 implies #[trigger] m[t[i]].0.spec_parents().contains(t[i + 1]) by {
                let i1 = i + 1;
                assert(m[p[i1]].0.spec_parents().contains(p[i1 + 1]));
                assert(t[i] == p[i1] && t[i + 1] == p[i1 + 1]);
            }
            assert(is_anc_path(m, t, Set::empty()));
        }
    }
}

/// A genesis block, its own only parent, is the root of its chain.
pub proof fn lemma_genesis_rooted<B: BlockT>(m: Map<HashID, (B, BlockMD)>, g: HashID)
    requires
        m.contains_key(g),
        m[g].0.spec_parents() == seq![g],
    ensures
        rooted(m, g, g),
{
    assert forall|p: Seq<HashID>|
        #[trigger] is_anc_path(m, p, Set::empty()) && p[0] == g && m[p.last()].1.height == 0 implies p.last() == g by {
        lemma_path_stays(m, p, g, (p.len() - 1) as nat);
    }
}

proof fn lemma_path_stays<B: BlockT>(m: Map<HashID, (B, BlockMD)>, p: Seq<HashID>, g: HashID, i: nat)
    requires
        m.contains_key(g),
        m[g].0.spec_parents() == seq![g],
        is_anc_path(m, p, Set::empty()),
        p[0] == g,
        i < p.len(),
    ensures
        p[i as int] == g,
    decreases i,
{
    if i > 0 {
        lemma_path_stays(m, p, g, (i - 1) as nat);
        let j = i - 1;
        assert(m[p[j]].0.spec_parents().contains(p[j + 1]));
    }
}

/// A queue of blocks by height: each level holds stored blocks of that height, each once.
pub open spec fn valid_queue<B: BlockT>(m: Map<HashID, (B, BlockMD)>, q: Map<Height, Seq<HashID>>) -> bool {
    forall|k: Height|
        #[trigger] q.contains_key(k) ==> {
            &&& q[k].len() > 0
            &&& q[k].no_duplicates()
            &&& forall|i: int| 0 <= i < q[k].len() ==> m.contains_key(#[trigger] q[k][i]) && m[q[k][i]].1.height == k
        }
}

/// `x` is queued at level `k` of `q`.
pub open spec fn queued(q: Map<Height, Seq<HashID>>, k: Height, x: HashID) -> bool {
    q.contains_key(k) && q[k].contains(x)
}

/// Queues `p` at level `h` (unless it is there already) and lowers `min_h` to `h`.
pub open spec fn queue_id(q: Map<Height, Seq<HashID>>, min_h: Height, p: HashID, h: Height) -> (Map<Height, Seq<HashID>>, Height) {
    let lvl = if q.contains_key(h) {
        q[h]
    } else {
        Seq::empty()
    };
    (if lvl.contains(p) {
        q
    } else {
        q.insert(h, lvl.push(p))
    }, if h < min_h {
        h
    } else {
        min_h
    })
}

/// Queues each of `ps` in order, each at its height.
pub open spec fn queue_ids<B: BlockT>(
    m: Map<HashID, (B, BlockMD)>,
    q: Map<Height, Seq<HashID>>,
    min_h: Height,
    ps: Seq<HashID>,
) -> (Map<Height, Seq<HashID>>, Height)
    decreases ps.len(),
{
    if ps.len() == 0 {
        (q, min_h)
    } else {
        let r = queue_ids(m, q, min_h, ps.drop_last());
        queue_id(r.0, r.1, ps.last(), m[ps.last()].1.height)
    }
}

/// Queues the parents of each of `at` in order.
pub open spec fn expand_level<B: BlockT>(
    m: Map<HashID, (B, BlockMD)>,
    q: Map<Height, Seq<HashID>>,
    min_h: Height,
    at: Seq<HashID>,
) -> (Map<Height, Seq<HashID>>, Height)
    decreases at.len(),
{
    if at.len() == 0 {
        (q, min_h)
    } else {
        let r = expand_level(m, q, min_h, at.drop_last());
        queue_ids(m, r.0, r.1, m[at.last()].0.spec_parents())
    }
}

/// The greatest height of `bs` (0 for none).
pub open spec fn max_height<B: BlockT>(m: Map<HashID, (B, BlockMD)>, bs: Seq<HashID>) -> Height
    decreases bs.len(),
{
    if bs.len() == 0 {
        0
    } else {
        let h = max_height(m, bs.drop_last());
        if m[bs.last()].1.height > h {
            m[bs.last()].1.height
        } else {
            h
        }
    }
}

/// The walk down from level `h`: each level is recorded; a level holding one block at or
/// below the lowest height queued so far is the answer; otherwise, while above that height
/// or while the level holds several blocks, the parents of its blocks are queued and the walk
/// goes on one level lower. Below level 0 there is no answer.
pub open spec fn lca_walk<B: BlockT>(
    m: Map<HashID, (B, BlockMD)>,
    q: Map<Height, Seq<HashID>>,
    inter: Map<Height, Seq<HashID>>,
    min_h: Height,
    h: int,
) -> Option<(HashID, Map<Height, Seq<HashID>>)>
    decreases h + 1,
{
    if h < 0 || h > u32::MAX {
        None
    } else {
        let hh = h as Height;
        let at = if q.contains_key(hh) {
            q[hh]
        } else {
            Seq::empty()
        };
        let inter2 = inter.insert(hh, at);
        let expand = hh > min_h || at.len() > 1;
        let r = if expand {
            expand_level(m, q, min_h, at)
        } else {
            (q, min_h)
        };
        if hh <= r.1 && at.len() == 1 {
            Some((at[0], inter2))
        } else {
            lca_walk(m, r.0, inter2, r.1, h - 1)
        }
    }
}

/// The common ancestor of `bs` and the blocks found between them and it, level by level:
/// `bs` are queued at their heights and the walk starts at the greatest of them. There is no
/// answer for no blocks, or when one of them is not stored.
pub open spec fn lca_spec<B: BlockT>(m: Map<HashID, (B, BlockMD)>, bs: Seq<HashID>) -> Option<(HashID, Map<Height, Seq<HashID>>)> {
    if bs.len() == 0 || exists|i: int| 0 <= i < bs.len() && !m.contains_key(#[trigger] bs[i]) {
        None
    } else {
        let r = queue_ids(m, Map::empty(), u32::MAX, bs);
        lca_walk(m, r.0, Map::empty(), r.1, max_height(m, bs) as int)
    }
}

/// What the LCA records of the stored block `id`.
pub open spec fn binfo_of<B: BlockT>(m: Map<HashID, (B, BlockMD)>, id: HashID) -> BInfo {
    BInfo {
        id,
        weight: m[id].1.weight,
        reflected_weight: m[id].1.reflected_weight,
        chain_weight: m[id].1.chain_weight,
        local_chain_weight: m[id].1.local_chain_weight,
    }
}

/// The levels `r` record, for each block id of `s`, what the LCA records of it.
pub open spec fn levels_match<B: BlockT>(
    m: Map<HashID, (B, BlockMD)>,
    r: Map<Height, Vec<BInfo>>,
    s: Map<Height, Seq<HashID>>,
) -> bool {
    &&& r.dom() == s.dom()
    &&& forall|k: Height| #[trigger] r.contains_key(k) ==> r[k]@ == s[k].map_values(|id: HashID| binfo_of(m, id))
}

pub open spec fn qview(q: Map<Height, Vec<HashID>>) -> Map<Height, Seq<HashID>> {
    q.map_values(|v: Vec<HashID>| v@)
}

proof fn lemma_queue_id<B: BlockT>(m: Map<HashID, (B, BlockMD)>, q: Map<Height, Seq<HashID>>, min_h: Height, p: HashID)
    requires
        valid_queue(m, q),
        m.contains_key(p),
    ensures
        ({
            let r = queue_id(q, min_h, p, m[p].1.height);
            &&& valid_queue(m, r.0)
            &&& queued(r.0, m[p].1.height, p)
            &&& forall|k: Height, x: HashID| #[trigger] queued(q, k, x) ==> queued(r.0, k, x)
            &&& forall|k: Height, x: HashID| #[trigger] queued(r.0, k, x) ==> queued(q, k, x) || x == p
            &&& r.1 == (if m[p].1.height < min_h { m[p].1.height } else { min_h })
        }),
{
    let h = m[p].1.height;
    let lvl = if q.contains_key(h) { q[h] } else { Seq::empty() };
    let r = queue_id(q, min_h, p, h);
    if !lvl.contains(p) {
        assert forall|k: Height| #[trigger] r.0.contains_key(k) implies {
            &&& r.0[k].len() > 0
            &&& r.0[k].no_duplicates()
            &&& forall|i: int| 0 <= i < r.0[k].len() ==> m.contains_key(#[trigger] r.0[k][i]) && m[r.0[k][i]].1.height == k
        } by {
            if k == h {
                assert(r.0[k] == lvl.push(p));
                assert forall|i: int| 0 <= i < r.0[k].len() implies m.contains_key(#[trigger] r.0[k][i]) && m[r.0[k][i]].1.height == k by {
                    if i < lvl.len() {
                        assert(r.0[k][i] == lvl[i]);
                    }
                }
            }
        }
        assert forall|k: Height, x: HashID| #[trigger] queued(q, k, x) implies queued(r.0, k, x) by {
            if k == h {
                assert(lvl.push(p).contains(x)) by {
                    let i = choose|i: int| 0 <= i < lvl.len() && lvl[i] == x;
                    assert(lvl.push(p)[i] == x);
                }
            }
        }
        assert forall|k: Height, x: HashID| #[trigger] queued(r.0, k, x) implies queued(q, k, x) || x == p by {
            if k == h && x != p {
                let i = choose|i: int| 0 <= i < lvl.push(p).len() && lvl.push(p)[i] == x;
                assert(i < lvl.len());
                assert(lvl[i] == x);
            }
        }
        assert(r.0[h][lvl.len() as int] == p);
    }
}

proof fn lemma_queue_ids<B: BlockT>(m: Map<HashID, (B, BlockMD)>, q: Map<Height, Seq<HashID>>, min_h: Height, ps: Seq<HashID>)
    requires
        valid_queue(m, q),
        forall|i: int| 0 <= i < ps.len() ==> m.contains_key(#[trigger] ps[i]),
    ensures
        ({
            let r = queue_ids(m, q, min_h, ps);
            &&& valid_queue(m, r.0)
            &&& forall|i: int| 0 <= i < ps.len() ==> queued(r.0, m[ps[i]].1.height, #[trigger] ps[i])
            &&& forall|k: Height, x: HashID| #[trigger] queued(q, k, x) ==> queued(r.0, k, x)
            &&& forall|k: Height, x: HashID| #[trigger] queued(r.0, k, x) ==> queued(q, k, x) || ps.contains(x)
            &&& r.1 <= min_h
        }),
    decreases ps.len(),
{
    if ps.len() > 0 {
        let ps0 = ps.drop_last();
        lemma_queue_ids(m, q, min_h, ps0);
        let r0 = queue_ids(m, q, min_h, ps0);
        let p = ps.last();
        lemma_queue_id(m, r0.0, r0.1, p);
        let r = queue_ids(m, q, min_h, ps);
        assert forall|i: int| 0 <= i < ps.len() implies queued(r.0, m[ps[i]].1.height, #[trigger] ps[i]) by {
            if i < ps.len() - 1 {
                assert(ps0[i] == ps[i]);
                assert(queued(r0.0, m[ps0[i]].1.height, ps0[i]));
            }
        }
        assert forall|k: Height, x: HashID| #[trigger] queued(r.0, k, x) implies queued(q, k, x) || ps.contains(x) by {
            if !queued(r0.0, k, x) {
                assert(x == p);
                assert(ps[ps.len() - 1] == x);
            } else if !queued(q, k, x) {
                let i = choose|i: int| 0 <= i < ps0.len() && ps0[i] == x;
                assert(ps[i] == x);
            }
        }
    }
}

proof fn lemma_expand_level<B: BlockT>(m: Map<HashID, (B, BlockMD)>, q: Map<Height, Seq<HashID>>, min_h: Height, at: Seq<HashID>)
    requires
        valid_queue(m, q),
        forall|k: HashID| #[trigger] m.contains_key(k) ==> block_wf(m, k),
        forall|i: int| 0 <= i < at.len() ==> m.contains_key(#[trigger] at[i]),
    ensures
        ({
            let r = expand_level(m, q, min_h, at);
            &&& valid_queue(m, r.0)
            &&& forall|i: int, j: int|
                0 <= i < at.len() && 0 <= j < m[at[i]].0.spec_parents().len() ==> queued(
                    r.0,
                    m[m[at[i]].0.spec_parents()[j]].1.height,
                    #[trigger] m[#[trigger] at[i]].0.spec_parents()[j],
                )
            &&& forall|k: Height, x: HashID| #[trigger] queued(q, k, x) ==> queued(r.0, k, x)
            &&& forall|k: Height, x: HashID| #[trigger] queued(r.0, k, x) ==> queued(q, k, x) || exists|i: int|
                0 <= i < at.len() && #[trigger] m[at[i]].0.spec_parents().contains(x)
            &&& r.1 <= min_h
        }),
    decreases at.len(),
{
    if at.len() > 0 {
        let at0 = at.drop_last();
        lemma_expand_level(m, q, min_h, at0);
        let r0 = expand_level(m, q, min_h, at0);
        let a = at.last();
        let ps = m[a].0.spec_parents();
        assert(block_wf(m, a));
        lemma_queue_ids(m, r0.0, r0.1, ps);
        let r = expand_level(m, q, min_h, at);
        assert forall|i: int, j: int|
            0 <= i < at.len() && 0 <= j < m[at[i]].0.spec_parents().len() implies queued(
                r.0,
                m[m[at[i]].0.spec_parents()[j]].1.height,
                #[trigger] m[#[trigger] at[i]].0.spec_parents()[j],
            ) by {
            if i < at.len() - 1 {
                assert(at0[i] == at[i]);
                let x = m[at0[i]].0.spec_parents()[j];
                assert(queued(r0.0, m[x].1.height, x));
            }
        }
        assert forall|k: Height, x: HashID| #[trigger] queued(r.0, k, x) implies queued(q, k, x) || exists|i: int|
            0 <= i < at.len() && #[trigger] m[at[i]].0.spec_parents().contains(x) by {
            if !queued(r0.0, k, x) {
                assert(ps.contains(x));
                assert(at[at.len() - 1] == a);
            } else if !queued(q, k, x) {
                let i = choose|i: int| 0 <= i < at0.len() && #[trigger] m[at0[i]].0.spec_parents().contains(x);
                assert(at[i] == at0[i]);
            }
        }
    }
}

/// A parent of a block of the chain of `g` belongs to it too.
pub proof fn lemma_rooted_parent<B: BlockT>(m: Map<HashID, (B, BlockMD)>, k: HashID, g: HashID, x: HashID)
    requires
        rooted(m, k, g),
        m.contains_key(k),
        m.contains_key(x),
        m[k].0.spec_parents().contains(x),
    ensures
        rooted(m, x, g),
{
    assert forall|p: Seq<HashID>|
        #[trigger] is_anc_path(m, p, Set::empty()) && p[0] == x && m[p.last()].1.height == 0 implies p.last() == g by {
        let p2 = seq![k] + p;
        assert(p2.last() == p.last());
        assert forall|i: int| 0 <= i < p2.len() - 1 implies #[trigger] m[p2[i]].0.spec_parents().contains(p2[i + 1]) by {
            if i > 0 {
                let j = i - 1;
                assert(m[p[j]].0.spec_parents().contains(p[j + 1]));
                assert(p2[i] == p[j] && p2[i + 1] == p[j + 1]);
            } else {
                assert(p2[0] == k && p2[1] == p[0]);
            }
        }
        assert(is_anc_path(m, p2, Set::empty()));
    }
}

/// The walk finds an answer when every queued block belongs to the chain of `g` and the
/// level it starts from is queued.
proof fn lemma_walk_some<B: BlockT>(
    m: Map<HashID, (B, BlockMD)>,
    q: Map<Height, Seq<HashID>>,
    inter: Map<Height, Seq<HashID>>,
    min_h: Height,
    h: int,
    g: HashID,
)
    requires
        forall|k: HashID| #[trigger] m.contains_key(k) ==> block_wf(m, k),
        valid_queue(m, q),
        0 <= h <= u32::MAX,
        q.contains_key(h as Height),
        forall|k: Height, x: HashID| #[trigger] queued(q, k, x) ==> rooted(m, x, g),
    ensures
        lca_walk(m, q, inter, min_h, h) is Some,
    decreases h,
{
    let hh = h as Height;
    let at = q[hh];
    let inter2 = inter.insert(hh, at);
    assert(at.len() > 0);
    if h == 0 {
        assert forall|i: int| 0 <= i < at.len() implies #[trigger] at[i] == g by {
            let x = at[i];
            assert(queued(q, hh, x));
            assert(m.contains_key(x) && m[x].1.height == 0);
            let p = seq![x];
            assert(is_anc_path(m, p, Set::empty()));
            assert(p.last() == x);
        }
        if at.len() > 1 {
            assert(at[0] == g && at[1] == g);
            assert(false);
        }
    } else {
        let expand = hh > min_h || at.len() > 1;
        let r = if expand { expand_level(m, q, min_h, at) } else { (q, min_h) };
        if !(hh <= r.1 && at.len() == 1) {
            assert(expand);
            assert forall|i: int| 0 <= i < at.len() implies m.contains_key(#[trigger] at[i]) by {}
            lemma_expand_level(m, q, min_h, at);
            let a = at[0];
            assert(block_wf(m, a));
            assert(m[a].1.height == hh);
            let pa = m[a].0.spec_parents()[0];
            assert(queued(r.0, m[pa].1.height, pa));
            assert(block_wf(m, pa));
            assert(m[pa].1.height == hh - 1);
            assert forall|k: Height, x: HashID| #[trigger] queued(r.0, k, x) implies rooted(m, x, g) by {
                if !queued(q, k, x) {
                    let i = choose|i: int| 0 <= i < at.len() && #[trigger] m[at[i]].0.spec_parents().contains(x);
                    assert(queued(q, hh, at[i]));
                    assert(block_wf(m, at[i]));
                    let j = choose|j: int| 0 <= j < m[at[i]].0.spec_parents().len() && m[at[i]].0.spec_parents()[j] == x;
                    assert(m.contains_key(m[at[i]].0.spec_parents()[j]));
                    lemma_rooted_parent(m, at[i], g, x);
                }
            }
            lemma_walk_some(m, r.0, inter2, r.1, h - 1, g);
        }
    }
}

/// Blocks that all belong to the chain of `g`, and are stored, have an answer.
pub proof fn lemma_lca_some<B: BlockT>(m: Map<HashID, (B, BlockMD)>, bs: Seq<HashID>, g: HashID)
    requires
        forall|k: HashID| #[trigger] m.contains_key(k) ==> block_wf(m, k),
        bs.len() > 0,
        forall|i: int| 0 <= i < bs.len() ==> m.contains_key(#[trigger] bs[i]) && rooted(m, bs[i], g),
    ensures
        lca_spec(m, bs) is Some,
{
    assert(valid_queue(m, Map::<Height, Seq<HashID>>::empty()));
    lemma_queue_ids(m, Map::empty(), u32::MAX, bs);
    let r = queue_ids(m, Map::empty(), u32::MAX, bs);
    assert forall|k: Height, x: HashID| #[trigger] queued(r.0, k, x) implies rooted(m, x, g) by {
        let i = choose|i: int| 0 <= i < bs.len() && bs[i] == x;
        assert(rooted(m, bs[i], g));
    }
    lemma_max_height_attained(m, bs);
    let i = choose|i: int| 0 <= i < bs.len() && m[bs[i]].1.height == max_height(m, bs);
    assert(queued(r.0, m[bs[i]].1.height, bs[i]));
    lemma_walk_some(m, r.0, Map::empty(), r.1, max_height(m, bs) as int, g);
}

proof fn lemma_max_height_attained<B: BlockT>(m: Map<HashID, (B, BlockMD)>, bs: Seq<HashID>)
    requires
        bs.len() > 0,
    ensures
        exists|i: int| 0 <= i < bs.len() && m[#[trigger] bs[i]].1.height == max_height(m, bs),
    decreases bs.len(),
{
    let n = bs.len() - 1;
    if bs.len() == 1 {
        assert(bs.drop_last().len() == 0);
        assert(max_height(m, bs.drop_last()) == 0);
        assert(bs.last() == bs[0]);
        assert(m[bs[0]].1.height == max_height(m, bs));
    } else {
        lemma_max_height_attained(m, bs.drop_last());
        assert(bs.last() == bs[n]);
        if m[bs[n]].1.height > max_height(m, bs.drop_last()) {
            assert(m[bs[n]].1.height == max_height(m, bs));
        } else {
            let i = choose|i: int| 0 <= i < bs.drop_last().len() && m[bs.drop_last()[i]].1.height == max_height(m, bs.drop_last());
            assert(bs[i] == bs.drop_last()[i]);
            assert(m[bs[i]].1.height == max_height(m, bs));
        }
    }
}

proof fn lemma_walk_levels<B: BlockT>(
    m: Map<HashID, (B, BlockMD)>,
    q: Map<Height, Seq<HashID>>,
    inter: Map<Height, Seq<HashID>>,
    min_h: Height,
    h: int,
)
    requires
        forall|k: HashID| #[trigger] m.contains_key(k) ==> block_wf(m, k),
        valid_queue(m, q),
    ensures
        match lca_walk(m, q, inter, min_h, h) {
            Some(r) => m.contains_key(r.0) && m[r.0].1.height <= h && forall|k: Height|
                #[trigger] r.1.contains_key(k) ==> inter.contains_key(k) || (m[r.0].1.height <= k && k <= h),
            None => true,
        },
    decreases h + 1,
{
    if 0 <= h <= u32::MAX {
        let hh = h as Height;
        let at = if q.contains_key(hh) { q[hh] } else { Seq::empty() };
        let inter2 = inter.insert(hh, at);
        let expand = hh > min_h || at.len() > 1;
        let r = if expand { expand_level(m, q, min_h, at) } else { (q, min_h) };
        if hh <= r.1 && at.len() == 1 {
            assert(q.contains_key(hh));
            assert(m.contains_key(q[hh][0]));
        } else {
            if expand {
                assert forall|i: int| 0 <= i < at.len() implies m.contains_key(#[trigger] at[i]) by {
                    assert(q.contains_key(hh));
                    assert(m.contains_key(q[hh][i]));
                }
                lemma_expand_level(m, q, min_h, at);
            }
            lemma_walk_levels(m, r.0, inter2, r.1, h - 1);
        }
    }
}

/// The levels the LCA records lie between the height of the common ancestor, which is
/// stored, and the greatest height of the blocks it was asked about.
pub proof fn lemma_lca_levels<B: BlockT>(m: Map<HashID, (B, BlockMD)>, bs: Seq<HashID>)
    requires
        forall|k: HashID| #[trigger] m.contains_key(k) ==> block_wf(m, k),
    ensures
        match lca_spec(m, bs) {
            Some(s) => m.contains_key(s.0) && forall|k: Height|
                #[trigger] s.1.contains_key(k) ==> m[s.0].1.height <= k && k <= max_height(m, bs),
            None => true,
        },
{
    if lca_spec(m, bs) is Some {
        assert(valid_queue(m, Map::<Height, Seq<HashID>>::empty()));
        lemma_queue_ids(m, Map::empty(), u32::MAX, bs);
        let r = queue_ids(m, Map::empty(), u32::MAX, bs);
        lemma_walk_levels(m, r.0, Map::empty(), r.1, max_height(m, bs) as int);
    }
}

/// Every block of every level of `inter` is stored, and so is every block of every level the
/// walk records.
proof fn lemma_walk_stored<B: BlockT>(
    m: Map<HashID, (B, BlockMD)>,
    q: Map<Height, Seq<HashID>>,
    inter: Map<Height, Seq<HashID>>,
    min_h: Height,
    h: int,
)
    requires
        forall|k: HashID| #[trigger] m.contains_key(k) ==> block_wf(m, k),
        valid_queue(m, q),
        forall|k: Height, i: int| inter.contains_key(k) && 0 <= i < inter[k].len() ==> m.contains_key(#[trigger] inter[k][i]),
    ensures
        match lca_walk(m, q, inter, min_h, h) {
            Some(r) => forall|k: Height, i: int| r.1.contains_key(k) && 0 <= i < r.1[k].len() ==> m.contains_key(#[trigger] r.1[k][i]),
            None => true,
        },
    decreases h + 1,
{
    if 0 <= h <= u32::MAX {
        let hh = h as Height;
        let at = if q.contains_key(hh) { q[hh] } else { Seq::empty() };
        let inter2 = inter.insert(hh, at);
        let expand = hh > min_h || at.len() > 1;
        let r = if expand { expand_level(m, q, min_h, at) } else { (q, min_h) };
        assert forall|k: Height, i: int| inter2.contains_key(k) && 0 <= i < inter2[k].len() implies m.contains_key(#[trigger] inter2[k][i]) by {
            if k == hh {
                assert(q.contains_key(hh));
                assert(m.contains_key(q[hh][i]));
            } else {
                assert(inter2[k] == inter[k]);
            }
        }
        if !(hh <= r.1 && at.len() == 1) {
            if expand {
                assert forall|i: int| 0 <= i < at.len() implies m.contains_key(#[trigger] at[i]) by {
                    assert(q.contains_key(hh));
                    assert(m.contains_key(q[hh][i]));
                }
                lemma_expand_level(m, q, min_h, at);
            }
            lemma_walk_stored(m, r.0, inter2, r.1, h - 1);
        }
    }
}

/// Every block the LCA records, on any level, is stored.
pub proof fn lemma_lca_stored<B: BlockT>(m: Map<HashID, (B, BlockMD)>, bs: Seq<HashID>)
    requires
        forall|k: HashID| #[trigger] m.contains_key(k) ==> block_wf(m, k),
    ensures
        match lca_spec(m, bs) {
            Some(s) => forall|k: Height, i: int| s.1.contains_key(k) && 0 <= i < s.1[k].len() ==> m.contains_key(#[trigger] s.1[k][i]),
            None => true,
        },
{
    if lca_spec(m, bs) is Some {
        assert(valid_queue(m, Map::<Height, Seq<HashID>>::empty()));
        lemma_queue_ids(m, Map::empty(), u32::MAX, bs);
        let r = queue_ids(m, Map::empty(), u32::MAX, bs);
        lemma_walk_stored(m, r.0, Map::empty(), r.1, max_height(m, bs) as int);
    }
}

/// The block `n` steps down the line of first parents from `x`.
pub open spec fn first_anc<B: BlockT>(m: Map<HashID, (B, BlockMD)>, x: HashID, n: nat) -> HashID
    decreases n,
{
    if n == 0 {
        x
    } else {
        first_anc(m, m[x].0.spec_parents()[0], (n - 1) as nat)
    }
}

/// One step further down the line is the first parent of the block reached.
proof fn lemma_first_anc_step<B: BlockT>(m: Map<HashID, (B, BlockMD)>, x: HashID, n: nat)
    ensures
        first_anc(m, x, n + 1) == m[first_anc(m, x, n)].0.spec_parents()[0],
    decreases n,
{
    let p = m[x].0.spec_parents()[0];
    assert(first_anc(m, x, n + 1) == first_anc(m, p, n));
    if n > 0 {
        lemma_first_anc_step(m, p, (n - 1) as nat);
        assert(first_anc(m, x, n) == first_anc(m, p, (n - 1) as nat));
    } else {
        assert(first_anc(m, p, 0) == p);
    }
}

/// A parent's ancestors are ancestors of the child.
proof fn lemma_ancestor_of_parent<B: BlockT>(m: Map<HashID, (B, BlockMD)>, x: HashID, p: HashID, y: HashID)
    requires
        m.contains_key(x),
        m[x].0.spec_parents().contains(p),
        ancestors(m, p, Set::empty()).contains(y),
    ensures
        ancestors(m, x, Set::empty()).contains(y),
{
    let pp = choose|pp: Seq<HashID>| #[trigger] is_anc_path(m, pp, Set::empty()) && pp[0] == p && pp.last() == y;
    let np = seq![x] + pp;
    assert forall|i: int| 0 <= i < np.len() implies m.contains_key(#[trigger] np[i]) && !Set::<HashID>::empty().contains(np[i]) by {
        if i > 0 {
            assert(np[i] == pp[i - 1]);
        }
    }
    assert forall|i: int| 0 <= i < np.len() - 1 implies #[trigger] m[np[i]].0.spec_parents().contains(np[i + 1]) by {
        if i > 0 {
            let j = i - 1;
            assert(0 <= j < pp.len() - 1);
            assert(m[pp[j]].0.spec_parents().contains(pp[j + 1]));
            assert(np[i] == pp[j]);
            assert(np[i + 1] == pp[j + 1]);
        } else {
            assert(np[1] == pp[0]);
        }
    }
    assert(is_anc_path(m, np, Set::empty()));
    assert(np.last() == y);
}

/// Down the line of first parents of a stored block, `n` steps (no more than its height),
/// is a stored ancestor of it, `n` levels lower.
proof fn lemma_first_anc<B: BlockT>(m: Map<HashID, (B, BlockMD)>, x: HashID, n: nat)
    requires
        forall|k: HashID| #[trigger] m.contains_key(k) ==> block_wf(m, k),
        m.contains_key(x),
        n <= m[x].1.height,
    ensures
        m.contains_key(first_anc(m, x, n)),
        m[first_anc(m, x, n)].1.height == m[x].1.height - n,
        ancestors(m, x, Set::empty()).contains(first_anc(m, x, n)),
    decreases n,
{
    assert(block_wf(m, x));
    if n == 0 {
        let p = seq![x];
        assert(is_anc_path(m, p, Set::empty()));
        assert(p.last() == x);
    } else {
        let p = m[x].0.spec_parents()[0];
        assert(m.contains_key(p));
        assert(block_wf(m, p));
        lemma_first_anc(m, p, (n - 1) as nat);
        assert(m[x].0.spec_parents().contains(p));
        lemma_ancestor_of_parent(m, x, p, first_anc(m, p, (n - 1) as nat));
    }
}

/// Queuing blocks lowers the lowest height to at most that of each of them.
proof fn lemma_queue_ids_min<B: BlockT>(m: Map<HashID, (B, BlockMD)>, q: Map<Height, Seq<HashID>>, min_h: Height, ps: Seq<HashID>)
    ensures
        queue_ids(m, q, min_h, ps).1 <= min_h,
        forall|i: int| 0 <= i < ps.len() ==> queue_ids(m, q, min_h, ps).1 <= m[#[trigger] ps[i]].1.height,
    decreases ps.len(),
{
    if ps.len() > 0 {
        lemma_queue_ids_min(m, q, min_h, ps.drop_last());
        assert forall|i: int| 0 <= i < ps.len() implies queue_ids(m, q, min_h, ps).1 <= m[#[trigger] ps[i]].1.height by {
            if i < ps.len() - 1 {
                assert(ps[i] == ps.drop_last()[i]);
            }
        }
    }
}

/// The greatest height is at least that of each block.
proof fn lemma_max_height_ge<B: BlockT>(m: Map<HashID, (B, BlockMD)>, bs: Seq<HashID>)
    ensures
        forall|i: int| 0 <= i < bs.len() ==> m[#[trigger] bs[i]].1.height <= max_height(m, bs),
    decreases bs.len(),
{
    if bs.len() > 0 {
        lemma_max_height_ge(m, bs.drop_last());
        assert forall|i: int| 0 <= i < bs.len() implies m[#[trigger] bs[i]].1.height <= max_height(m, bs) by {
            if i < bs.len() - 1 {
                assert(bs[i] == bs.drop_last()[i]);
            }
        }
    }
}

/// The lower of two heights.
spec fn min_level(h: int, hx: int) -> int {
    if h < hx {
        h
    } else {
        hx
    }
}

/// While each of `bs` has its first-parent ancestor queued at the level the walk has reached
/// (or itself, if lower), and no lower than the lowest queued height, the block the walk
/// answers is an ancestor of each of them.
proof fn lemma_walk_anc<B: BlockT>(
    m: Map<HashID, (B, BlockMD)>,
    q: Map<Height, Seq<HashID>>,
    inter: Map<Height, Seq<HashID>>,
    min_h: Height,
    h: int,
    bs: Seq<HashID>,
)
    requires
        forall|k: HashID| #[trigger] m.contains_key(k) ==> block_wf(m, k),
        valid_queue(m, q),
        bs.len() > 0,
        forall|i: int| 0 <= i < bs.len() ==> m.contains_key(#[trigger] bs[i]) && min_h <= m[bs[i]].1.height,
        0 <= h ==> forall|i: int|
            0 <= i < bs.len() ==> queued(
                q,
                min_level(h, m[#[trigger] bs[i]].1.height as int) as Height,
                first_anc(m, bs[i], (m[bs[i]].1.height - min_level(h, m[bs[i]].1.height as int)) as nat),
            ),
    ensures
        match lca_walk(m, q, inter, min_h, h) {
            Some(r) => forall|i: int| 0 <= i < bs.len() ==> ancestors(m, #[trigger] bs[i], Set::empty()).contains(r.0),
            None => true,
        },
    decreases h + 1,
{
    if 0 <= h <= u32::MAX {
        let hh = h as Height;
        let at = if q.contains_key(hh) { q[hh] } else { Seq::empty() };
        let inter2 = inter.insert(hh, at);
        let expand = hh > min_h || at.len() > 1;
        let r = if expand { expand_level(m, q, min_h, at) } else { (q, min_h) };
        if expand {
            assert forall|i: int| 0 <= i < at.len() implies m.contains_key(#[trigger] at[i]) by {
                assert(q.contains_key(hh));
                assert(m.contains_key(q[hh][i]));
            }
            lemma_expand_level(m, q, min_h, at);
        }
        if hh <= r.1 && at.len() == 1 {
            assert forall|i: int| 0 <= i < bs.len() implies ancestors(m, #[trigger] bs[i], Set::empty()).contains(at[0]) by {
                let hx = m[bs[i]].1.height;
                assert(min_level(h, hx as int) == h);
                let a = first_anc(m, bs[i], (hx - h) as nat);
                assert(queued(q, hh, a));
                assert(at.contains(a));
                lemma_first_anc(m, bs[i], (hx - h) as nat);
            }
        } else {
            if !expand {
                let hx = m[bs[0]].1.height;
                assert(min_level(h, hx as int) == h);
                assert(queued(q, hh, first_anc(m, bs[0], (hx - h) as nat)));
                assert(false);
            }
            if h >= 1 {
                assert forall|i: int|
                    0 <= i < bs.len() implies queued(
                    r.0,
                    min_level(h - 1, m[#[trigger] bs[i]].1.height as int) as Height,
                    first_anc(m, bs[i], (m[bs[i]].1.height - min_level(h - 1, m[bs[i]].1.height as int)) as nat),
                ) by {
                    let x = bs[i];
                    let hx = m[x].1.height;
                    if hx <= h - 1 {
                        assert(min_level(h, hx as int) == hx);
                        assert(queued(q, hx, first_anc(m, x, 0)));
                    } else {
                        let n = (hx - h) as nat;
                        assert(min_level(h, hx as int) == h);
                        let a = first_anc(m, x, n);
                        assert(queued(q, hh, a));
                        lemma_first_anc(m, x, n);
                        lemma_first_anc(m, x, n + 1);
                        lemma_first_anc_step(m, x, n);
                        let j = choose|j: int| 0 <= j < at.len() && at[j] == a;
                        assert(block_wf(m, a));
                        assert(0 < m[at[j]].0.spec_parents().len());
                        assert(queued(r.0, m[m[at[j]].0.spec_parents()[0]].1.height, m[at[j]].0.spec_parents()[0]));
                        assert(min_level(h - 1, hx as int) == h - 1);
                        assert((hx - (h - 1)) as nat == n + 1);
                    }
                }
            }
            lemma_walk_anc(m, r.0, inter2, r.1, h - 1, bs);
        }
    }
}

/// The common ancestor the LCA finds for stored blocks is an ancestor of each of them (or one
/// of them itself): it lies on the line of first parents of every one.
pub proof fn lemma_lca_is_common_ancestor<B: BlockT>(m: Map<HashID, (B, BlockMD)>, bs: Seq<HashID>)
    requires
        forall|k: HashID| #[trigger] m.contains_key(k) ==> block_wf(m, k),
    ensures
        match lca_spec(m, bs) {
            Some(s) => forall|i: int| 0 <= i < bs.len() ==> ancestors(m, #[trigger] bs[i], Set::empty()).contains(s.0),
            None => true,
        },
{
    if lca_spec(m, bs) is Some {
        assert forall|i: int| 0 <= i < bs.len() implies m.contains_key(#[trigger] bs[i]) by {
            if !m.contains_key(bs[i]) {
                assert(lca_spec(m, bs) is None);
            }
        }
        assert(valid_queue(m, Map::<Height, Seq<HashID>>::empty()));
        lemma_queue_ids(m, Map::empty(), u32::MAX, bs);
        lemma_queue_ids_min(m, Map::empty(), u32::MAX, bs);
        lemma_max_height_ge(m, bs);
        let r = queue_ids(m, Map::empty(), u32::MAX, bs);
        let h0 = max_height(m, bs) as int;
        assert forall|i: int|
            0 <= i < bs.len() implies queued(
            r.0,
            min_level(h0, m[#[trigger] bs[i]].1.height as int) as Height,
            first_anc(m, bs[i], (m[bs[i]].1.height - min_level(h0, m[bs[i]].1.height as int)) as nat),
        ) by {
            assert(min_level(h0, m[bs[i]].1.height as int) == m[bs[i]].1.height);
            assert(first_anc(m, bs[i], 0) == bs[i]);
        }
        lemma_walk_anc(m, r.0, Map::empty(), r.1, h0, bs);
    }
}

/// Queues `p` at level `h` of `q`, unless it is there already, and lowers `min_h` to `h`.
fn queue_one(q: &mut HashMap<Height, Vec<HashID>>, min_h: &mut Height, p: HashID, h: Height)
    ensures
        (qview(final(q)@), *final(min_h)) == queue_id(qview(old(q)@), *old(min_h), p, h),
{
    let ghost q0 = qview(q@);
    let mut lvl = match q.remove(&h) {
        Some(v) => v,
        None => Vec::new(),
    };
    let ghost lvl0 = lvl@;
    if !vec_contains(&lvl, p) {
        lvl.push(p);
    }
    q.insert(h, lvl);
    if h < *min_h {
        *min_h = h;
    }
    proof {
        let lv = if q0.contains_key(h) { q0[h] } else { Seq::<HashID>::empty() };
        assert(lvl0 == lv);
        if lv.contains(p) {
            assert(qview(q@) =~= q0);
        } else {
            assert(qview(q@) =~= q0.insert(h, lv.push(p)));
        }
    }
}

/// What the LCA records of each of `ids`, in order.
fn infos_of<B: BlockT>(store: &BlockStore<B>, ids: &Vec<HashID>) -> (r: Vec<BInfo>)
    requires
        forall|i: int| 0 <= i < ids@.len() ==> store@.contains_key(#[trigger] ids@[i]),
    ensures
        r@ == ids@.map_values(|id: HashID| binfo_of(store@, id)),
{
    let mut r: Vec<BInfo> = Vec::new();
    let mut i: usize = 0;
    while i < ids.len()
        invariant
            i <= ids.len(),
            forall|j: int| 0 <= j < ids@.len() ==> store@.contains_key(#[trigger] ids@[j]),
            r@ == ids@.take(i as int).map_values(|id: HashID| binfo_of(store@, id)),
        decreases ids.len() - i,
    {
        let id = ids[i];
        match store.get(id) {
            Some(e) => {
                r.push(BInfo {
                    id,
                    weight: e.1.weight,
                    reflected_weight: e.1.reflected_weight,
                    chain_weight: e.1.chain_weight,
                    local_chain_weight: e.1.local_chain_weight,
                });
            },
            None => {},
        }
        assert(r@ =~= ids@.take(i + 1).map_values(|id: HashID| binfo_of(store@, id)));
        i += 1;
    }
    assert(ids@.take(ids.len() as int) =~= ids@);
    r
}

/// The common ancestor of `bs` and the blocks between them and it, level by level (see
/// [`lca_spec`]); `None` for no blocks, for a block that is not stored, or when the walk
/// passes below level 0.
pub fn lca_and_intermediates<B: BlockT>(store: &BlockStore<B>, bs: &Vec<HashID>) -> (r: Option<(HashID, HashMap<Height, Vec<BInfo>>)>)
    requires
        store.wf(),
    ensures
        match (r, lca_spec(store@, bs@)) {
            (Some(x), Some(s)) => x.0 == s.0 && levels_match(store@, x.1@, s.1),
            (None, None) => true,
            _ => false,
        },
{
    let ghost m = store@;
    if bs.len() == 0 {
        return None;
    }
    let mut q: HashMap<Height, Vec<HashID>> = HashMap::new();
    let mut min_h: Height = u32::MAX;
    let mut max_h: Height = 0;
    let mut i: usize = 0;
    assert(qview(q@) =~= Map::<Height, Seq<HashID>>::empty());
    assert(bs@.take(0) =~= Seq::<HashID>::empty());
    while i < bs.len()
        invariant
            store.wf(),
            m == store@,
            i <= bs.len(),
            forall|j: int| 0 <= j < i ==> m.contains_key(#[trigger] bs@[j]),
            (qview(q@), min_h) == queue_ids(m, Map::empty(), u32::MAX, bs@.take(i as int)),
            max_h == max_height(m, bs@.take(i as int)),
        decreases bs.len() - i,
    {
        let id = bs[i];
        let h = match store.get(id) {
            Some(e) => e.1.height,
            None => {
                assert(!m.contains_key(bs@[i as int]));
                return None;
            },
        };
        assert(bs@.take(i + 1).drop_last() =~= bs@.take(i as int));
        assert(bs@.take(i + 1).last() == id);
        queue_one(&mut q, &mut min_h, id, h);
        if h > max_h {
            max_h = h;
        }
        i += 1;
    }
    assert(bs@.take(bs.len() as int) =~= bs@);
    let mut inter: HashMap<Height, Vec<BInfo>> = HashMap::new();
    let ghost mut ginter: Map<Height, Seq<HashID>> = Map::empty();
    let mut h: Height = max_h;
    proof {
        assert(valid_queue(m, Map::<Height, Seq<HashID>>::empty()));
        lemma_queue_ids(m, Map::empty(), u32::MAX, bs@);
        lemma_max_height_attained(m, bs@);
        let k = choose|k: int| 0 <= k < bs.len() && m[#[trigger] bs@[k]].1.height == max_height(m, bs@);
        assert(queued(qview(q@), m[bs@[k]].1.height, bs@[k]));
        assert(inter@.dom() =~= ginter.dom());
    }
    loop
        invariant
            store.wf(),
            m == store@,
            lca_spec(m, bs@) == lca_walk(m, qview(q@), ginter, min_h, h as int),
            valid_queue(m, qview(q@)),
            qview(q@).contains_key(h),
            levels_match(m, inter@, ginter),
        decreases h,
    {
        let at = match q.get(&h) {
            Some(v) => copy_ids(v),
            None => {
                return None;
            },
        };
        let ghost q_before = qview(q@);
        let ghost min_before = min_h;
        assert(at@ == q_before[h]);
        let expand = h > min_h || at.len() > 1;
        if expand {
            let mut j: usize = 0;
            assert(at@.take(0) =~= Seq::<HashID>::empty());
            while j < at.len()
                invariant
                    store.wf(),
                    m == store@,
                    j <= at.len(),
                    at@ == q_before[h],
                    valid_queue(m, q_before),
                    q_before.contains_key(h),
                    (qview(q@), min_h) == expand_level(m, q_before, min_before, at@.take(j as int)),
                decreases at.len() - j,
            {
                let a = at[j];
                assert(m.contains_key(q_before[h][j as int]));
                let e = store.get(a).unwrap();
                proof {
                    assert(block_wf(m, a));
                }
                let ps = e.0.all_parents();
                let ghost q_mid = qview(q@);
                let ghost min_mid = min_h;
                let mut k: usize = 0;
                assert(ps@.take(0) =~= Seq::<HashID>::empty());
                while k < ps.len()
                    invariant
                        store.wf(),
                        m == store@,
                        k <= ps.len(),
                        ps@ == m[a].0.spec_parents(),
                        forall|t: int| 0 <= t < ps@.len() ==> m.contains_key(#[trigger] m[a].0.spec_parents()[t]),
                        (qview(q@), min_h) == queue_ids(m, q_mid, min_mid, ps@.take(k as int)),
                    decreases ps.len() - k,
                {
                    let p = ps[k];
                    let ph = match store.get(p) {
                        Some(pe) => pe.1.height,
                        None => 0,
                    };
                    assert(ps@.take(k + 1).drop_last() =~= ps@.take(k as int));
                    assert(ps@.take(k + 1).last() == p);
                    queue_one(&mut q, &mut min_h, p, ph);
                    k += 1;
                }
                assert(ps@.take(ps.len() as int) =~= ps@);
                assert(at@.take(j + 1).drop_last() =~= at@.take(j as int));
                assert(at@.take(j + 1).last() == a);
                j += 1;
            }
            assert(at@.take(at.len() as int) =~= at@);
        }
        assert forall|t: int| 0 <= t < at@.len() implies m.contains_key(#[trigger] at@[t]) by {
            assert(m.contains_key(q_before[h][t]));
        }
        let infos = infos_of(store, &at);
        let ghost inter_before = ginter;
        inter.insert(h, infos);
        proof {
            ginter = ginter.insert(h, at@);
            assert(inter@.dom() =~= ginter.dom());
        }
        if h <= min_h && at.len() == 1 {
            return Some((at[0], inter));
        }
        if h == 0 {
            proof {
                let r = if expand { expand_level(m, q_before, min_before, at@) } else { (q_before, min_before) };
                assert(r == (qview(q@), min_h));
                assert(lca_walk(m, q_before, inter_before, min_before, 0) == lca_walk(m, r.0, ginter, r.1, -1));
            }
            return None;
        }
        proof {
            assert(expand);
            lemma_expand_level(m, q_before, min_before, at@);
            let a = at@[0];
            assert(m.contains_key(q_before[h][0]));
            assert(block_wf(m, a));
            let pa = m[a].0.spec_parents()[0];
            assert(queued(qview(q@), m[pa].1.height, pa));
            assert(block_wf(m, pa));
        }
        h = h - 1;
    }
}

} // verus!
