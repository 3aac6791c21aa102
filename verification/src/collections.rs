use vstd::prelude::*;

verus! {

/// A hash set of ids, hashed by passing the id through unchanged.
///
/// The set itself is hashbrown's; Verus sees it only through `id_set_contents`
/// and the trusted functions below.
#[verifier::external_body]
pub struct IdSet {
    set: hashbrown::HashSet<u64, std::hash::BuildHasherDefault<hashers::null::PassThroughHasher>>,
}

/// The ids that an [`IdSet`] holds.
pub uninterp spec fn id_set_contents(s: IdSet) -> Set<u64>;

/// A hash map from ids to weights (the heads of a chain and their chain weight).
#[verifier::external_body]
pub struct ChainHeads {
    map: hashbrown::HashMap<u64, u64, std::hash::BuildHasherDefault<hashers::null::PassThroughHasher>>,
}

/// The entries that a [`ChainHeads`] map holds.
pub uninterp spec fn chain_heads_contents(m: ChainHeads) -> Map<u64, u64>;

/// `hashbrown::HashSet::default`: an empty set.
#[verifier::external_body]
fn set_raw_new() -> (r: IdSet)
    ensures
        id_set_contents(r) == Set::<u64>::empty(),
{
    IdSet { set: Default::default() }
}

/// `hashbrown::HashSet::insert`: adds `id`; returns whether it was absent.
#[verifier::external_body]
fn set_raw_insert(s: &mut IdSet, id: u64) -> (r: bool)
    ensures
        id_set_contents(*final(s)) == id_set_contents(*old(s)).insert(id),
        r == !id_set_contents(*old(s)).contains(id),
{
    s.set.insert(id)
}

/// `hashbrown::HashSet::remove`: removes `id`; returns whether it was present.
#[verifier::external_body]
fn set_raw_remove(s: &mut IdSet, id: u64) -> (r: bool)
    ensures
        id_set_contents(*final(s)) == id_set_contents(*old(s)).remove(id),
        r == id_set_contents(*old(s)).contains(id),
{
    s.set.remove(&id)
}

/// `hashbrown::HashSet::contains`.
#[verifier::external_body]
fn set_raw_contains(s: &IdSet, id: u64) -> (r: bool)
    ensures
        r == id_set_contents(*s).contains(id),
{
    s.set.contains(&id)
}

/// `hashbrown::HashSet::clear`: the set becomes empty.
#[verifier::external_body]
fn set_raw_clear(s: &mut IdSet)
    ensures
        id_set_contents(*final(s)) == Set::<u64>::empty(),
{
    s.set.clear()
}

/// `hashbrown::HashSet::len`: the number of ids, which are finitely many.
#[verifier::external_body]
fn set_raw_len(s: &IdSet) -> (r: usize)
    ensures
        r == id_set_contents(*s).len(),
{
    s.set.len()
}

/// `hashbrown::HashSet::iter`, collected: every id once, in the set's own order,
/// which this contract leaves open.
#[verifier::external_body]
fn set_raw_to_vec(s: &IdSet) -> (r: Vec<u64>)
    ensures
        r@.no_duplicates(),
        r@.to_set() == id_set_contents(*s),
{
    s.set.iter().cloned().collect()
}

/// `hashbrown::HashSet::clone`: a set with the same ids.
#[verifier::external_body]
fn set_raw_copy(s: &IdSet) -> (r: IdSet)
    ensures
        id_set_contents(r) == id_set_contents(*s),
{
    IdSet { set: s.set.clone() }
}

/// `hashbrown::HashMap::default`: an empty map.
#[verifier::external_body]
fn heads_raw_new() -> (r: ChainHeads)
    ensures
        chain_heads_contents(r).dom() == Set::<u64>::empty(),
{
    ChainHeads { map: Default::default() }
}

/// `hashbrown::HashMap::insert`: maps `id` to `w`; returns the weight it replaced.
#[verifier::external_body]
fn heads_raw_insert(s: &mut ChainHeads, id: u64, w: u64) -> (r: Option<u64>)
    ensures
        chain_heads_contents(*final(s)) == chain_heads_contents(*old(s)).insert(id, w),
        r == (if chain_heads_contents(*old(s)).dom().contains(id) {
            Some(chain_heads_contents(*old(s))[id])
        } else {
            None
        }),
{
    s.map.insert(id, w)
}

/// `hashbrown::HashMap::remove`: removes `id`; returns the weight it had.
#[verifier::external_body]
fn heads_raw_remove(s: &mut ChainHeads, id: u64) -> (r: Option<u64>)
    ensures
        chain_heads_contents(*final(s)) == chain_heads_contents(*old(s)).remove(id),
        r == (if chain_heads_contents(*old(s)).dom().contains(id) {
            Some(chain_heads_contents(*old(s))[id])
        } else {
            None
        }),
{
    s.map.remove(&id)
}

/// `hashbrown::HashMap::get`: the weight of `id`, if it is a key.
#[verifier::external_body]
fn heads_raw_get(s: &ChainHeads, id: u64) -> (r: Option<u64>)
    ensures
        r == (if chain_heads_contents(*s).dom().contains(id) {
            Some(chain_heads_contents(*s)[id])
        } else {
            None
        }),
{
    s.map.get(&id).cloned()
}

/// `hashbrown::HashMap::contains_key`.
#[verifier::external_body]
fn heads_raw_contains_key(s: &ChainHeads, id: u64) -> (r: bool)
    ensures
        r == chain_heads_contents(*s).dom().contains(id),
{
    s.map.contains_key(&id)
}

/// `hashbrown::HashMap::iter`, collected: every entry once, in the map's own order,
/// which this contract leaves open.
#[verifier::external_body]
fn heads_raw_entries(s: &ChainHeads) -> (r: Vec<(u64, u64)>)
    ensures
        r@.map_values(|e: (u64, u64)| e.0).no_duplicates(),
        forall|i: int|
            0 <= i < r@.len() ==> chain_heads_contents(*s).dom().contains(#[trigger] r@[i].0)
                && chain_heads_contents(*s)[r@[i].0] == r@[i].1,
        forall|k: u64|
            chain_heads_contents(*s).dom().contains(k) ==> exists|i: int|
                0 <= i < r@.len() && #[trigger] r@[i].0 == k,
{
    s.map.iter().map(|(k, v)| (*k, *v)).collect()
}

/// `hashbrown::HashMap::clone`: a map with the same entries.
#[verifier::external_body]
fn heads_raw_copy(s: &ChainHeads) -> (r: ChainHeads)
    ensures
        chain_heads_contents(r) == chain_heads_contents(*s),
{
    ChainHeads { map: s.map.clone() }
}

impl IdSet {
    pub open spec fn view(&self) -> Set<u64> {
        id_set_contents(*self)
    }

    /// An empty set.
    pub fn new() -> (r: IdSet)
        ensures
            id_set_contents(r) == Set::<u64>::empty(),
    {
        set_raw_new()
    }

    /// Adds `id`; returns whether it was absent.
    pub fn insert(&mut self, id: u64) -> (r: bool)
        ensures
            id_set_contents(*final(self)) == id_set_contents(*old(self)).insert(id),
            r == !id_set_contents(*old(self)).contains(id),
    {
        set_raw_insert(self, id)
    }

    /// Removes `id`; returns whether it was present.
    pub fn remove(&mut self, id: u64) -> (r: bool)
        ensures
            id_set_contents(*final(self)) == id_set_contents(*old(self)).remove(id),
            r == id_set_contents(*old(self)).contains(id),
    {
        set_raw_remove(self, id)
    }

    /// Whether `id` is in the set.
    pub fn contains(&self, id: u64) -> (r: bool)
        ensures
            r == id_set_contents(*self).contains(id),
    {
        set_raw_contains(self, id)
    }

    /// Empties the set.
    pub fn clear(&mut self)
        ensures
            id_set_contents(*final(self)) == Set::<u64>::empty(),
    {
        set_raw_clear(self)
    }

    /// The number of ids.
    pub fn len(&self) -> (r: usize)
        ensures
            r == id_set_contents(*self).len(),
    {
        set_raw_len(self)
    }

    /// Every id once, in the set's own order.
    pub fn to_vec(&self) -> (r: Vec<u64>)
        ensures
            r@.no_duplicates(),
            r@.to_set() == id_set_contents(*self),
    {
        set_raw_to_vec(self)
    }

    /// A set with the same ids.
    pub fn copy(&self) -> (r: IdSet)
        ensures
            id_set_contents(r) == id_set_contents(*self),
    {
        set_raw_copy(self)
    }

    /// A set holding exactly `id`.
    pub fn singleton(id: u64) -> (r: IdSet)
        ensures
            r@ == set![id],
    {
        let mut s = IdSet::new();
        s.insert(id);
        assert(s@ =~= set![id]);
        s
    }

    /// A set holding the ids of `v`.
    pub fn from_vec(v: &Vec<u64>) -> (r: IdSet)
        ensures
            r@ == v@.to_set(),
    {
        let mut s = IdSet::new();
        let mut i: usize = 0;
        while i < v.len()
            invariant
                i <= v.len(),
                s@ == v@.take(i as int).to_set(),
            decreases v.len() - i,
        {
            proof {
                assert(v@.take(i + 1) =~= v@.take(i as int).push(v@[i as int]));
                lemma_push_to_set(v@.take(i as int), v@[i as int]);
            }
            s.insert(v[i]);
            i += 1;
        }
        assert(v@.take(v.len() as int) =~= v@);
        s
    }

    /// Adds every id of `v`.
    pub fn extend(&mut self, v: &Vec<u64>)
        ensures
            final(self)@ == old(self)@.union(v@.to_set()),
    {
        let mut i: usize = 0;
        while i < v.len()
            invariant
                i <= v.len(),
                self@ == old(self)@.union(v@.take(i as int).to_set()),
            decreases v.len() - i,
        {
            proof {
                assert(v@.take(i + 1) =~= v@.take(i as int).push(v@[i as int]));
                lemma_push_to_set(v@.take(i as int), v@[i as int]);
            }
            self.insert(v[i]);
            proof {
                assert(self@ =~= old(self)@.union(v@.take(i + 1).to_set()));
            }
            i += 1;
        }
        assert(v@.take(v.len() as int) =~= v@);
    }
}

impl ChainHeads {
    pub open spec fn view(&self) -> Map<u64, u64> {
        chain_heads_contents(*self)
    }

    /// An empty map.
    pub fn new() -> (r: ChainHeads)
        ensures
            chain_heads_contents(r).dom() == Set::<u64>::empty(),
    {
        heads_raw_new()
    }

    /// Maps `id` to `w`; returns the weight it replaced.
    pub fn insert(&mut self, id: u64, w: u64) -> (r: Option<u64>)
        ensures
            chain_heads_contents(*final(self)) == chain_heads_contents(*old(self)).insert(id, w),
            r == (if chain_heads_contents(*old(self)).dom().contains(id) {
                Some(chain_heads_contents(*old(self))[id])
            } else {
                None
            }),
    {
        heads_raw_insert(self, id, w)
    }

    /// Removes `id`; returns the weight it had.
    pub fn remove(&mut self, id: u64) -> (r: Option<u64>)
        ensures
            chain_heads_contents(*final(self)) == chain_heads_contents(*old(self)).remove(id),
            r == (if chain_heads_contents(*old(self)).dom().contains(id) {
                Some(chain_heads_contents(*old(self))[id])
            } else {
                None
            }),
    {
        heads_raw_remove(self, id)
    }

    /// The weight of `id`, if it is a key.
    pub fn get(&self, id: u64) -> (r: Option<u64>)
        ensures
            r == (if chain_heads_contents(*self).dom().contains(id) {
                Some(chain_heads_contents(*self)[id])
            } else {
                None
            }),
    {
        heads_raw_get(self, id)
    }

    /// Whether `id` is a key.
    pub fn contains_key(&self, id: u64) -> (r: bool)
        ensures
            r == chain_heads_contents(*self).dom().contains(id),
    {
        heads_raw_contains_key(self, id)
    }

    /// Every entry once, in the map's own order.
    pub fn entries(&self) -> (r: Vec<(u64, u64)>)
        ensures
            r@.map_values(|e: (u64, u64)| e.0).no_duplicates(),
            forall|i: int|
                0 <= i < r@.len() ==> chain_heads_contents(*self).dom().contains(#[trigger] r@[i].0)
                    && chain_heads_contents(*self)[r@[i].0] == r@[i].1,
            forall|k: u64|
                chain_heads_contents(*self).dom().contains(k) ==> exists|i: int|
                    0 <= i < r@.len() && #[trigger] r@[i].0 == k,
    {
        heads_raw_entries(self)
    }

    /// A map with the same entries.
    pub fn copy(&self) -> (r: ChainHeads)
        ensures
            chain_heads_contents(r) == chain_heads_contents(*self),
    {
        heads_raw_copy(self)
    }

    /// A map with the single entry `id -> w`.
    pub fn singleton(id: u64, w: u64) -> (r: ChainHeads)
        ensures
            r@ == map![id => w],
    {
        let mut m = ChainHeads::new();
        m.insert(id, w);
        assert(m@ =~= map![id => w]);
        m
    }

    /// The keys of the map, each once, in the map's own order.
    pub fn keys(&self) -> (r: Vec<u64>)
        ensures
            r@.no_duplicates(),
            r@.to_set() == self@.dom(),
    {
        let es = self.entries();
        let mut r: Vec<u64> = Vec::new();
        let mut i: usize = 0;
        while i < es.len()
            invariant
                i <= es.len(),
                r@ == es@.take(i as int).map_values(|e: (u64, u64)| e.0),
            decreases es.len() - i,
        {
            r.push(es[i].0);
            proof {
                assert(es@.take(i + 1) =~= es@.take(i as int).push(es@[i as int]));
                assert(r@ =~= es@.take(i + 1).map_values(|e: (u64, u64)| e.0));
            }
            i += 1;
        }
        proof {
            assert(es@.take(es.len() as int) =~= es@);
            assert forall|k: u64| self@.dom().contains(k) implies r@.contains(k) by {
                let i = choose|i: int| 0 <= i < es@.len() && #[trigger] es@[i].0 == k;
                assert(r@[i] == k);
            }
            assert forall|k: u64| r@.contains(k) implies self@.dom().contains(k) by {
                let i = choose|i: int| 0 <= i < r@.len() && r@[i] == k;
                assert(es@[i].0 == k);
            }
            assert(r@.to_set() =~= self@.dom());
        }
        r
    }
}

/// Appending `x` to `s` adds `x` to the set of its elements.
pub proof fn lemma_push_to_set(s: Seq<u64>, x: u64)
    ensures
        s.push(x).to_set() == s.to_set().insert(x),
{
    assert forall|y: u64| s.push(x).to_set().contains(y) <==> s.to_set().insert(x).contains(y) by {
        if s.push(x).contains(y) && y != x {
            let i = choose|i: int| 0 <= i < s.push(x).len() && s.push(x)[i] == y;
            assert(s[i] == y);
        }
        if s.contains(y) {
            let i = choose|i: int| 0 <= i < s.len() && s[i] == y;
            assert(s.push(x)[i] == y);
        }
        if y == x {
            assert(s.push(x)[s.len() as int] == x);
        }
    }
    assert(s.push(x).to_set() =~= s.to_set().insert(x));
}

/// `s` with every repeated element dropped, keeping the first occurrence of each.
pub open spec fn dedup(s: Seq<u64>) -> Seq<u64>
    decreases s.len(),
{
    if s.len() == 0 {
        Seq::empty()
    } else {
        let d = dedup(s.drop_last());
        if d.contains(s.last()) {
            d
        } else {
            d.push(s.last())
        }
    }
}

/// A seq without repeats is its own `dedup`.
pub proof fn lemma_dedup_distinct(s: Seq<u64>)
    requires
        s.no_duplicates(),
    ensures
        dedup(s) == s,
    decreases s.len(),
{
    if s.len() > 0 {
        let s0 = s.drop_last();
        lemma_dedup_distinct(s0);
        if s0.contains(s.last()) {
            let i = choose|i: int| 0 <= i < s0.len() && s0[i] == s.last();
            assert(s[i] == s[s.len() - 1]);
        }
        assert(s0.push(s.last()) =~= s);
    }
}

/// The elements of `v` without repeats, in the order of their first occurrence.
pub fn unique(v: &Vec<u64>) -> (r: Vec<u64>)
    ensures
        r@ == dedup(v@),
        r@.no_duplicates(),
        r@.to_set() == v@.to_set(),
{
    let mut seen = IdSet::new();
    let mut r: Vec<u64> = Vec::new();
    let mut i: usize = 0;
    while i < v.len()
        invariant
            i <= v.len(),
            r@ == dedup(v@.take(i as int)),
            r@.no_duplicates(),
            seen@ == r@.to_set(),
            r@.to_set() == v@.take(i as int).to_set(),
        decreases v.len() - i,
    {
        let x = v[i];
        proof {
            assert(v@.take(i + 1).drop_last() =~= v@.take(i as int));
            assert(v@.take(i + 1).last() == x);
            assert(v@.take(i + 1) =~= v@.take(i as int).push(x));
            lemma_push_to_set(v@.take(i as int), x);
        }
        if !seen.contains(x) {
            proof {
                lemma_push_to_set(r@, x);
            }
            r.push(x);
            seen.insert(x);
        } else {
            assert(r@.to_set().contains(x));
            assert(r@.contains(x));
            assert(v@.take(i as int).to_set().insert(x) =~= v@.take(i as int).to_set());
        }
        i += 1;
    }
    assert(v@.take(v.len() as int) =~= v@);
    r
}

} // verus!

verus! {

/// A copy of `v`.
pub fn copy_ids(v: &Vec<u64>) -> (r: Vec<u64>)
    ensures
        r@ == v@,
{
    let mut r: Vec<u64> = Vec::new();
    let mut i: usize = 0;
    while i < v.len()
        invariant
            i <= v.len(),
            r@ == v@.take(i as int),
        decreases v.len() - i,
    {
        r.push(v[i]);
        assert(v@.take(i + 1) =~= v@.take(i as int).push(v@[i as int]));
        i += 1;
    }
    assert(v@.take(v.len() as int) =~= v@);
    r
}

/// Whether `v` holds `x`.
pub fn vec_contains(v: &Vec<u64>, x: u64) -> (r: bool)
    ensures
        r == v@.contains(x),
{
    let mut i: usize = 0;
    while i < v.len()
        invariant
            i <= v.len(),
            forall|j: int| 0 <= j < i ==> v@[j] != x,
        decreases v.len() - i,
    {
        if v[i] == x {
            assert(v@[i as int] == x);
            return true;
        }
        i += 1;
    }
    false
}

/// `a` before `b` in the order (weight, id), largest first: `a` is (id, weight).
pub open spec fn heavier_first(a: (u64, u64), b: (u64, u64)) -> bool {
    a.1 > b.1 || (a.1 == b.1 && a.0 >= b.0)
}

/// The seq is ordered by (weight, id), largest first.
pub open spec fn sorted_heaviest_first(s: Seq<(u64, u64)>) -> bool {
    forall|i: int, j: int| 0 <= i < j < s.len() ==> heavier_first(#[trigger] s[i], #[trigger] s[j])
}

/// The entries of `v` ordered by (weight, id), largest first.
pub fn sort_heaviest_first(v: &Vec<(u64, u64)>) -> (r: Vec<(u64, u64)>)
    ensures
        r@.len() == v@.len(),
        r@.to_multiset() == v@.to_multiset(),
        sorted_heaviest_first(r@),
{
    broadcast use vstd::seq_lib::group_to_multiset_ensures;
    let mut r: Vec<(u64, u64)> = Vec::new();
    let mut i: usize = 0;
    while i < v.len()
        invariant
            i <= v.len(),
            r@.len() == i,
            r@.to_multiset() == v@.take(i as int).to_multiset(),
            sorted_heaviest_first(r@),
        decreases v.len() - i,
    {
        let x = v[i];
        let mut k: usize = 0;
        while k < r.len() && heavier_first_exec(r[k], x)
            invariant
                k <= r.len(),
                forall|j: int| 0 <= j < k ==> heavier_first(#[trigger] r@[j], x),
            decreases r.len() - k,
        {
            k += 1;
        }
        proof {
            if k < r@.len() {
                assert(!heavier_first(r@[k as int], x));
                assert forall|j: int| k <= j < r@.len() implies heavier_first(x, #[trigger] r@[j]) by {
                    if j > k {
                        assert(heavier_first(r@[k as int], r@[j]));
                    }
                }
            }
        }
        let ghost old_r = r@;
        r.insert(k, x);
        proof {
            assert(r@ == old_r.insert(k as int, x));
            assert(v@.take(i + 1) =~= v@.take(i as int).push(x));
            vstd::seq_lib::to_multiset_insert(old_r, k as int, x);
            vstd::seq_lib::to_multiset_build(v@.take(i as int), x);
            assert(r@.to_multiset() =~= old_r.to_multiset().insert(x));
            assert forall|a: int, b: int| 0 <= a < b < r@.len() implies heavier_first(#[trigger] r@[a], #[trigger] r@[b]) by {
                if a < k && b < k {
                    assert(r@[a] == old_r[a] && r@[b] == old_r[b]);
                } else if a < k && b == k {
                } else if a < k && b > k {
                    assert(r@[a] == old_r[a] && r@[b] == old_r[b - 1]);
                } else if a == k {
                    assert(r@[b] == old_r[b - 1]);
                } else {
                    assert(r@[a] == old_r[a - 1] && r@[b] == old_r[b - 1]);
                }
            }
        }
        i += 1;
    }
    assert(v@.take(v.len() as int) =~= v@);
    r
}

fn heavier_first_exec(a: (u64, u64), b: (u64, u64)) -> (r: bool)
    ensures
        r == heavier_first(a, b),
{
    a.1 > b.1 || (a.1 == b.1 && a.0 >= b.0)
}

} // verus!
