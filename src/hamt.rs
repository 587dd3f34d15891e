//! The trie: nodes of sixteen handles, insertion with lazy splitting, lookup,
//! and removal with collapse of singleton branches.

use vstd::prelude::*;
use vstd::std_specs::vec::axiom_vec_index_decreases;
use crate::search::{HAMTSearch, SearchResult};
use crate::slot::{
    calculate_slot, hash_key, key_hash, lemma_sea_hash_injective, lemma_slot_bound, lemma_slots_determine_hash, slot_of,
    N_BUCKETS,
};

verus! {

broadcast use axiom_vec_index_decreases;

/// Deepest level at which two colliding keys are still split apart.
pub const MAX_DEPTH: usize = 64;

/// One bucket of a node.
pub enum Handle<V> {
    /// Nothing in the bucket.
    Empty,
    /// A key-value pair stored inline.
    Leaf(u64, V),
    /// A subtree owned by the bucket.
    Node(Box<HAMT<V>>),
}

/// A node of the trie; the root is the map itself.
pub struct HAMT<V> {
    pub slots: Vec<Handle<V>>,
}

/// Why an insertion was refused.
#[derive(Debug, PartialEq, Eq, Structural)]
pub enum HAMTError {
    /// The new key and a stored key select the same bucket at every level up
    /// to `MAX_DEPTH`, so no split can separate them.
    Collision,
}

impl<V> Handle<V> {
    pub open spec fn is_leaf_with(self, k: u64) -> bool {
        match self {
            Handle::Leaf(k2, _) => k2 == k,
            _ => false,
        }
    }
}

impl<V> Handle<V> {
    /// Whether `k` is stored in this bucket or below it.
    pub open spec fn holds(self, k: u64) -> bool {
        match self {
            Handle::Empty => false,
            Handle::Leaf(k2, _) => k2 == k,
            Handle::Node(n) => n.has_key(k),
        }
    }
}

/// Number of leaf handles among the first `n` handles of `s`.
pub open spec fn leaf_count<V>(s: Seq<Handle<V>>, n: int) -> nat
    decreases n,
{
    if n <= 0 {
        0
    } else {
        leaf_count(s, n - 1) + if s[n - 1] is Leaf { 1nat } else { 0nat }
    }
}

/// Number of node handles among the first `n` handles of `s`.
pub open spec fn node_count<V>(s: Seq<Handle<V>>, n: int) -> nat
    decreases n,
{
    if n <= 0 {
        0
    } else {
        node_count(s, n - 1) + if s[n - 1] is Node { 1nat } else { 0nat }
    }
}

impl<V> HAMT<V> {
    /// The value stored for `k` in the subtree at `depth`, found by following
    /// the buckets that the hash of `k` selects.
    pub open spec fn lookup(self, depth: nat, k: u64) -> Option<V>
        decreases self,
    {
        let s = slot_of(key_hash(k), depth) as int;
        if 0 <= s < self.slots@.len() {
            match self.slots@[s] {
                Handle::Empty => None,
                Handle::Leaf(k2, v) => if k2 == k { Some(v) } else { None },
                Handle::Node(n) => n.lookup(depth + 1, k),
            }
        } else {
            None
        }
    }

    /// Whether `k` is stored in some leaf of the subtree.
    pub open spec fn has_key(self, k: u64) -> bool
        decreases self,
    {
        exists|i: int|
            0 <= i < self.slots@.len() && match #[trigger] self.slots@[i] {
                Handle::Empty => false,
                Handle::Leaf(k2, _) => k2 == k,
                Handle::Node(n) => n.has_key(k),
            }
    }

    /// Every key of the subtree selects bucket `i` at `depth`.
    pub open spec fn keys_select(self, depth: nat, i: int) -> bool {
        forall|k: u64| #[trigger] self.has_key(k) ==> slot_of(key_hash(k), depth) == i
    }

    /// A node whose only content is a single leaf.
    pub open spec fn is_singleton(self) -> bool {
        leaf_count(self.slots@, 16) == 1 && node_count(self.slots@, 16) == 0
    }

    /// A node with nothing in it.
    pub open spec fn is_empty_node(self) -> bool {
        leaf_count(self.slots@, 16) == 0 && node_count(self.slots@, 16) == 0
    }

    /// Well-formedness of a subtree at `depth`: sixteen buckets; each key sits
    /// in the bucket its hash selects; and no node below holds a single leaf
    /// and nothing else, or nothing at all.
    pub open spec fn wf_at(self, depth: nat) -> bool
        decreases self,
    {
        &&& depth < MAX_DEPTH
        &&& self.slots@.len() == 16
        &&& forall|i: int| 0 <= i < 16 ==> match #[trigger] self.slots@[i] {
            Handle::Empty => true,
            Handle::Leaf(k, _) => slot_of(key_hash(k), depth) == i,
            Handle::Node(n) => {
                &&& n.wf_at(depth + 1)
                &&& !n.is_singleton()
                &&& !n.is_empty_node()
                &&& n.keys_select(depth, i)
            }
        }
    }

    /// What `wf_at` asks of bucket `i`.
    pub open spec fn slot_wf(self, i: int, depth: nat) -> bool {
        0 <= i < self.slots@.len() && match self.slots@[i] {
            Handle::Empty => true,
            Handle::Leaf(k, _) => slot_of(key_hash(k), depth) == i,
            Handle::Node(n) => {
                &&& n.wf_at(depth + 1)
                &&& !n.is_singleton()
                &&& !n.is_empty_node()
                &&& n.keys_select(depth, i)
            }
        }
    }

    /// Well-formedness of a whole map.
    pub open spec fn wf(self) -> bool {
        self.wf_at(0)
    }
}

impl<V> View for HAMT<V> {
    type V = Map<u64, V>;

    open spec fn view(&self) -> Map<u64, V> {
        Map::new(|k: u64| self.lookup(0, k) is Some, |k: u64| self.lookup(0, k)->0)
    }
}

impl<V> HAMT<V> {
    /// An empty map.
    pub fn new() -> (r: Self)
        ensures
            r.wf(),
            r@ == Map::<u64, V>::empty(),
            r.slots@.len() == 16,
            forall|i: int| 0 <= i < 16 ==> #[trigger] r.slots@[i] is Empty,
    {
        let mut slots: Vec<Handle<V>> = Vec::new();
        let mut i: usize = 0;
        while i < N_BUCKETS
            invariant
                i <= N_BUCKETS,
                slots@.len() == i,
                forall|j: int| 0 <= j < i ==> slots@[j] is Empty,
            decreases N_BUCKETS - i,
        {
            slots.push(Handle::Empty);
            i = i + 1;
        }
        let r = HAMT { slots };
        assert forall|i: int| 0 <= i < 16 implies #[trigger] r.slot_wf(i, 0) by {}
        assert(r@ =~= Map::<u64, V>::empty()) by {
            assert forall|k: u64| r.lookup(0, k) is None by {
                lemma_slot_bound(key_hash(k), 0);
            }
        }
        r
    }

    /// The value stored for `k`, if any, found by driving a `HAMTSearch`
    /// from the root.
    pub fn get(&self, k: &u64) -> (r: Option<&V>)
        requires
            self.wf(),
        ensures
            r is Some == self@.contains_key(*k),
            r is Some ==> *r->0 == self@[*k],
    {
        let mut search = HAMTSearch::from(k);
        let mut node = self;
        loop
            invariant
                node.lookup(search.depth as nat, *k) == self.lookup(0, *k),
                node.wf_at(search.depth as nat),
                search.hash == key_hash(*k),
                search.key == *k,
            decreases *node,
        {
            let ghost d = search.depth;
            proof {
                lemma_slot_bound(search.hash, d as nat);
            }
            match search.next_slot(node) {
                SearchResult::Leaf(s) => {
                    match &node.slots[s] {
                        Handle::Leaf(_, v) => {
                            return Some(v);
                        },
                        _ => {
                            return None;
                        },
                    }
                },
                SearchResult::Path(s) => {
                    match &node.slots[s] {
                        Handle::Node(n) => {
                            node = n;
                        },
                        _ => {
                            return None;
                        },
                    }
                },
                SearchResult::NotFound => {
                    return None;
                },
            }
        }
    }
}

} // verus!
verus! {

proof fn lemma_leaf_count_two<V>(s: Seq<Handle<V>>, n: int, i: int, j: int)
    requires
        0 <= i < j < n <= s.len(),
        s[i] is Leaf,
        s[j] is Leaf,
    ensures
        leaf_count(s, n) >= 2,
    decreases n,
{
    if j < n - 1 {
        lemma_leaf_count_two(s, n - 1, i, j);
    } else {
        lemma_leaf_count_one(s, n - 1, i);
    }
}

proof fn lemma_leaf_count_one<V>(s: Seq<Handle<V>>, n: int, i: int)
    requires
        0 <= i < n <= s.len(),
        s[i] is Leaf,
    ensures
        leaf_count(s, n) >= 1,
    decreases n,
{
    if i < n - 1 {
        lemma_leaf_count_one(s, n - 1, i);
    }
}

proof fn lemma_node_count_one<V>(s: Seq<Handle<V>>, n: int, i: int)
    requires
        0 <= i < n <= s.len(),
        s[i] is Node,
    ensures
        node_count(s, n) >= 1,
    decreases n,
{
    if i < n - 1 {
        lemma_node_count_one(s, n - 1, i);
    }
}

/// The first depth from `depth` on, below `MAX_DEPTH`, at which `h1` and `h2`
/// select different buckets.
fn divergence(h1: u64, h2: u64, depth: usize) -> (r: Option<usize>)
    requires
        depth <= MAX_DEPTH,
    ensures
        r matches Some(d) ==> {
            &&& depth <= d < MAX_DEPTH
            &&& slot_of(h1, d as nat) != slot_of(h2, d as nat)
            &&& forall|j: nat| depth <= j < d ==> slot_of(h1, j) == slot_of(h2, j)
        },
        r is None ==> forall|j: nat| depth <= j < MAX_DEPTH ==> slot_of(h1, j) == slot_of(h2, j),
{
    let mut d = depth;
    while d < MAX_DEPTH
        invariant
            depth <= d <= MAX_DEPTH,
            forall|j: nat| depth <= j < d ==> slot_of(h1, j) == slot_of(h2, j),
        decreases MAX_DEPTH - d,
    {
        if calculate_slot(h1, d) != calculate_slot(h2, d) {
            return Some(d);
        }
        d = d + 1;
    }
    None
}

impl<V> HAMT<V> {
    /// A subtree at `depth` holding exactly two pairs whose key hashes agree
    /// on every level before `split` and part at `split`.
    fn make_pair(depth: usize, split: usize, k1: u64, h1: u64, v1: V, k2: u64, h2: u64, v2: V) -> (r: Self)
        requires
            depth <= split < MAX_DEPTH,
            h1 == key_hash(k1),
            h2 == key_hash(k2),
            slot_of(h1, split as nat) != slot_of(h2, split as nat),
            forall|j: nat| depth <= j < split ==> slot_of(h1, j) == slot_of(h2, j),
        ensures
            r.wf_at(depth as nat),
            !r.is_singleton(),
            !r.is_empty_node(),
            forall|k: u64| #[trigger] r.has_key(k) <==> (k == k1 || k == k2),
            forall|k: u64| #[trigger] r.lookup(depth as nat, k) == if k == k1 {
                Some(v1)
            } else if k == k2 {
                Some(v2)
            } else {
                None::<V>
            },
        decreases split - depth,
    {
        let mut r = HAMT::new();
        let s1 = calculate_slot(h1, depth);
        if depth == split {
            let s2 = calculate_slot(h2, depth);
            r.slots.set(s1, Handle::Leaf(k1, v1));
            r.slots.set(s2, Handle::Leaf(k2, v2));
            proof {
                assert(k1 != k2);
                if s1 < s2 {
                    lemma_leaf_count_two(r.slots@, 16, s1 as int, s2 as int);
                } else {
                    lemma_leaf_count_two(r.slots@, 16, s2 as int, s1 as int);
                }
                assert forall|k: u64| #[trigger] r.has_key(k) <==> (k == k1 || k == k2) by {
                    if k == k1 {
                        assert(r.slots@[s1 as int] is Leaf);
                    }
                    if k == k2 {
                        assert(r.slots@[s2 as int] is Leaf);
                    }
                }
                assert forall|k: u64| #[trigger] r.lookup(depth as nat, k) == if k == k1 {
                    Some(v1)
                } else if k == k2 {
                    Some(v2)
                } else {
                    None::<V>
                } by {
                    lemma_slot_bound(key_hash(k), depth as nat);
                }
            }
        } else {
            let child = HAMT::make_pair(depth + 1, split, k1, h1, v1, k2, h2, v2);
            r.slots.set(s1, Handle::Node(Box::new(child)));
            proof {
                assert(slot_of(h2, depth as nat) == slot_of(h1, depth as nat));
                lemma_node_count_one(r.slots@, 16, s1 as int);
                assert forall|k: u64| #[trigger] r.has_key(k) <==> (k == k1 || k == k2) by {
                    assert(child.has_key(k) <==> (k == k1 || k == k2));
                    if k == k1 || k == k2 {
                        assert(r.slots@[s1 as int] is Node);
                    }
                }
                assert forall|k: u64| #[trigger] r.lookup(depth as nat, k) == if k == k1 {
                    Some(v1)
                } else if k == k2 {
                    Some(v2)
                } else {
                    None::<V>
                } by {
                    lemma_slot_bound(key_hash(k), depth as nat);
                    let _ = child.lookup(depth as nat + 1, k);
                }
            }
        }
        r
    }
}


proof fn lemma_count_same<V>(s: Seq<Handle<V>>, t: Seq<Handle<V>>, n: int)
    requires
        0 <= n <= s.len(),
        n <= t.len(),
        forall|j: int| 0 <= j < n ==> s[j] == t[j],
    ensures
        leaf_count(s, n) == leaf_count(t, n),
        node_count(s, n) == node_count(t, n),
    decreases n,
{
    if n > 0 {
        lemma_count_same(s, t, n - 1);
    }
}

proof fn lemma_count_update<V>(s: Seq<Handle<V>>, n: int, i: int, x: Handle<V>)
    requires
        0 <= i < n <= s.len(),
    ensures
        leaf_count(s.update(i, x), n) + (if s[i] is Leaf { 1nat } else { 0nat })
            == leaf_count(s, n) + (if x is Leaf { 1nat } else { 0nat }),
        node_count(s.update(i, x), n) + (if s[i] is Node { 1nat } else { 0nat })
            == node_count(s, n) + (if x is Node { 1nat } else { 0nat }),
    decreases n,
{
    if i < n - 1 {
        lemma_count_update(s, n - 1, i, x);
    } else {
        lemma_count_same(s, s.update(i, x), n - 1);
    }
}

/// `k2` is another key that `k` cannot be told apart from by any bucket
/// chosen from `depth` down to `MAX_DEPTH`.
pub open spec fn shadows(k2: u64, k: u64, depth: nat) -> bool {
    &&& k2 != k
    &&& forall|j: nat| depth <= j < MAX_DEPTH ==> slot_of(key_hash(k), j) == slot_of(key_hash(k2), j)
}

impl<V> HAMT<V> {
    /// In a well-formed subtree a key can only be in the bucket its hash selects.
    proof fn lemma_has_key_slot(self, depth: nat, k: u64)
        requires
            self.wf_at(depth),
        ensures
            self.has_key(k) <==> self.slots@[slot_of(key_hash(k), depth) as int].holds(k),
    {
        lemma_slot_bound(key_hash(k), depth);
        let s = slot_of(key_hash(k), depth) as int;
        if self.has_key(k) {
            let i = choose|i: int| 0 <= i < self.slots@.len() && self.slots@[i].holds(k);
            if i != s {
                assert(self.slots@[i].holds(k));
            }
        }
        if self.slots@[s].holds(k) {
            assert(0 <= s < self.slots@.len());
        }
    }

    /// Inserts `k` with `v` into the subtree at `depth`; `h` is the hash of `k`.
    fn sub_insert(self, depth: usize, h: u64, k: u64, v: V) -> (r: (Self, Result<Option<V>, HAMTError>))
        requires
            self.wf_at(depth as nat),
            h == key_hash(k),
        ensures
            r.0.wf_at(depth as nat),
            !self.is_singleton() && !self.is_empty_node() ==> !r.0.is_singleton() && !r.0.is_empty_node(),
            r.1 is Ok ==> r.1 == Ok::<Option<V>, HAMTError>(self.lookup(depth as nat, k)),
            forall|k2: u64| #[trigger] r.0.lookup(depth as nat, k2) == if k2 == k && r.1 is Ok {
                Some(v)
            } else {
                self.lookup(depth as nat, k2)
            },
            forall|k2: u64| #[trigger] r.0.has_key(k2) <==> (self.has_key(k2) || (k2 == k && r.1 is Ok)),
            r.1 is Err <==> exists|k2: u64| self.has_key(k2) && shadows(k2, k, depth as nat),
            r.0.slots@.len() == 16,
            forall|j: int| 0 <= j < 16 && j != slot_of(key_hash(k), depth as nat) ==>
                #[trigger] r.0.slots@[j] == self.slots@[j],
        decreases self,
    {
        let s = calculate_slot(h, depth);
        let ghost old_slots = self.slots@;
        let ghost gv = v;
        let (kind, other): (u8, u64) = match &self.slots[s] {
            Handle::Empty => (0, 0),
            Handle::Leaf(k2, _) => if *k2 == k { (1, 0) } else { (2, *k2) },
            Handle::Node(_) => (3, 0),
        };
        proof {
            assert(self.slot_wf(s as int, depth as nat));
        }
        let ghost blocked = exists|k2: u64| self.has_key(k2) && shadows(k2, k, depth as nat);
        proof {
            if blocked {
                let k2 = choose|k2: u64| self.has_key(k2) && shadows(k2, k, depth as nat);
                self.lemma_has_key_slot(depth as nat, k2);
                assert(slot_of(key_hash(k), depth as nat) == slot_of(key_hash(k2), depth as nat));
                assert(old_slots[s as int].holds(k2));
                if kind == 2 {
                    assert(k2 == other);
                }
                if kind == 3 {
                    assert(shadows(k2, k, depth as nat + 1));
                    assert((old_slots[s as int]->Node_0).has_key(k2));
                }
            }
        }
        let mut me = self;
        if kind == 0 {
            me.slots.set(s, Handle::Leaf(k, v));
            proof {
                lemma_count_update(old_slots, 16, s as int, Handle::Leaf(k, v));
                self.lemma_after_slot_change(me, depth as nat, s as int);
                assert forall|k2: u64| #[trigger] me.lookup(depth as nat, k2) == if k2 == k {
                    Some(gv)
                } else {
                    self.lookup(depth as nat, k2)
                } by {
                    lemma_slot_bound(key_hash(k2), depth as nat);
                }
            }
            (me, Ok(None))
        } else if kind == 1 {
            let mut prev = Handle::Leaf(k, v);
            me.slots.set_and_swap(s, &mut prev);
            proof {
                lemma_count_update(old_slots, 16, s as int, Handle::Leaf(k, v));
                self.lemma_after_slot_change(me, depth as nat, s as int);
                assert forall|k2: u64| #[trigger] me.lookup(depth as nat, k2) == if k2 == k {
                    Some(gv)
                } else {
                    self.lookup(depth as nat, k2)
                } by {
                    lemma_slot_bound(key_hash(k2), depth as nat);
                }
            }
            match prev {
                Handle::Leaf(_, pv) => (me, Ok(Some(pv))),
                _ => (me, Ok(None)),
            }
        } else if kind == 2 {
            let oh = hash_key(other);
            match divergence(h, oh, depth + 1) {
                None => {
                    proof {
                        assert(old_slots[s as int].holds(other));
                        assert(self.has_key(other));
                        assert(shadows(other, k, depth as nat));
                    }
                    (me, Err(HAMTError::Collision))
                },
                Some(split) => {
                    proof {
                        if shadows(other, k, depth as nat) {
                            assert(slot_of(key_hash(k), split as nat) == slot_of(key_hash(other), split as nat));
                        }
                    }
                    let mut prev = Handle::Empty;
                    me.slots.set_and_swap(s, &mut prev);
                    match prev {
                        Handle::Leaf(ok, ov) => {
                            let pair = HAMT::make_pair(depth + 1, split, k, h, v, ok, oh, ov);
                            me.slots.set(s, Handle::Node(Box::new(pair)));
                            proof {
                                lemma_count_update(old_slots, 16, s as int, Handle::Node(Box::new(pair)));
                                assert(me.slots@ == old_slots.update(s as int, Handle::Node(Box::new(pair))));
                                self.lemma_after_slot_change(me, depth as nat, s as int);
                                assert forall|k2: u64| #[trigger] me.lookup(depth as nat, k2) == if k2 == k {
                                    Some(gv)
                                } else {
                                    self.lookup(depth as nat, k2)
                                } by {
                                    lemma_slot_bound(key_hash(k2), depth as nat);
                                    assert(pair.lookup((depth + 1) as nat, k2) == pair.lookup(depth as nat + 1, k2));
                                }
                            }
                            (me, Ok(None))
                        },
                        _ => (me, Ok(None)),
                    }
                },
            }
        } else {
            let mut prev = Handle::Empty;
            me.slots.set_and_swap(s, &mut prev);
            match prev {
                Handle::Node(b) => {
                    let (nb, res) = (*b).sub_insert(depth + 1, h, k, v);
                    me.slots.set(s, Handle::Node(Box::new(nb)));
                    proof {
                        lemma_count_update(old_slots, 16, s as int, Handle::Node(Box::new(nb)));
                        assert(me.slots@ == old_slots.update(s as int, Handle::Node(Box::new(nb))));
                        self.lemma_after_slot_change(me, depth as nat, s as int);
                        assert forall|k2: u64| #[trigger] me.lookup(depth as nat, k2) == if k2 == k && res is Ok {
                            Some(gv)
                        } else {
                            self.lookup(depth as nat, k2)
                        } by {
                            lemma_slot_bound(key_hash(k2), depth as nat);
                            assert(nb.lookup((depth + 1) as nat, k2) == nb.lookup(depth as nat + 1, k2));
                            assert(b.lookup((depth + 1) as nat, k2) == b.lookup(depth as nat + 1, k2));
                        }
                        if blocked {
                            let k2 = choose|k2: u64| b.has_key(k2) && shadows(k2, k, depth as nat + 1);
                            assert(shadows(k2, k, (depth + 1) as nat));
                        }
                        if res is Err {
                            let k2 = choose|k2: u64| b.has_key(k2) && shadows(k2, k, depth as nat + 1);
                            assert(old_slots[s as int].holds(k2));
                            assert(self.has_key(k2));
                        }
                    }
                    (me, res)
                },
                _ => (me, Ok(None)),
            }
        }
    }

    /// Two nodes that differ in bucket `s` alone agree on every key that does
    /// not select `s`.
    proof fn lemma_after_slot_change(self, other: Self, depth: nat, s: int)
        requires
            0 <= s < 16,
            self.slots@.len() == 16,
            other.slots@ == self.slots@.update(s, other.slots@[s]),
        ensures
            forall|k2: u64| slot_of(key_hash(k2), depth) != s ==>
                #[trigger] other.lookup(depth, k2) == self.lookup(depth, k2),
            forall|k2: u64| #[trigger] other.has_key(k2) <==>
                (exists|i: int| 0 <= i < 16 && i != s && self.slots@[i].holds(k2)) || other.slots@[s].holds(k2),
    {
        assert forall|k2: u64| #[trigger] other.has_key(k2) <==>
            (exists|i: int| 0 <= i < 16 && i != s && self.slots@[i].holds(k2)) || other.slots@[s].holds(k2) by {
            if other.has_key(k2) {
                let i = choose|i: int| 0 <= i < other.slots@.len() && other.slots@[i].holds(k2);
                if i != s {
                    assert(self.slots@[i].holds(k2));
                }
            }
            if exists|i: int| 0 <= i < 16 && i != s && self.slots@[i].holds(k2) {
                let i = choose|i: int| 0 <= i < 16 && i != s && self.slots@[i].holds(k2);
                assert(other.slots@[i].holds(k2));
            }
            if other.slots@[s].holds(k2) {
                assert(0 <= s < other.slots@.len());
            }
        }
    }
}


impl<V> HAMT<V> {
    /// In a well-formed subtree the keys stored are exactly those that lookup finds.
    pub proof fn lemma_has_key_lookup(self, depth: nat, k: u64)
        requires
            self.wf_at(depth),
        ensures
            self.has_key(k) <==> self.lookup(depth, k) is Some,
        decreases self,
    {
        self.lemma_has_key_slot(depth, k);
        lemma_slot_bound(key_hash(k), depth);
        let s = slot_of(key_hash(k), depth) as int;
        match self.slots@[s] {
            Handle::Node(n) => {
                n.lemma_has_key_lookup(depth + 1, k);
            },
            _ => {},
        }
    }

    /// Inserts `k` with `v` and returns the value that `k` had. `Collision`
    /// would mean that a stored key selects the same bucket as `k` at every
    /// level down to `MAX_DEPTH`; since no two `u64` keys share a SeaHash,
    /// that never happens.
    pub fn insert(&mut self, k: u64, v: V) -> (r: Result<Option<V>, HAMTError>)
        requires
            old(self).wf(),
        ensures
            final(self).wf(),
            r is Err <==> exists|k2: u64| old(self)@.contains_key(k2) && shadows(k2, k, 0),
            r is Ok,
            r is Ok ==> r == Ok::<Option<V>, HAMTError>(old(self)@.get(k)),
            r is Ok ==> final(self)@ == old(self)@.insert(k, v),
            r is Err ==> final(self)@ == old(self)@,
    {
        let ghost gv = v;
        let h = hash_key(k);
        let mut node = HAMT::new();
        std::mem::swap(self, &mut node);
        let ghost before = node;
        let (n2, r) = node.sub_insert(0, h, k, v);
        *self = n2;
        proof {
            assert forall|k2: u64| before.has_key(k2) <==> before@.contains_key(k2) by {
                before.lemma_has_key_lookup(0, k2);
            }
            assert forall|k2: u64| !shadows(k2, k, 0) by {
                if shadows(k2, k, 0) {
                    assert forall|j: nat| j < 16 implies slot_of(key_hash(k), j) == slot_of(key_hash(k2), j) by {}
                    lemma_slots_determine_hash(key_hash(k), key_hash(k2));
                    lemma_sea_hash_injective(k, k2);
                }
            }
            if r is Ok {
                assert(self@ =~= before@.insert(k, gv));
            } else {
                assert(self@ =~= before@);
            }
        }
        r
    }
}


/// What a removal in a subtree reports to the node above it.
enum Removed<V> {
    /// The key was not there.
    NotFound,
    /// The value of the removed key.
    Leaf(V),
    /// The value of the removed key, and the one pair that is left in the
    /// subtree, which the node above must store in its place.
    Collapse(V, u64, V),
}

proof fn lemma_leaf_count_mono<V>(s: Seq<Handle<V>>, n: int, m: int)
    requires
        0 <= n <= m <= s.len(),
    ensures
        leaf_count(s, n) <= leaf_count(s, m),
        node_count(s, n) <= node_count(s, m),
    decreases m - n,
{
    if n < m {
        lemma_leaf_count_mono(s, n, m - 1);
    }
}

impl<V> HAMT<V> {
    /// `self` is `before` at `depth` with `k` taken out.
    pub open spec fn removed_from(self, before: Self, depth: nat, k: u64) -> bool {
        &&& self.wf_at(depth)
        &&& forall|k2: u64| #[trigger] self.lookup(depth, k2)
            == if k2 == k { None } else { before.lookup(depth, k2) }
        &&& forall|k2: u64| #[trigger] self.has_key(k2) <==> (before.has_key(k2) && k2 != k)
    }

    /// Takes the single leaf out of a node that holds one leaf and nothing else.
    fn remove_singleton(&mut self) -> (r: Option<(u64, V)>)
        requires
            old(self).slots@.len() == 16,
        ensures
            r is Some <==> old(self).is_singleton(),
            r is None ==> *final(self) == *old(self),
            r matches Some(kv) ==> exists|j: int| {
                &&& 0 <= j < 16
                &&& old(self).slots@[j] == Handle::Leaf(kv.0, kv.1)
                &&& final(self).slots@ == old(self).slots@.update(j, Handle::Empty)
                &&& forall|i: int| 0 <= i < 16 && i != j ==> #[trigger] old(self).slots@[i] is Empty
            },
    {
        let ghost s0 = self.slots@;
        let mut found: Option<usize> = None;
        let mut i: usize = 0;
        while i < N_BUCKETS
            invariant
                self.slots@ == s0,
                s0.len() == 16,
                i <= 16,
                node_count(s0, i as int) == 0,
                leaf_count(s0, i as int) == if found is Some { 1nat } else { 0nat },
                found matches Some(j) ==> j < i && s0[j as int] is Leaf,
                forall|j: int| 0 <= j < i && (found is None || j != found->0) ==> #[trigger] s0[j] is Empty,
            decreases N_BUCKETS - i,
        {
            match &self.slots[i] {
                Handle::Empty => {},
                Handle::Leaf(_, _) => {
                    if found.is_some() {
                        proof {
                            lemma_leaf_count_mono(s0, i as int + 1, 16);
                        }
                        return None;
                    }
                    found = Some(i);
                },
                Handle::Node(_) => {
                    proof {
                        lemma_leaf_count_mono(s0, i as int + 1, 16);
                    }
                    return None;
                },
            }
            i = i + 1;
        }
        match found {
            None => None,
            Some(j) => {
                let mut taken = Handle::Empty;
                self.slots.set_and_swap(j, &mut taken);
                match taken {
                    Handle::Leaf(k, v) => Some((k, v)),
                    _ => None,
                }
            },
        }
    }

    /// Removes `k` from the subtree at `depth`; `h` is the hash of `k`. Below
    /// the root, a node left with a single leaf hands that leaf up.
    fn sub_remove(self, depth: usize, h: u64, k: u64) -> (r: (Self, Removed<V>))
        requires
            self.wf_at(depth as nat),
            h == key_hash(k),
        ensures
            r.1 is NotFound <==> self.lookup(depth as nat, k) is None,
            r.1 matches Removed::Leaf(v) ==> self.lookup(depth as nat, k) == Some(v),
            r.1 matches Removed::Collapse(v, kr, vr) ==> {
                &&& depth > 0
                &&& self.lookup(depth as nat, k) == Some(v)
                &&& kr != k
                &&& self.lookup(depth as nat, kr) == Some(vr)
                &&& forall|k2: u64| #[trigger] self.has_key(k2) <==> (k2 == k || k2 == kr)
            },
            !(r.1 is Collapse) ==> r.0.removed_from(self, depth as nat, k),
            !(r.1 is Collapse) && depth > 0 && !self.is_singleton() && !self.is_empty_node()
                ==> !r.0.is_singleton() && !r.0.is_empty_node(),
            r.1 is Leaf && depth > 0 ==> !r.0.is_singleton(),
            r.1 is Collapse ==> r.0.slots@.len() == 16
                && forall|i: int| 0 <= i < 16 ==> #[trigger] r.0.slots@[i] is Empty,
        decreases self,
    {
        let s = calculate_slot(h, depth);
        let ghost old_slots = self.slots@;
        proof {
            assert(self.slot_wf(s as int, depth as nat));
            self.lemma_has_key_lookup(depth as nat, k);
        }
        let kind: u8 = match &self.slots[s] {
            Handle::Empty => 0,
            Handle::Leaf(k2, _) => if *k2 == k { 1 } else { 0 },
            Handle::Node(_) => 2,
        };
        if kind == 0 {
            proof {
                assert forall|k2: u64| #[trigger] self.has_key(k2) <==> (self.has_key(k2) && k2 != k) by {
                    self.lemma_has_key_lookup(depth as nat, k2);
                }
            }
            return (self, Removed::NotFound);
        }
        let mut me = self;
        let removed: V;
        let mut prev = Handle::Empty;
        me.slots.set_and_swap(s, &mut prev);
        if kind == 1 {
            proof {
                lemma_count_update(old_slots, 16, s as int, Handle::Empty);
                self.lemma_after_slot_change(me, depth as nat, s as int);
            }
            proof {
                assert forall|k2: u64| #[trigger] me.lookup(depth as nat, k2)
                    == if k2 == k { None } else { self.lookup(depth as nat, k2) } by {
                    lemma_slot_bound(key_hash(k2), depth as nat);
                }
                assert(me.removed_from(self, depth as nat, k));
            }
            match prev {
                Handle::Leaf(_, v) => {
                    removed = v;
                },
                _ => {
                    return (me, Removed::NotFound);
                },
            }
        } else {
            match prev {
                Handle::Node(b) => {
                    let (nb, res) = (*b).sub_remove(depth + 1, h, k);
                    match res {
                        Removed::Collapse(v, kr, vr) => {
                            me.slots.set(s, Handle::Leaf(kr, vr));
                            proof {
                                lemma_count_update(old_slots, 16, s as int, Handle::Leaf(kr, vr));
                                assert(me.slots@ == old_slots.update(s as int, Handle::Leaf(kr, vr)));
                                self.lemma_after_slot_change(me, depth as nat, s as int);
                                assert(b.has_key(kr));
                                assert forall|k2: u64| #[trigger] me.lookup(depth as nat, k2)
                                    == if k2 == k { None } else { self.lookup(depth as nat, k2) } by {
                                    lemma_slot_bound(key_hash(k2), depth as nat);
                                    b.lemma_has_key_lookup((depth + 1) as nat, k2);
                                    assert(b.lookup((depth + 1) as nat, k2) == b.lookup(depth as nat + 1, k2));
                                }
                                assert(me.slot_wf(s as int, depth as nat));
                                assert(me.wf_at(depth as nat));
                                assert forall|k2: u64| #[trigger] me.has_key(k2) <==> (self.has_key(k2) && k2 != k) by {
                                    self.lemma_has_key_slot(depth as nat, k2);
                                    me.lemma_has_key_slot(depth as nat, k2);
                                    lemma_slot_bound(key_hash(k2), depth as nat);
                                    let t = slot_of(key_hash(k2), depth as nat) as int;
                                    if t == s as int {
                                        assert(b.has_key(k2) <==> (k2 == k || k2 == kr));
                                    } else {
                                        assert(me.slots@[t] == self.slots@[t]);
                                    }
                                }
                                assert(me.removed_from(self, depth as nat, k));
                            }
                            removed = v;
                        },
                        _ => {
                            me.slots.set(s, Handle::Node(Box::new(nb)));
                            proof {
                                lemma_count_update(old_slots, 16, s as int, Handle::Node(Box::new(nb)));
                                assert(me.slots@ == old_slots.update(s as int, Handle::Node(Box::new(nb))));
                                self.lemma_after_slot_change(me, depth as nat, s as int);
                                assert forall|k2: u64| #[trigger] me.lookup(depth as nat, k2)
                                    == if k2 == k { None } else { self.lookup(depth as nat, k2) } by {
                                    lemma_slot_bound(key_hash(k2), depth as nat);
                                    assert(nb.lookup((depth + 1) as nat, k2) == nb.lookup(depth as nat + 1, k2));
                                    assert(b.lookup((depth + 1) as nat, k2) == b.lookup(depth as nat + 1, k2));
                                }
                                assert(nb.keys_select(depth as nat, s as int));
                                assert(me.slot_wf(s as int, depth as nat));
                                assert(me.removed_from(self, depth as nat, k));
                                lemma_node_count_one(me.slots@, 16, s as int);
                            }
                            return (me, res);
                        },
                    }
                },
                _ => {
                    return (me, Removed::NotFound);
                },
            }
        }
        let ghost me0 = me;
        if depth > 0 {
            match me.remove_singleton() {
                Some((kr, vr)) => {
                    proof {
                        let j = choose|j: int| {
                            &&& 0 <= j < 16
                            &&& me0.slots@[j] == Handle::Leaf(kr, vr)
                            &&& me.slots@ == me0.slots@.update(j, Handle::Empty)
                            &&& forall|i: int| 0 <= i < 16 && i != j ==> #[trigger] me0.slots@[i] is Empty
                        };
                        assert(me0.slot_wf(j, depth as nat));
                        assert(me0.slots@[j].holds(kr));
                        assert(me0.has_key(kr));
                        assert(me0.lookup(depth as nat, kr) == Some(vr));
                        assert forall|k2: u64| #[trigger] self.has_key(k2) <==> (k2 == k || k2 == kr) by {
                            if me0.has_key(k2) {
                                let i = choose|i: int| 0 <= i < me0.slots@.len() && me0.slots@[i].holds(k2);
                                assert(i == j);
                            }
                        }
                    }
                    (me, Removed::Collapse(removed, kr, vr))
                },
                None => (me, Removed::Leaf(removed)),
            }
        } else {
            (me, Removed::Leaf(removed))
        }
    }

    /// Removes `k`, returning its value if it was there.
    pub fn remove(&mut self, k: &u64) -> (r: Option<V>)
        requires
            old(self).wf(),
        ensures
            final(self).wf(),
            r == old(self)@.get(*k),
            final(self)@ == old(self)@.remove(*k),
    {
        let h = hash_key(*k);
        let mut node = HAMT::new();
        std::mem::swap(self, &mut node);
        let ghost before = node;
        let (n2, res) = node.sub_remove(0, h, *k);
        *self = n2;
        proof {
            assert(self@ =~= before@.remove(*k));
        }
        match res {
            Removed::Leaf(v) => Some(v),
            _ => None,
        }
    }
}


impl<V> HAMT<V> {
    /// The keys of the first `n` buckets, bucket by bucket, each subtree depth first.
    pub open spec fn keys_upto(self, n: int) -> Seq<u64>
        decreases self, n,
    {
        if n <= 0 || n > self.slots@.len() {
            Seq::empty()
        } else {
            self.keys_upto(n - 1) + match self.slots@[n - 1] {
                Handle::Empty => Seq::empty(),
                Handle::Leaf(k, _) => seq![k],
                Handle::Node(b) => b.keys_upto(16),
            }
        }
    }

    proof fn lemma_keys_upto_contains(self, n: int, k: u64)
        requires
            0 <= n <= 16,
            self.full(),
        ensures
            self.keys_upto(n).contains(k) <==> exists|i: int| 0 <= i < n && #[trigger] self.slots@[i].holds(k),
        decreases self, n,
    {
        if n > 0 {
            self.lemma_keys_upto_contains(n - 1, k);
            let tail = match self.slots@[n - 1] {
                Handle::Empty => Seq::empty(),
                Handle::Leaf(k2, _) => seq![k2],
                Handle::Node(b) => b.keys_upto(16),
            };
            assert(self.keys_upto(n) == self.keys_upto(n - 1) + tail);
            match self.slots@[n - 1] {
                Handle::Node(b) => {
                    assert(b.full());
                    b.lemma_keys_contains(k);
                },
                Handle::Leaf(k2, _) => {
                    assert(tail.contains(k) <==> k == k2) by {
                        if k == k2 {
                            assert(tail[0] == k);
                        }
                    }
                },
                _ => {},
            }
            let pre = self.keys_upto(n - 1);
            let all = self.keys_upto(n);
            if all.contains(k) {
                if !pre.contains(k) {
                    let j = choose|j: int| 0 <= j < all.len() && #[trigger] all[j] == k;
                    if j < pre.len() {
                        assert(pre[j] == k);
                    }
                    assert(tail[j - pre.len()] == k);
                    assert(tail.contains(k));
                    assert(self.slots@[n - 1].holds(k));
                }
            }
            if exists|i: int| 0 <= i < n && #[trigger] self.slots@[i].holds(k) {
                let i = choose|i: int| 0 <= i < n && #[trigger] self.slots@[i].holds(k);
                if i < n - 1 {
                    let j = choose|j: int| 0 <= j < pre.len() && #[trigger] pre[j] == k;
                    assert(all[j] == k);
                } else {
                    let j = choose|j: int| 0 <= j < tail.len() && #[trigger] tail[j] == k;
                    assert(all[pre.len() + j] == k);
                }
            }
        }
    }

    /// Every node of the subtree has sixteen buckets.
    pub open spec fn full(self) -> bool
        decreases self,
    {
        &&& self.slots@.len() == 16
        &&& forall|i: int| 0 <= i < 16 ==> match #[trigger] self.slots@[i] {
            Handle::Node(b) => b.full(),
            _ => true,
        }
    }

    proof fn lemma_keys_contains(self, k: u64)
        requires
            self.full(),
        ensures
            self.keys_upto(16).contains(k) <==> self.has_key(k),
        decreases self,
    {
        self.lemma_keys_upto_contains(16, k);
        if self.has_key(k) {
            let i = choose|i: int| 0 <= i < self.slots@.len() && self.slots@[i].holds(k);
        }
    }
}


proof fn lemma_concat_no_duplicates(a: Seq<u64>, b: Seq<u64>)
    requires
        a.no_duplicates(),
        b.no_duplicates(),
        forall|k: u64| a.contains(k) ==> !b.contains(k),
    ensures
        (a + b).no_duplicates(),
{
    let c = a + b;
    assert forall|i: int, j: int| 0 <= i < c.len() && 0 <= j < c.len() && i != j implies c[i] != c[j] by {
        if i < a.len() && j >= a.len() {
            assert(a.contains(c[i]));
            assert(b[j - a.len()] == c[j]);
        } else if j < a.len() && i >= a.len() {
            assert(a.contains(c[j]));
            assert(b[i - a.len()] == c[i]);
        } else if i >= a.len() && j >= a.len() {
            assert(b[i - a.len()] == c[i] && b[j - a.len()] == c[j]);
        }
    }
}

impl<V> HAMT<V> {
    pub proof fn lemma_wf_full(self, depth: nat)
        requires
            self.wf_at(depth),
        ensures
            self.full(),
        decreases self,
    {
        assert forall|i: int| 0 <= i < 16 implies match #[trigger] self.slots@[i] {
            Handle::Node(b) => b.full(),
            _ => true,
        } by {
            match self.slots@[i] {
                Handle::Node(b) => {
                    b.lemma_wf_full(depth + 1);
                },
                _ => {},
            }
        }
    }

    proof fn lemma_keys_upto_distinct(self, depth: nat, n: int)
        requires
            self.wf_at(depth),
            0 <= n <= 16,
        ensures
            self.keys_upto(n).no_duplicates(),
        decreases self, n,
    {
        if n > 0 {
            self.lemma_wf_full(depth);
            self.lemma_keys_upto_distinct(depth, n - 1);
            let pre = self.keys_upto(n - 1);
            let tail = match self.slots@[n - 1] {
                Handle::Empty => Seq::empty(),
                Handle::Leaf(k2, _) => seq![k2],
                Handle::Node(b) => b.keys_upto(16),
            };
            assert(self.slot_wf(n - 1, depth));
            match self.slots@[n - 1] {
                Handle::Node(b) => {
                    b.lemma_keys_upto_distinct(depth + 1, 16);
                    b.lemma_wf_full(depth + 1);
                },
                _ => {},
            }
            assert forall|k: u64| pre.contains(k) implies !tail.contains(k) by {
                self.lemma_keys_upto_contains(n - 1, k);
                let i = choose|i: int| 0 <= i < n - 1 && #[trigger] self.slots@[i].holds(k);
                assert(self.slot_wf(i, depth));
                assert(slot_of(key_hash(k), depth) == i);
                match self.slots@[n - 1] {
                    Handle::Node(b) => {
                        b.lemma_keys_contains(k);
                    },
                    Handle::Leaf(k2, _) => {
                        if tail.contains(k) {
                            let j = choose|j: int| 0 <= j < tail.len() && #[trigger] tail[j] == k;
                            assert(k == k2);
                        }
                    },
                    _ => {},
                }
            }
            lemma_concat_no_duplicates(pre, tail);
        }
    }

    fn collect_keys(&self, out: &mut Vec<u64>)
        requires
            self.full(),
        ensures
            final(out)@ == old(out)@ + self.keys_upto(16),
        decreases self,
    {
        let mut i: usize = 0;
        while i < N_BUCKETS
            invariant
                self.full(),
                i <= 16,
                out@ == old(out)@ + self.keys_upto(i as int),
            decreases 16 - i,
        {
            match &self.slots[i] {
                Handle::Empty => {},
                Handle::Leaf(k, _) => {
                    out.push(*k);
                },
                Handle::Node(b) => {
                    assert(b.full());
                    b.collect_keys(out);
                },
            }
            proof {
                assert(out@ =~= old(out)@ + self.keys_upto(i as int + 1));
            }
            i = i + 1;
        }
    }

    /// Every key of the map, each exactly once, bucket by bucket.
    pub fn keys(&self) -> (r: Vec<u64>)
        requires
            self.wf(),
        ensures
            r@.no_duplicates(),
            forall|k: u64| r@.contains(k) <==> self@.contains_key(k),
    {
        let mut out: Vec<u64> = Vec::new();
        proof {
            self.lemma_wf_full(0);
        }
        self.collect_keys(&mut out);
        proof {
            assert(out@ =~= self.keys_upto(16));
            self.lemma_keys_upto_distinct(0, 16);
            assert forall|k: u64| out@.contains(k) <==> self@.contains_key(k) by {
                self.lemma_keys_contains(k);
                self.lemma_has_key_lookup(0, k);
            }
        }
        out
    }
}


impl<V> HAMT<V> {
    fn collect_values<'a>(&'a self, depth: Ghost<nat>, out: &mut Vec<&'a V>)
        requires
            self.wf_at(depth@),
        ensures
            final(out)@.len() == old(out)@.len() + self.keys_upto(16).len(),
            forall|j: int| 0 <= j < old(out)@.len() ==> final(out)@[j] == old(out)@[j],
            forall|j: int| 0 <= j < self.keys_upto(16).len() ==>
                self.lookup(depth@, self.keys_upto(16)[j]) == Some(*final(out)@[old(out)@.len() + j]),
        decreases self,
    {
        proof {
            self.lemma_wf_full(depth@);
        }
        let mut i: usize = 0;
        while i < N_BUCKETS
            invariant
                self.wf_at(depth@),
                self.full(),
                i <= 16,
                out@.len() == old(out)@.len() + self.keys_upto(i as int).len(),
                forall|j: int| 0 <= j < old(out)@.len() ==> out@[j] == old(out)@[j],
                forall|j: int| 0 <= j < self.keys_upto(i as int).len() ==>
                    self.lookup(depth@, self.keys_upto(i as int)[j]) == Some(*out@[old(out)@.len() + j]),
            decreases 16 - i,
        {
            let ghost before = out@;
            let ghost pre = self.keys_upto(i as int);
            proof {
                assert(self.slot_wf(i as int, depth@));
            }
            match &self.slots[i] {
                Handle::Empty => {},
                Handle::Leaf(k, v) => {
                    out.push(v);
                    proof {
                        lemma_slot_bound(key_hash(*k), depth@);
                    }
                },
                Handle::Node(b) => {
                    b.collect_values(Ghost(depth@ + 1), out);
                    proof {
                        assert forall|j: int| 0 <= j < b.keys_upto(16).len() implies
                            self.lookup(depth@, b.keys_upto(16)[j]) == b.lookup(depth@ + 1, b.keys_upto(16)[j]) by {
                            let kk = b.keys_upto(16)[j];
                            b.lemma_wf_full(depth@ + 1);
                            b.lemma_keys_contains(kk);
                            assert(b.keys_upto(16).contains(kk));
                            assert(b.has_key(kk));
                        }
                    }
                },
            }
            proof {
                let post = self.keys_upto(i as int + 1);
                assert forall|j: int| 0 <= j < post.len() implies
                    self.lookup(depth@, post[j]) == Some(*out@[old(out)@.len() + j]) by {
                    if j < pre.len() {
                        assert(post[j] == pre[j]);
                        assert(out@[old(out)@.len() + j] == before[old(out)@.len() + j]);
                    }
                }
            }
            i = i + 1;
        }
    }

    /// Every value of the map, each once, in the order in which `keys` lists
    /// their keys.
    pub fn values(&self) -> (r: Vec<&V>)
        requires
            self.wf(),
        ensures
            r@.len() == self@.dom().len(),
            r@.len() == self.keys_upto(16).len(),
            forall|j: int| 0 <= j < r@.len() ==> self@[self.keys_upto(16)[j]] == *r@[j],
            forall|j: int| 0 <= j < r@.len() ==> self@.contains_key(#[trigger] self.keys_upto(16)[j]),
    {
        let mut out: Vec<&V> = Vec::new();
        self.collect_values(Ghost(0), &mut out);
        proof {
            self.lemma_wf_full(0);
            self.lemma_keys_upto_distinct(0, 16);
            let ks = self.keys_upto(16);
            assert forall|k: u64| ks.to_set().contains(k) <==> self@.dom().contains(k) by {
                self.lemma_keys_contains(k);
                self.lemma_has_key_lookup(0, k);
            }
            assert(ks.to_set() =~= self@.dom());
            ks.unique_seq_to_set();
        }
        out
    }

    /// Number of keys in the map.
    pub fn cardinality(&self) -> (r: usize)
        requires
            self.wf(),
        ensures
            r == self@.dom().len(),
    {
        let ks = self.keys();
        proof {
            ks@.unique_seq_to_set();
            assert(ks@.to_set() =~= self@.dom());
        }
        ks.len()
    }
}


impl<V> Default for HAMT<V> {
    /// An empty map.
    fn default() -> (r: Self)
        ensures
            r.wf(),
            r@ == Map::<u64, V>::empty(),
    {
        HAMT::new()
    }
}


/// `a` and `b` have the same buckets, the same pairs and the same subtrees,
/// node for node.
pub open spec fn same_shape<V>(a: HAMT<V>, b: HAMT<V>) -> bool
    decreases a,
{
    &&& a.slots@.len() == b.slots@.len()
    &&& forall|i: int| 0 <= i < a.slots@.len() ==> match #[trigger] a.slots@[i] {
        Handle::Empty => b.slots@[i] is Empty,
        Handle::Leaf(k, v) => b.slots@[i] == Handle::Leaf(k, v),
        Handle::Node(x) => b.slots@[i] is Node && same_shape(*x, *(b.slots@[i]->Node_0)),
    }
}

proof fn lemma_leaf_witness<V>(s: Seq<Handle<V>>, n: int) -> (r: int)
    requires
        0 <= n <= s.len(),
        leaf_count(s, n) >= 1,
    ensures
        0 <= r < n,
        s[r] is Leaf,
    decreases n,
{
    if s[n - 1] is Leaf {
        n - 1
    } else {
        lemma_leaf_witness(s, n - 1)
    }
}

proof fn lemma_leaf_witness2<V>(s: Seq<Handle<V>>, n: int) -> (r: (int, int))
    requires
        0 <= n <= s.len(),
        leaf_count(s, n) >= 2,
    ensures
        0 <= r.0 < r.1 < n,
        s[r.0] is Leaf,
        s[r.1] is Leaf,
    decreases n,
{
    if s[n - 1] is Leaf {
        (lemma_leaf_witness(s, n - 1), n - 1)
    } else {
        lemma_leaf_witness2(s, n - 1)
    }
}

proof fn lemma_node_witness<V>(s: Seq<Handle<V>>, n: int) -> (r: int)
    requires
        0 <= n <= s.len(),
        node_count(s, n) >= 1,
    ensures
        0 <= r < n,
        s[r] is Node,
    decreases n,
{
    if s[n - 1] is Node {
        n - 1
    } else {
        lemma_node_witness(s, n - 1)
    }
}

impl<V> HAMT<V> {
    /// In a well-formed subtree, bucket `i` holds exactly the keys of the
    /// subtree that select `i`.
    proof fn lemma_holds_iff(self, depth: nat, i: int, k: u64)
        requires
            self.wf_at(depth),
            0 <= i < 16,
        ensures
            self.slots@[i].holds(k) <==> (self.has_key(k) && slot_of(key_hash(k), depth) == i),
    {
        self.lemma_has_key_slot(depth, k);
        assert(self.slot_wf(i, depth));
        if self.slots@[i].holds(k) {
            assert(self.has_key(k));
        }
    }

    /// A node below the root holds at least two keys.
    proof fn lemma_two_keys(self, depth: nat) -> (r: (u64, u64))
        requires
            self.wf_at(depth),
            !self.is_singleton(),
            !self.is_empty_node(),
        ensures
            r.0 != r.1,
            self.has_key(r.0),
            self.has_key(r.1),
        decreases self,
    {
        if leaf_count(self.slots@, 16) >= 2 {
            let (i, j) = lemma_leaf_witness2(self.slots@, 16);
            assert(self.slot_wf(i, depth));
            assert(self.slot_wf(j, depth));
            let k1 = self.slots@[i]->Leaf_0;
            let k2 = self.slots@[j]->Leaf_0;
            assert(self.slots@[i].holds(k1));
            assert(self.slots@[j].holds(k2));
            (k1, k2)
        } else {
            let i = lemma_node_witness(self.slots@, 16);
            assert(self.slot_wf(i, depth));
            let x = self.slots@[i]->Node_0;
            let (k1, k2) = x.lemma_two_keys(depth + 1);
            assert(self.slots@[i].holds(k1));
            assert(self.slots@[i].holds(k2));
            (k1, k2)
        }
    }

    /// Two well-formed subtrees at `depth` that answer every lookup alike have
    /// the same shape.
    pub proof fn lemma_canonical(self, other: Self, depth: nat)
        requires
            self.wf_at(depth),
            other.wf_at(depth),
            forall|k: u64| #[trigger] self.lookup(depth, k) == other.lookup(depth, k),
        ensures
            same_shape(self, other),
        decreases self,
    {
        let a = self;
        let b = other;
        assert forall|k: u64| a.has_key(k) <==> b.has_key(k) by {
            a.lemma_has_key_lookup(depth, k);
            b.lemma_has_key_lookup(depth, k);
        }
        assert forall|i: int| 0 <= i < a.slots@.len() implies match #[trigger] a.slots@[i] {
            Handle::Empty => b.slots@[i] is Empty,
            Handle::Leaf(k, v) => b.slots@[i] == Handle::Leaf(k, v),
            Handle::Node(x) => b.slots@[i] is Node && same_shape(*x, *(b.slots@[i]->Node_0)),
        } by {
            assert(a.slot_wf(i, depth));
            assert(b.slot_wf(i, depth));
            // a key held in bucket `i` of one tree is held there in the other too
            assert forall|k: u64| a.slots@[i].holds(k) <==> b.slots@[i].holds(k) by {
                a.lemma_holds_iff(depth, i, k);
                b.lemma_holds_iff(depth, i, k);
            }
            let ka: u64 = match a.slots@[i] {
                Handle::Leaf(k, _) => k,
                Handle::Node(x) => x.lemma_two_keys(depth + 1).0,
                Handle::Empty => 0,
            };
            let kb: u64 = match b.slots@[i] {
                Handle::Leaf(k, _) => k,
                Handle::Node(y) => y.lemma_two_keys(depth + 1).0,
                Handle::Empty => 0,
            };
            assert(!(a.slots@[i] is Empty) ==> a.slots@[i].holds(ka));
            assert(!(b.slots@[i] is Empty) ==> b.slots@[i].holds(kb));
            match a.slots@[i] {
                Handle::Empty => {},
                Handle::Leaf(k, v) => {
                    if b.slots@[i] is Node {
                        let y = b.slots@[i]->Node_0;
                        let (k1, k2) = y.lemma_two_keys(depth + 1);
                        assert(b.slots@[i].holds(k1));
                        assert(b.slots@[i].holds(k2));
                    } else {
                        assert(a.lookup(depth, k) == Some(v));
                    }
                },
                Handle::Node(x) => {
                    if b.slots@[i] is Leaf {
                        let (k1, k2) = x.lemma_two_keys(depth + 1);
                        assert(a.slots@[i].holds(k1));
                        assert(a.slots@[i].holds(k2));
                    } else {
                        let y = b.slots@[i]->Node_0;
                        assert forall|k: u64| #[trigger] x.lookup(depth + 1, k) == y.lookup(depth + 1, k) by {
                            x.lemma_has_key_lookup(depth + 1, k);
                            y.lemma_has_key_lookup(depth + 1, k);
                            lemma_slot_bound(key_hash(k), depth);
                            if slot_of(key_hash(k), depth) == i {
                                assert(a.lookup(depth, k) == x.lookup(depth + 1, k));
                                assert(b.lookup(depth, k) == y.lookup(depth + 1, k));
                            }
                        }
                        x.lemma_canonical(*y, depth + 1);
                    }
                },
            }
        }
    }
}


/// Subtrees of the same shape answer every lookup alike.
pub proof fn lemma_same_shape_lookup<V>(a: HAMT<V>, b: HAMT<V>, depth: nat, k: u64)
    requires
        same_shape(a, b),
    ensures
        a.lookup(depth, k) == b.lookup(depth, k),
    decreases a,
{
    let s = slot_of(key_hash(k), depth) as int;
    if 0 <= s < a.slots@.len() {
        match a.slots@[s] {
            Handle::Node(x) => {
                lemma_same_shape_lookup(*x, *(b.slots@[s]->Node_0), depth + 1, k);
            },
            _ => {},
        }
    }
}

} // verus!
