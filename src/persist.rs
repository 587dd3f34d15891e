//! Writing a map of `u64` values to a content-addressed store.
//!
//! A node body is a little-endian `u16` presence mask (bit `i` set when
//! bucket `i` is not empty) followed by each present bucket in order: tag `1`,
//! then key and value as little-endian `u64`s, for a leaf; tag `2`, then the
//! Blake2b digest of the child's body, for a subtree. Every body is stored
//! beside its digest.

use std::hash::Hasher;

use bytehash::{Blake2b, ByteHash, State};
use vstd::prelude::*;
use crate::hamt::{same_shape, Handle, HAMT, MAX_DEPTH};
use crate::slot::N_BUCKETS;

verus! {

/// The 32-byte Blake2b digest of `b`.
pub uninterp spec fn blake2b_of(b: Seq<u8>) -> Seq<u8>;

/// Relies on `bytehash::Blake2b`: `state`, `write` and `fin` give the 32-byte
/// Blake2b digest of the bytes written, which depends on them alone.
#[verifier::external_body]
fn digest(b: &Vec<u8>) -> (r: Vec<u8>)
    ensures
        r@ == blake2b_of(b@),
        r@.len() == 32,
{
    let mut state = Blake2b::state();
    state.write(b.as_slice());
    state.fin().to_vec()
}

/// The eight little-endian bytes of `x`.
pub open spec fn le64(x: u64) -> Seq<u8> {
    Seq::new(8, |i: int| ((x >> (8 * i) as u64) & 0xff) as u8)
}

/// The two little-endian bytes of `x`.
pub open spec fn le16(x: u16) -> Seq<u8> {
    seq![(x & 0xff) as u8, (x >> 8u16) as u8]
}

/// The presence mask of the first `n` buckets.
pub open spec fn mask_upto(t: HAMT<u64>, n: int) -> u16
    decreases n,
{
    if n <= 0 {
        0
    } else if t.slots@[n - 1] is Empty {
        mask_upto(t, n - 1)
    } else {
        mask_upto(t, n - 1) | (1u16 << (n - 1) as u16)
    }
}

/// The serialised present buckets among the first `n`.
pub open spec fn handles_body(t: HAMT<u64>, n: int) -> Seq<u8>
    decreases t, n,
{
    if n <= 0 || n > t.slots@.len() {
        Seq::empty()
    } else {
        handles_body(t, n - 1) + match t.slots@[n - 1] {
            Handle::Empty => Seq::empty(),
            Handle::Leaf(k, v) => seq![1u8] + le64(k) + le64(v),
            Handle::Node(b) => seq![2u8] + blake2b_of(le16(mask_upto(*b, 16)) + handles_body(*b, 16)),
        }
    }
}

/// The body of node `t`.
pub open spec fn node_body(t: HAMT<u64>) -> Seq<u8> {
    le16(mask_upto(t, 16)) + handles_body(t, 16)
}

/// Every entry from `from` on is stored under its own digest.
pub open spec fn addressed_from(store: Seq<(Vec<u8>, Vec<u8>)>, from: int) -> bool {
    forall|j: int| from <= j < store.len() ==> (#[trigger] store[j]).0@ == blake2b_of(store[j].1@)
}

/// `store` holds the body of `t` under its digest, and likewise for every
/// subtree of `t`.
pub open spec fn present(store: Seq<(Vec<u8>, Vec<u8>)>, t: HAMT<u64>) -> bool
    decreases t,
{
    &&& t.slots@.len() == 16
    &&& exists|f: int| 0 <= f < store.len() && #[trigger] store[f].0@ == blake2b_of(node_body(t))
        && store[f].1@ == node_body(t)
    &&& forall|i: int| 0 <= i < 16 ==> match #[trigger] t.slots@[i] {
        Handle::Node(b) => blake2b_of(node_body(*b)).len() == 32 && present(store, *b),
        _ => true,
    }
}

/// No two entries of `store` under one digest hold different bodies.
pub open spec fn consistent(store: Seq<(Vec<u8>, Vec<u8>)>) -> bool {
    forall|i: int, j: int| 0 <= i < store.len() && 0 <= j < store.len() && #[trigger] store[i].0@ == #[trigger] store[j].0@
        ==> store[i].1@ == store[j].1@
}

/// What `present` says of `t` stays true as entries are appended.
proof fn lemma_present_grow(s1: Seq<(Vec<u8>, Vec<u8>)>, s2: Seq<(Vec<u8>, Vec<u8>)>, t: HAMT<u64>)
    requires
        present(s1, t),
        s1.len() <= s2.len(),
        forall|j: int| 0 <= j < s1.len() ==> #[trigger] s2[j] == s1[j],
    ensures
        present(s2, t),
    decreases t,
{
    let f = choose|f: int| 0 <= f < s1.len() && #[trigger] s1[f].0@ == blake2b_of(node_body(t)) && s1[f].1@ == node_body(t);
    assert(s2[f] == s1[f]);
    assert forall|i: int| 0 <= i < 16 implies match #[trigger] t.slots@[i] {
        Handle::Node(b) => blake2b_of(node_body(*b)).len() == 32 && present(s2, *b),
        _ => true,
    } by {
        match t.slots@[i] {
            Handle::Node(b) => {
                lemma_present_grow(s1, s2, *b);
            },
            _ => {},
        }
    }
}

proof fn lemma_first_under(store: Seq<(Vec<u8>, Vec<u8>)>, d: Seq<u8>, f: int) -> (g: int)
    requires
        0 <= f < store.len(),
        store[f].0@ == d,
    ensures
        first_under(store, d, g),
        g <= f,
    decreases f,
{
    if exists|j: int| 0 <= j < f && (#[trigger] store[j]).0@ == d {
        let j = choose|j: int| 0 <= j < f && (#[trigger] store[j]).0@ == d;
        lemma_first_under(store, d, j)
    } else {
        f
    }
}

/// In a consistent store, a well-formed subtree at `depth` whose bodies are
/// all present is held under its digest, nested at most `MAX_DEPTH - depth`
/// deep, so `restore` with that fuel gives it back.
pub proof fn lemma_present_stored(store: Seq<(Vec<u8>, Vec<u8>)>, t: HAMT<u64>, depth: nat)
    requires
        present(store, t),
        consistent(store),
        t.wf_at(depth),
    ensures
        stored_as(store, blake2b_of(node_body(t)), t, (MAX_DEPTH - depth) as nat),
    decreases t,
{
    let d = blake2b_of(node_body(t));
    let f = choose|f: int| 0 <= f < store.len() && #[trigger] store[f].0@ == d && store[f].1@ == node_body(t);
    let g = lemma_first_under(store, d, f);
    assert(store[g].0@ == store[f].0@);
    assert(store[g].1@ == node_body(t));
    assert forall|i: int| 0 <= i < 16 implies match #[trigger] t.slots@[i] {
        Handle::Node(b) => {
            &&& (MAX_DEPTH - depth) as nat > 0
            &&& blake2b_of(node_body(*b)).len() == 32
            &&& stored_as(store, blake2b_of(node_body(*b)), *b, ((MAX_DEPTH - depth) as nat - 1) as nat)
        },
        _ => true,
    } by {
        assert(t.slot_wf(i, depth));
        match t.slots@[i] {
            Handle::Node(b) => {
                lemma_present_stored(store, *b, depth + 1);
            },
            _ => {},
        }
    }
}

fn push_u64(out: &mut Vec<u8>, x: u64)
    ensures
        final(out)@ == old(out)@ + le64(x),
{
    let mut i: u64 = 0;
    while i < 8
        invariant
            i <= 8,
            out@ == old(out)@ + le64(x).take(i as int),
        decreases 8 - i,
    {
        out.push(((x >> (8 * i)) & 0xff) as u8);
        proof {
            assert(le64(x).take(i as int + 1) =~= le64(x).take(i as int).push(((x >> (8 * i)) & 0xff) as u8));
        }
        i = i + 1;
    }
    proof {
        assert(le64(x).take(8) =~= le64(x));
    }
}

impl HAMT<u64> {
    /// Writes the body of this node, after those of its subtrees, to `store`
    /// and returns its digest.
    pub fn persist(&self, store: &mut Vec<(Vec<u8>, Vec<u8>)>) -> (r: Vec<u8>)
        requires
            self.full(),
        ensures
            r@ == blake2b_of(node_body(*self)),
            r@.len() == 32,
            final(store)@.len() > old(store)@.len(),
            forall|j: int| 0 <= j < old(store)@.len() ==> #[trigger] final(store)@[j] == old(store)@[j],
            addressed_from(final(store)@, old(store)@.len() as int),
            final(store)@.last().1@ == node_body(*self),
            present(final(store)@, *self),
        decreases self,
    {
        let mut mask: u16 = 0;
        let mut i: usize = 0;
        while i < N_BUCKETS
            invariant
                self.full(),
                i <= 16,
                mask == mask_upto(*self, i as int),
            decreases 16 - i,
        {
            match &self.slots[i] {
                Handle::Empty => {},
                _ => {
                    mask = mask | (1u16 << (i as u16));
                },
            }
            i = i + 1;
        }
        let mut out: Vec<u8> = Vec::new();
        out.push((mask & 0xff) as u8);
        out.push((mask >> 8u16) as u8);
        proof {
            assert(out@ =~= le16(mask));
        }
        let mut i: usize = 0;
        while i < N_BUCKETS
            invariant
                self.full(),
                i <= 16,
                mask == mask_upto(*self, 16),
                out@ == le16(mask) + handles_body(*self, i as int),
                store@.len() >= old(store)@.len(),
                forall|j: int| 0 <= j < old(store)@.len() ==> #[trigger] store@[j] == old(store)@[j],
                addressed_from(store@, old(store)@.len() as int),
                forall|j: int| 0 <= j < i ==> match #[trigger] self.slots@[j] {
                    Handle::Node(b) => blake2b_of(node_body(*b)).len() == 32 && present(store@, *b),
                    _ => true,
                },
            decreases 16 - i,
        {
            let ghost before = out@;
            let ghost s_before = store@;
            match &self.slots[i] {
                Handle::Empty => {},
                Handle::Leaf(k, v) => {
                    out.push(1u8);
                    push_u64(&mut out, *k);
                    push_u64(&mut out, *v);
                },
                Handle::Node(b) => {
                    assert(b.full());
                    let mut d = b.persist(store);
                    proof {
                        assert forall|j: int| 0 <= j < i implies match #[trigger] self.slots@[j] {
                            Handle::Node(c) => blake2b_of(node_body(*c)).len() == 32 && present(store@, *c),
                            _ => true,
                        } by {
                            match self.slots@[j] {
                                Handle::Node(c) => {
                                    lemma_present_grow(s_before, store@, *c);
                                },
                                _ => {},
                            }
                        }
                    }
                    out.push(2u8);
                    out.append(&mut d);
                },
            }
            proof {
                assert(out@ =~= le16(mask) + handles_body(*self, i as int + 1));
            }
            i = i + 1;
        }
        let r = digest(&out);
        let ghost s_before = store@;
        store.push((r.clone(), out));
        proof {
            let last = store@.len() - 1;
            assert(store@[last].0@ == blake2b_of(node_body(*self)));
            assert forall|j: int| 0 <= j < 16 implies match #[trigger] self.slots@[j] {
                Handle::Node(c) => blake2b_of(node_body(*c)).len() == 32 && present(store@, *c),
                _ => true,
            } by {
                match self.slots@[j] {
                    Handle::Node(c) => {
                        lemma_present_grow(s_before, store@, *c);
                    },
                    _ => {},
                }
            }
        }
        r
    }
}

/// Two subtrees of the same shape have the same body.
pub proof fn lemma_same_shape_body(a: HAMT<u64>, b: HAMT<u64>)
    requires
        same_shape(a, b),
        a.full(),
    ensures
        node_body(a) == node_body(b),
    decreases a,
{
    lemma_same_shape_handles(a, b, 16);
    lemma_same_shape_mask(a, b, 16);
}

proof fn lemma_same_shape_mask(a: HAMT<u64>, b: HAMT<u64>, n: int)
    requires
        same_shape(a, b),
        n <= a.slots@.len(),
    ensures
        mask_upto(a, n) == mask_upto(b, n),
    decreases n,
{
    if n > 0 {
        lemma_same_shape_mask(a, b, n - 1);
        assert(a.slots@[n - 1] is Empty <==> b.slots@[n - 1] is Empty);
    }
}

proof fn lemma_same_shape_handles(a: HAMT<u64>, b: HAMT<u64>, n: int)
    requires
        same_shape(a, b),
        a.full(),
        n <= 16,
    ensures
        handles_body(a, n) == handles_body(b, n),
    decreases a, n,
{
    if n > 0 {
        lemma_same_shape_handles(a, b, n - 1);
        match a.slots@[n - 1] {
            Handle::Node(x) => {
                let y = b.slots@[n - 1]->Node_0;
                assert(x.full());
                lemma_same_shape_body(*x, *y);
            },
            _ => {},
        }
    }
}


fn read_u64(b: &Vec<u8>, pos: usize) -> (r: u64)
    requires
        pos + 8 <= b@.len(),
    ensures
        le64(r) == b@.subrange(pos as int, pos + 8),
{
    let n = b.len();
    assert(pos + 8 <= n);
    let b0 = b[pos] as u64;
    let b1 = b[pos + 1] as u64;
    let b2 = b[pos + 2] as u64;
    let b3 = b[pos + 3] as u64;
    let b4 = b[pos + 4] as u64;
    let b5 = b[pos + 5] as u64;
    let b6 = b[pos + 6] as u64;
    let b7 = b[pos + 7] as u64;
    let r = b0 | (b1 << 8u64) | (b2 << 16u64) | (b3 << 24u64) | (b4 << 32u64) | (b5 << 40u64) | (b6 << 48u64) | (b7 << 56u64);
    proof {
        assert(((r >> 0u64) & 0xff) == b0 && ((r >> 8u64) & 0xff) == b1 && ((r >> 16u64) & 0xff) == b2
            && ((r >> 24u64) & 0xff) == b3 && ((r >> 32u64) & 0xff) == b4 && ((r >> 40u64) & 0xff) == b5
            && ((r >> 48u64) & 0xff) == b6 && ((r >> 56u64) & 0xff) == b7) by (bit_vector)
            requires
                b0 <= 255 && b1 <= 255 && b2 <= 255 && b3 <= 255 && b4 <= 255 && b5 <= 255 && b6 <= 255 && b7 <= 255,
                r == b0 | (b1 << 8u64) | (b2 << 16u64) | (b3 << 24u64) | (b4 << 32u64) | (b5 << 40u64) | (b6 << 48u64) | (b7 << 56u64);
        assert(le64(r) =~= b@.subrange(pos as int, pos + 8));
    }
    r
}

fn bytes_eq(a: &Vec<u8>, b: &Vec<u8>) -> (r: bool)
    ensures
        r == (a@ == b@),
{
    if a.len() != b.len() {
        return false;
    }
    let mut i: usize = 0;
    while i < a.len()
        invariant
            a@.len() == b@.len(),
            i <= a@.len(),
            forall|j: int| 0 <= j < i ==> a@[j] == b@[j],
        decreases a@.len() - i,
    {
        if a[i] != b[i] {
            return false;
        }
        i = i + 1;
    }
    assert(a@ =~= b@);
    true
}

proof fn lemma_mask_step(m: u16, i: u16)
    requires
        i < 16,
    ensures
        (m & (((1u32 << (i + 1) as u32) - 1) as u16)) == if (m >> i) & 1 == 1 {
            (m & (((1u32 << i as u32) - 1) as u16)) | (1u16 << i)
        } else {
            m & (((1u32 << i as u32) - 1) as u16)
        },
{
    assert((m & (((1u32 << (i + 1) as u32) - 1) as u16)) == if (m >> i) & 1 == 1 {
        (m & (((1u32 << i as u32) - 1) as u16)) | (1u16 << i)
    } else {
        m & (((1u32 << i as u32) - 1) as u16)
    }) by (bit_vector)
        requires
            i < 16;
}

proof fn lemma_prefix_same(a: HAMT<u64>, b: HAMT<u64>, n: int)
    requires
        0 <= n <= a.slots@.len(),
        n <= b.slots@.len(),
        forall|j: int| 0 <= j < n ==> a.slots@[j] == b.slots@[j],
    ensures
        handles_body(a, n) == handles_body(b, n),
        mask_upto(a, n) == mask_upto(b, n),
    decreases n,
{
    if n > 0 {
        lemma_prefix_same(a, b, n - 1);
    }
}

/// The bytes that bucket `h` contributes to its node's body.
pub open spec fn piece(h: Handle<u64>) -> Seq<u8> {
    match h {
        Handle::Empty => Seq::empty(),
        Handle::Leaf(k, v) => seq![1u8] + le64(k) + le64(v),
        Handle::Node(b) => seq![2u8] + blake2b_of(node_body(*b)),
    }
}

/// Entry `f` is the first entry of `store` under digest `d`.
pub open spec fn first_under(store: Seq<(Vec<u8>, Vec<u8>)>, d: Seq<u8>, f: int) -> bool {
    &&& 0 <= f < store.len()
    &&& store[f].0@ == d
    &&& forall|j: int| 0 <= j < f ==> (#[trigger] store[j]).0@ != d
}

/// `store` holds `t` under `d`: the first entry under `d` is the body of
/// `t`, which hashes to `d`, and likewise for every subtree, nested at most
/// `fuel` deep.
pub open spec fn stored_as(store: Seq<(Vec<u8>, Vec<u8>)>, d: Seq<u8>, t: HAMT<u64>, fuel: nat) -> bool
    decreases t,
{
    &&& t.slots@.len() == 16
    &&& blake2b_of(node_body(t)) == d
    &&& exists|f: int| first_under(store, d, f) && store[f].1@ == node_body(t)
    &&& forall|i: int| 0 <= i < 16 ==> match #[trigger] t.slots@[i] {
        Handle::Node(b) => {
            &&& fuel > 0
            &&& blake2b_of(node_body(*b)).len() == 32
            &&& stored_as(store, blake2b_of(node_body(*b)), *b, (fuel - 1) as nat)
        },
        _ => true,
    }
}

/// Bucket contents that agree, subtrees up to shape.
pub open spec fn slot_match(a: Handle<u64>, b: Handle<u64>) -> bool {
    match a {
        Handle::Empty => b is Empty,
        Handle::Leaf(k, v) => b == Handle::Leaf(k, v),
        Handle::Node(x) => b is Node && same_shape(*x, *(b->Node_0)),
    }
}

proof fn lemma_le64_injective(x: u64, y: u64)
    requires
        le64(x) == le64(y),
    ensures
        x == y,
{
    assert(le64(x)[0] == ((x >> 0u64) & 0xff) as u8 && le64(y)[0] == ((y >> 0u64) & 0xff) as u8);
    assert(le64(x)[1] == ((x >> 8u64) & 0xff) as u8 && le64(y)[1] == ((y >> 8u64) & 0xff) as u8);
    assert(le64(x)[2] == ((x >> 16u64) & 0xff) as u8 && le64(y)[2] == ((y >> 16u64) & 0xff) as u8);
    assert(le64(x)[3] == ((x >> 24u64) & 0xff) as u8 && le64(y)[3] == ((y >> 24u64) & 0xff) as u8);
    assert(le64(x)[4] == ((x >> 32u64) & 0xff) as u8 && le64(y)[4] == ((y >> 32u64) & 0xff) as u8);
    assert(le64(x)[5] == ((x >> 40u64) & 0xff) as u8 && le64(y)[5] == ((y >> 40u64) & 0xff) as u8);
    assert(le64(x)[6] == ((x >> 48u64) & 0xff) as u8 && le64(y)[6] == ((y >> 48u64) & 0xff) as u8);
    assert(le64(x)[7] == ((x >> 56u64) & 0xff) as u8 && le64(y)[7] == ((y >> 56u64) & 0xff) as u8);
    assert(x == y) by (bit_vector)
        requires
            ((x >> 0u64) & 0xff) as u8 == ((y >> 0u64) & 0xff) as u8,
            ((x >> 8u64) & 0xff) as u8 == ((y >> 8u64) & 0xff) as u8,
            ((x >> 16u64) & 0xff) as u8 == ((y >> 16u64) & 0xff) as u8,
            ((x >> 24u64) & 0xff) as u8 == ((y >> 24u64) & 0xff) as u8,
            ((x >> 32u64) & 0xff) as u8 == ((y >> 32u64) & 0xff) as u8,
            ((x >> 40u64) & 0xff) as u8 == ((y >> 40u64) & 0xff) as u8,
            ((x >> 48u64) & 0xff) as u8 == ((y >> 48u64) & 0xff) as u8,
            ((x >> 56u64) & 0xff) as u8 == ((y >> 56u64) & 0xff) as u8;
}

proof fn lemma_le16_injective(x: u16, y: u16)
    requires
        le16(x) == le16(y),
    ensures
        x == y,
{
    assert(le16(x)[0] == le16(y)[0] && le16(x)[1] == le16(y)[1]);
    assert(x == y) by (bit_vector)
        requires
            (x & 0xff) as u8 == (y & 0xff) as u8,
            (x >> 8u16) as u8 == (y >> 8u16) as u8;
}

/// Bit `i` of the mask of the first `n` buckets is set exactly when bucket
/// `i` is below `n` and not empty.
proof fn lemma_mask_bits(t: HAMT<u64>, n: int, i: u16)
    requires
        0 <= n <= 16,
        n <= t.slots@.len(),
        i < 16,
    ensures
        ((mask_upto(t, n) >> i) & 1 == 1) <==> (i < n && !(t.slots@[i as int] is Empty)),
    decreases n,
{
    if n == 0 {
        assert((0u16 >> i) & 1 == 0) by (bit_vector);
    } else {
        lemma_mask_bits(t, n - 1, i);
        let m = mask_upto(t, n - 1);
        let b = (n - 1) as u16;
        if !(t.slots@[n - 1] is Empty) {
            assert(((m | (1u16 << b)) >> i) & 1 == if i == b { 1u16 } else { (m >> i) & 1 }) by (bit_vector)
                requires
                    b < 16,
                    i < 16;
        }
    }
}

proof fn lemma_handles_prefix(t: HAMT<u64>, n: int, m: int)
    requires
        0 <= n <= m <= t.slots@.len(),
    ensures
        handles_body(t, m).subrange(0, handles_body(t, n).len() as int) == handles_body(t, n),
        handles_body(t, n).len() <= handles_body(t, m).len(),
    decreases m - n,
{
    if n < m {
        lemma_handles_prefix(t, n, m - 1);
        assert(handles_body(t, m).subrange(0, handles_body(t, m - 1).len() as int) =~= handles_body(t, m - 1));
    } else {
        assert(handles_body(t, m).subrange(0, handles_body(t, n).len() as int) =~= handles_body(t, n));
    }
}

/// Where bucket `i` of `t` lies in the body of `t`.
proof fn lemma_piece_at(t: HAMT<u64>, body: Seq<u8>, i: int)
    requires
        t.slots@.len() == 16,
        body == node_body(t),
        0 <= i < 16,
    ensures
        handles_body(t, i + 1) == handles_body(t, i) + piece(t.slots@[i]),
        2 + handles_body(t, i + 1).len() <= body.len(),
        body.subrange(2 + handles_body(t, i).len() as int, 2 + handles_body(t, i + 1).len() as int) == piece(t.slots@[i]),
{
    assert(handles_body(t, i + 1) =~= handles_body(t, i) + piece(t.slots@[i]));
    lemma_handles_prefix(t, i + 1, 16);
    let a = handles_body(t, i).len() as int;
    let c = handles_body(t, i + 1).len() as int;
    assert(body.subrange(2 + a, 2 + c) =~= handles_body(t, 16).subrange(0, c).subrange(a, c));
}

impl HAMT<u64> {
    /// Rebuilds the node stored under digest `d`, with its subtrees, from
    /// `store`. Fails when a digest is missing, a body does not hash to its
    /// digest, a body is malformed, or subtrees nest deeper than `fuel`;
    /// succeeds, with a tree of the same shape, whenever `store` holds a tree
    /// under `d`.
    #[verifier::rlimit(100)]
    pub fn restore(store: &Vec<(Vec<u8>, Vec<u8>)>, d: &Vec<u8>, fuel: usize) -> (r: Option<HAMT<u64>>)
        ensures
            r matches Some(t) ==> t.full() && blake2b_of(node_body(t)) == d@,
            r matches Some(t) ==> exists|f: int| first_under(store@, d@, f) && store@[f].1@ == node_body(t),
            (forall|j: int| 0 <= j < store@.len() ==> (#[trigger] store@[j]).0@ != d@) ==> r is None,
            forall|t: HAMT<u64>| #[trigger] stored_as(store@, d@, t, fuel as nat) ==>
                (r matches Some(t2) && same_shape(t2, t)),
        decreases fuel,
    {
        let mut j: usize = 0;
        let mut found: Option<usize> = None;
        while j < store.len() && found.is_none()
            invariant
                j <= store@.len(),
                found is None ==> forall|q: int| 0 <= q < j ==> (#[trigger] store@[q]).0@ != d@,
                found matches Some(f) ==> first_under(store@, d@, f as int),
            decreases store@.len() - j + if found is None { 1int } else { 0int },
        {
            if bytes_eq(&store[j].0, d) {
                found = Some(j);
            } else {
                j = j + 1;
            }
        }
        let f = match found {
            Some(f) => f,
            None => {
                proof {
                    assert forall|t: HAMT<u64>| #[trigger] stored_as(store@, d@, t, fuel as nat) implies false by {
                        let g = choose|g: int| first_under(store@, d@, g) && store@[g].1@ == node_body(t);
                        assert(store@[g].0@ == d@);
                    }
                }
                return None;
            },
        };
        let body = &store[f].1;
        proof {
            assert forall|t: HAMT<u64>| #[trigger] stored_as(store@, d@, t, fuel as nat) implies body@ == node_body(t) by {
                let g = choose|g: int| first_under(store@, d@, g) && store@[g].1@ == node_body(t);
                if g < f {
                    assert(store@[g].0@ != d@);
                } else if g > f {
                    assert(store@[f as int].0@ != d@);
                }
            }
        }
        if !bytes_eq(&digest(body), d) {
            return None;
        }
        if body.len() < 2 {
            return None;
        }
        let mask: u16 = (body[0] as u16) | ((body[1] as u16) << 8u16);
        proof {
            let b0 = body@[0];
            let b1 = body@[1];
            assert((mask & 0xff) as u8 == b0 && (mask >> 8u16) as u8 == b1) by (bit_vector)
                requires
                    mask == (b0 as u16) | ((b1 as u16) << 8u16);
            assert(le16(mask) =~= body@.subrange(0, 2));
            assert forall|t: HAMT<u64>| #[trigger] stored_as(store@, d@, t, fuel as nat) implies mask == mask_upto(t, 16) by {
                assert(node_body(t).subrange(0, 2) =~= le16(mask_upto(t, 16)));
                lemma_le16_injective(mask, mask_upto(t, 16));
            }
        }
        let mut t = HAMT::new();
        proof {
            assert(mask & (((1u32 << 0u32) - 1) as u16) == 0) by (bit_vector);
            assert(body@.subrange(0, 2) =~= le16(mask) + handles_body(t, 0));
        }
        let mut pos: usize = 2;
        let mut i: usize = 0;
        while i < N_BUCKETS
            invariant
                t.full(),
                i <= 16,
                2 <= pos <= body@.len(),
                forall|j: int| i <= j < 16 ==> #[trigger] t.slots@[j] is Empty,
                mask_upto(t, i as int) == mask & (((1u32 << i as u32) - 1) as u16),
                body@.subrange(0, pos as int) == le16(mask) + handles_body(t, i as int),
                forall|ts: HAMT<u64>| #[trigger] stored_as(store@, d@, ts, fuel as nat) ==> {
                    &&& body@ == node_body(ts)
                    &&& mask == mask_upto(ts, 16)
                    &&& pos == 2 + handles_body(ts, i as int).len()
                    &&& forall|j: int| 0 <= j < i ==> slot_match(#[trigger] t.slots@[j], ts.slots@[j])
                },
            decreases 16 - i,
        {
            proof {
                lemma_mask_step(mask, i as u16);
                assert forall|ts: HAMT<u64>| #[trigger] stored_as(store@, d@, ts, fuel as nat) implies {
                    &&& ((mask >> (i as u16)) & 1 == 1) <==> !(ts.slots@[i as int] is Empty)
                    &&& handles_body(ts, i + 1) == handles_body(ts, i as int) + piece(ts.slots@[i as int])
                    &&& pos + piece(ts.slots@[i as int]).len() <= body@.len()
                    &&& body@.subrange(pos as int, pos + piece(ts.slots@[i as int]).len()) == piece(ts.slots@[i as int])
                } by {
                    lemma_mask_bits(ts, 16, i as u16);
                    lemma_piece_at(ts, body@, i as int);
                }
            }
            let ghost t0 = t;
            if (mask >> (i as u16)) & 1 == 1 {
                if pos >= body.len() {
                    proof {
                        assert forall|ts: HAMT<u64>| #[trigger] stored_as(store@, d@, ts, fuel as nat) implies false by {
                            assert(piece(ts.slots@[i as int]).len() > 0);
                        }
                    }
                    return None;
                }
                let tag = body[pos];
                proof {
                    assert forall|ts: HAMT<u64>| #[trigger] stored_as(store@, d@, ts, fuel as nat) implies
                        (tag == 1 ==> ts.slots@[i as int] is Leaf) && (tag == 2 ==> ts.slots@[i as int] is Node)
                        && (tag == 1 || tag == 2) by {
                        let pc = piece(ts.slots@[i as int]);
                        assert(body@.subrange(pos as int, pos + pc.len())[0] == pc[0]);
                    }
                }
                if tag == 1 {
                    if body.len() < 17 || pos > body.len() - 17 {
                        proof {
                            assert forall|ts: HAMT<u64>| #[trigger] stored_as(store@, d@, ts, fuel as nat) implies false by {
                                assert(piece(ts.slots@[i as int]).len() == 17);
                            }
                        }
                        return None;
                    }
                    let k = read_u64(body, pos + 1);
                    let v = read_u64(body, pos + 9);
                    t.slots.set(i, Handle::Leaf(k, v));
                    proof {
                        lemma_prefix_same(t0, t, i as int);
                        assert(body@.subrange(0, pos + 17) =~= body@.subrange(0, pos as int) + seq![1u8]
                            + body@.subrange(pos + 1, pos + 9) + body@.subrange(pos + 9, pos + 17));
                        assert(t.slots@[i as int] is Leaf);
                        assert forall|ts: HAMT<u64>| #[trigger] stored_as(store@, d@, ts, fuel as nat) implies
                            slot_match(t.slots@[i as int], ts.slots@[i as int])
                            && pos + 17 == 2 + handles_body(ts, i + 1).len() by {
                            let pc = piece(ts.slots@[i as int]);
                            let ks = ts.slots@[i as int]->Leaf_0;
                            let vs = ts.slots@[i as int]->Leaf_1;
                            let w = body@.subrange(pos as int, pos + 17);
                            assert(w == pc);
                            assert(w.subrange(1, 9) =~= body@.subrange(pos + 1, pos + 9));
                            assert(w.subrange(9, 17) =~= body@.subrange(pos + 9, pos + 17));
                            assert(pc.subrange(1, 9) =~= le64(ks));
                            assert(pc.subrange(9, 17) =~= le64(vs));
                            lemma_le64_injective(k, ks);
                            lemma_le64_injective(v, vs);
                        }
                    }
                    pos = pos + 17;
                } else if tag == 2 {
                    if body.len() < 33 || pos > body.len() - 33 || fuel == 0 {
                        proof {
                            assert forall|ts: HAMT<u64>| #[trigger] stored_as(store@, d@, ts, fuel as nat) implies false by {
                                assert(ts.slots@[i as int] is Node);
                                assert(ts.slots@[i as int] matches Handle::Node(b) && blake2b_of(node_body(*b)).len() == 32);
                                assert(piece(ts.slots@[i as int]).len() == 33);
                            }
                        }
                        return None;
                    }
                    let end = pos + 33;
                    let mut cd: Vec<u8> = Vec::new();
                    let mut q: usize = pos + 1;
                    while q < end
                        invariant
                            end == pos + 33,
                            pos + 1 <= q <= pos + 33,
                            pos + 33 <= body@.len(),
                            cd@ == body@.subrange(pos + 1, q as int),
                        decreases end - q,
                    {
                        cd.push(body[q]);
                        proof {
                            assert(cd@ =~= body@.subrange(pos + 1, q + 1));
                        }
                        q = q + 1;
                    }
                    proof {
                        assert forall|ts: HAMT<u64>| #[trigger] stored_as(store@, d@, ts, fuel as nat) implies
                            stored_as(store@, cd@, *(ts.slots@[i as int]->Node_0), (fuel - 1) as nat) by {
                            let b = ts.slots@[i as int]->Node_0;
                            let pc = piece(ts.slots@[i as int]);
                            assert(blake2b_of(node_body(*b)).len() == 32);
                            assert(pc.len() == 33);
                            let w = body@.subrange(pos as int, pos + 33);
                            assert(w == pc);
                            assert(w.subrange(1, 33) =~= cd@);
                            assert(pc.subrange(1, 33) =~= blake2b_of(node_body(*b)));
                        }
                    }
                    let child = match HAMT::restore(store, &cd, fuel - 1) {
                        Some(c) => c,
                        None => {
                            proof {
                                assert forall|ts: HAMT<u64>| #[trigger] stored_as(store@, d@, ts, fuel as nat) implies false by {
                                    let b = ts.slots@[i as int]->Node_0;
                                    assert(stored_as(store@, cd@, *b, (fuel - 1) as nat));
                                }
                            }
                            return None;
                        },
                    };
                    t.slots.set(i, Handle::Node(Box::new(child)));
                    proof {
                        lemma_prefix_same(t0, t, i as int);
                        assert(body@.subrange(0, pos + 33) =~= body@.subrange(0, pos as int) + seq![2u8] + cd@);
                        assert forall|ts: HAMT<u64>| #[trigger] stored_as(store@, d@, ts, fuel as nat) implies
                            slot_match(t.slots@[i as int], ts.slots@[i as int])
                            && pos + 33 == 2 + handles_body(ts, i + 1).len() by {
                            let b = ts.slots@[i as int]->Node_0;
                            assert(stored_as(store@, cd@, *b, (fuel - 1) as nat));
                            assert(blake2b_of(node_body(*b)).len() == 32);
                            assert(piece(ts.slots@[i as int]).len() == 33);
                        }
                    }
                    pos = pos + 33;
                } else {
                    return None;
                }
            } else {
                proof {
                    lemma_prefix_same(t0, t, i as int + 1);
                }
            }
            i = i + 1;
        }
        if pos != body.len() {
            proof {
                assert forall|ts: HAMT<u64>| #[trigger] stored_as(store@, d@, ts, fuel as nat) implies false by {}
            }
            return None;
        }
        proof {
            assert(((1u32 << 16u32) - 1) as u16 == 0xffffu16) by (bit_vector);
            assert(mask & 0xffffu16 == mask) by (bit_vector);
            assert(body@.subrange(0, pos as int) =~= body@);
            assert forall|ts: HAMT<u64>| #[trigger] stored_as(store@, d@, ts, fuel as nat) implies same_shape(t, ts) by {
                assert forall|j: int| 0 <= j < t.slots@.len() implies match #[trigger] t.slots@[j] {
                    Handle::Empty => ts.slots@[j] is Empty,
                    Handle::Leaf(k, v) => ts.slots@[j] == Handle::Leaf(k, v),
                    Handle::Node(x) => ts.slots@[j] is Node && same_shape(*x, *(ts.slots@[j]->Node_0)),
                } by {
                    assert(slot_match(t.slots@[j], ts.slots@[j]));
                }
            }
        }
        Some(t)
    }
}

} // verus!
