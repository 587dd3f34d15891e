//! Laws of the map, stated over the `Map` view that the contracts of
//! `HAMT::insert`, `HAMT::get` and `HAMT::remove` use.

use vstd::prelude::*;
use crate::hamt::{lemma_same_shape_lookup, same_shape, HAMT, MAX_DEPTH};
use crate::persist::{blake2b_of, consistent, lemma_present_stored, lemma_same_shape_body, node_body, present, stored_as};

verus! {

/// The map after inserting every pair of `s` in order into `m`.
pub open spec fn insert_all<V>(m: Map<u64, V>, s: Seq<(u64, V)>) -> Map<u64, V>
    decreases s.len(),
{
    if s.len() == 0 {
        m
    } else {
        insert_all(m, s.drop_last()).insert(s.last().0, s.last().1)
    }
}

/// After inserting pairs with distinct keys, each key maps to its own value.
pub proof fn law_insert_then_get<V>(m: Map<u64, V>, s: Seq<(u64, V)>)
    requires
        forall|i: int, j: int| 0 <= i < j < s.len() ==> s[i].0 != s[j].0,
    ensures
        forall|i: int| 0 <= i < s.len() ==> #[trigger] insert_all(m, s).get(s[i].0) == Some(s[i].1),
    decreases s.len(),
{
    if s.len() > 0 {
        let t = s.drop_last();
        law_insert_then_get(m, t);
        assert forall|i: int| 0 <= i < s.len() implies #[trigger] insert_all(m, s).get(s[i].0) == Some(s[i].1) by {
            if i < s.len() - 1 {
                assert(t[i] == s[i]);
                assert(s[i].0 != s[s.len() - 1].0);
                assert(insert_all(m, t).get(t[i].0) == Some(t[i].1));
            }
        }
    }
}

/// Of two inserts of one key, the second replaces the first and reports its
/// value; on a map without the key the first reports nothing.
pub proof fn law_last_write_wins<V>(m: Map<u64, V>, k: u64, v1: V, v2: V)
    ensures
        !m.contains_key(k) ==> m.get(k) is None,
        m.insert(k, v1).get(k) == Some(v1),
        m.insert(k, v1).insert(k, v2).get(k) == Some(v2),
{
}

/// A removal right after an insert returns the inserted value, and the key is
/// then gone.
pub proof fn law_remove_then_get<V>(m: Map<u64, V>, k: u64, v: V)
    ensures
        m.insert(k, v).get(k) == Some(v),
        m.insert(k, v).remove(k).get(k) is None,
{
}

/// Removing a key that is not there finds nothing and changes nothing, and a
/// second removal of a key finds nothing.
pub proof fn law_remove_absent<V>(m: Map<u64, V>, k: u64)
    ensures
        !m.contains_key(k) ==> m.get(k) is None && m.remove(k) == m,
        m.remove(k).get(k) is None,
{
    if !m.contains_key(k) {
        assert(m.remove(k) =~= m);
    }
}

/// Two well-formed maps with the same contents have the same shape, node for
/// node, whatever order their pairs were inserted or removed in; so any
/// serialisation that is a function of the shape gives them equal bytes.
pub proof fn law_shape_canonical<V>(a: HAMT<V>, b: HAMT<V>)
    requires
        a.wf(),
        b.wf(),
        a@ == b@,
    ensures
        same_shape(a, b),
{
    assert forall|k: u64| #[trigger] a.lookup(0, k) == b.lookup(0, k) by {
        assert(a@.contains_key(k) == (a.lookup(0, k) is Some));
        assert(b@.contains_key(k) == (b.lookup(0, k) is Some));
        if a@.contains_key(k) {
            assert(a@[k] == a.lookup(0, k)->0);
            assert(b@[k] == b.lookup(0, k)->0);
        }
    }
    a.lemma_canonical(b, 0);
}


/// Two well-formed maps of `u64` values with the same contents have the same
/// root body, and so the same digest from `persist`.
pub proof fn law_same_contents_same_digest(a: HAMT<u64>, b: HAMT<u64>)
    requires
        a.wf(),
        b.wf(),
        a@ == b@,
    ensures
        node_body(a) == node_body(b),
        blake2b_of(node_body(a)) == blake2b_of(node_body(b)),
{
    law_shape_canonical(a, b);
    a.lemma_wf_full(0);
    lemma_same_shape_body(a, b);
}


/// After `persist` of a well-formed map into a store with no two bodies under
/// one digest, the store holds the map under the returned digest, so
/// `restore` from that digest with fuel `MAX_DEPTH` succeeds.
pub proof fn law_persist_then_restorable(t: HAMT<u64>, store: Seq<(Vec<u8>, Vec<u8>)>)
    requires
        t.wf(),
        present(store, t),
        consistent(store),
    ensures
        stored_as(store, blake2b_of(node_body(t)), t, MAX_DEPTH as nat),
{
    lemma_present_stored(store, t, 0);
}

/// A tree that `restore` gives back in the shape of a persisted map has the
/// same contents and the same body, so persisting it again writes the same
/// root bytes and digest.
pub proof fn law_restored_same_map(t: HAMT<u64>, t2: HAMT<u64>)
    requires
        t.wf(),
        t2.full(),
        same_shape(t2, t),
    ensures
        t2@ == t@,
        node_body(t2) == node_body(t),
{
    assert forall|k: u64| #[trigger] t2.lookup(0, k) == t.lookup(0, k) by {
        lemma_same_shape_lookup(t2, t, 0, k);
    }
    assert(t2@ =~= t@);
    lemma_same_shape_body(t2, t);
}

} // verus!
