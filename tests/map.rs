use hamt::compound::KVPair;
use hamt::hamt::{Handle, HAMT};
use hamt::search::{First, HAMTSearch, Method, SearchResult};
use hamt::slot::{calculate_slot, hash_key};

#[test]
fn trivial_map() {
    let mut h = HAMT::<u64>::new();
    h.insert(28, 28).unwrap();
    assert_eq!(*h.get(&28).unwrap(), 28);
}

#[test]
fn bigger_map() {
    let mut h = HAMT::<u64>::new();
    for i in 0..1024u64 {
        assert!(h.get(&i).is_none());
        h.insert(i, i).unwrap();
        assert_eq!(*h.get(&i).unwrap(), i);
    }
}

#[test]
fn nested_maps() {
    let mut map_a = HAMT::<HAMT<u64>>::new();
    for i in 0..128u64 {
        let mut map_b = HAMT::<u64>::new();

        for o in 0..128u64 {
            map_b.insert(o, o).unwrap();
        }

        map_a.insert(i, map_b).unwrap();
    }

    for i in 0..128u64 {
        let map_b = map_a.get(&i).unwrap();

        for o in 0..100u64 {
            assert_eq!(*map_b.get(&o).unwrap(), o);
        }
    }
}

#[test]
fn trivial_insert_remove() {
    let mut h = HAMT::<u64>::new();
    assert_eq!(h.insert(28, 28), Ok(None));
    assert_eq!(h.get(&28), Some(&28));
    assert_eq!(h.remove(&28), Some(28));
    assert_eq!(h.get(&28), None);
    assert_eq!(h.remove(&28), None);
}

#[test]
fn dense_all_present() {
    let mut h = HAMT::<u64>::new();
    for i in 0..1024u64 {
        assert_eq!(h.insert(i, i), Ok(None));
    }
    for i in 0..1024u64 {
        assert_eq!(h.get(&i), Some(&i));
    }
    assert_eq!(h.get(&1024), None);
}

#[test]
fn last_write_wins() {
    let mut h = HAMT::<u64>::new();
    assert_eq!(h.insert(7, 1), Ok(None));
    assert_eq!(h.insert(7, 2), Ok(Some(1)));
    assert_eq!(h.get(&7), Some(&2));
}

#[test]
fn remove_of_absent() {
    let mut h = HAMT::<u64>::new();
    assert_eq!(h.remove(&5), None);
    h.insert(6, 60).unwrap();
    assert_eq!(h.remove(&5), None);
    assert_eq!(h.get(&6), Some(&60));
}

#[test]
fn insert_then_get_many_then_remove_all() {
    let mut h = HAMT::<u64>::new();
    for i in 0..500u64 {
        h.insert(i * 7919, i).unwrap();
    }
    for i in 0..500u64 {
        assert_eq!(h.get(&(i * 7919)), Some(&i));
    }
    for i in 0..500u64 {
        assert_eq!(h.remove(&(i * 7919)), Some(i));
        assert_eq!(h.get(&(i * 7919)), None);
    }
    for s in h.slots.iter() {
        assert!(matches!(s, Handle::Empty));
    }
}

fn slots_upto(k: u64, depth: usize) -> Vec<usize> {
    let h = hash_key(k);
    (0..depth).map(|d| calculate_slot(h, d)).collect()
}

#[test]
fn collapse_on_remove() {
    // three keys whose buckets agree on the first three levels and part at the fourth
    let a: u64 = 1;
    let prefix = slots_upto(a, 3);
    let mut found = vec![a];
    let mut seen = vec![calculate_slot(hash_key(a), 3)];
    let mut k: u64 = 2;
    while found.len() < 3 {
        if slots_upto(k, 3) == prefix {
            let s3 = calculate_slot(hash_key(k), 3);
            if !seen.contains(&s3) {
                seen.push(s3);
                found.push(k);
            }
        }
        k += 1;
    }
    let mut h = HAMT::<u64>::new();
    for &k in found.iter() {
        h.insert(k, k + 100).unwrap();
    }
    let root = prefix[0];
    assert!(matches!(h.slots[root], Handle::Node(_)));
    assert_eq!(h.remove(&found[0]), Some(found[0] + 100));
    assert!(matches!(h.slots[root], Handle::Node(_)));
    assert_eq!(h.remove(&found[1]), Some(found[1] + 100));
    match &h.slots[root] {
        Handle::Leaf(k, v) => {
            assert_eq!(*k, found[2]);
            assert_eq!(*v, found[2] + 100);
        }
        _ => panic!("the branch did not collapse to a leaf"),
    }
    assert_eq!(h.get(&found[2]), Some(&(found[2] + 100)));
}

#[test]
fn slot_takes_four_bits_per_level() {
    let h: u64 = 0x0000_0000_0000_4321;
    assert_eq!(calculate_slot(h, 0), 1);
    assert_eq!(calculate_slot(h, 1), 2);
    assert_eq!(calculate_slot(h, 2), 3);
    assert_eq!(calculate_slot(h, 3), 4);
    assert_eq!(calculate_slot(h, 4), 0);
    assert_eq!(calculate_slot(0xF000_0000_0000_0000, 15), 15);
}

#[test]
fn slot_rehashes_after_sixteen_levels() {
    let h: u64 = 0x0123_4567_89ab_cdef;
    let rehashed = hash_key(h);
    assert_eq!(calculate_slot(h, 16), (rehashed & 0xf) as usize);
    assert_eq!(calculate_slot(h, 17), ((rehashed >> 4) & 0xf) as usize);
}

#[test]
fn key_hash_is_not_identity() {
    assert_ne!(hash_key(28), 28);
    assert_eq!(hash_key(28), hash_key(28));
}

#[test]
fn key_search_steps() {
    let mut h = HAMT::<u64>::new();
    h.insert(28, 1).unwrap();
    let mut search = HAMTSearch::from(&28);
    assert_eq!(search.depth, 0);
    let expected = calculate_slot(hash_key(28), 0);
    assert_eq!(search.next_slot(&h), SearchResult::Leaf(expected));
    assert_eq!(search.depth, 1);
    let mut other = HAMTSearch::from(&29);
    let s = calculate_slot(hash_key(29), 0);
    assert_eq!(Method::select(&mut other, &h), SearchResult::Path(s));
    assert_eq!(other.depth, 1);
}

#[test]
fn first_picks_lowest_occupied() {
    let mut h = HAMT::<u64>::new();
    let mut f = First;
    assert_eq!(Method::select(&mut f, &h), SearchResult::NotFound);
    assert_eq!(First::first_occupied(&h), None);
    h.insert(28, 1).unwrap();
    let s = calculate_slot(hash_key(28), 0);
    assert_eq!(First::first_occupied(&h), Some(s));
    assert_eq!(Method::select(&mut f, &h), SearchResult::Leaf(s));
}

#[test]
fn keys_and_values_cover_each_entry_once() {
    let mut h = HAMT::<u64>::new();
    for i in 0..300u64 {
        h.insert(i, i * 2).unwrap();
    }
    h.remove(&17);
    let mut keys = h.keys();
    let values = h.values();
    assert_eq!(keys.len(), 299);
    assert_eq!(values.len(), 299);
    for (k, v) in h.keys().iter().zip(values.iter()) {
        assert_eq!(**v, k * 2);
    }
    keys.sort();
    let expected: Vec<u64> = (0..300u64).filter(|k| *k != 17).collect();
    assert_eq!(keys, expected);
}

#[test]
fn cardinality_counts_distinct_present_keys() {
    let mut h = HAMT::<u64>::new();
    assert_eq!(h.cardinality(), 0);
    for i in 0..100u64 {
        h.insert(i, i).unwrap();
    }
    h.insert(5, 50).unwrap();
    assert_eq!(h.cardinality(), 100);
    h.remove(&5);
    h.remove(&5);
    assert_eq!(h.cardinality(), 99);
}

fn same_shape(a: &HAMT<u64>, b: &HAMT<u64>) -> bool {
    a.slots.len() == b.slots.len()
        && a.slots.iter().zip(b.slots.iter()).all(|(x, y)| match (x, y) {
            (Handle::Empty, Handle::Empty) => true,
            (Handle::Leaf(k1, v1), Handle::Leaf(k2, v2)) => k1 == k2 && v1 == v2,
            (Handle::Node(n1), Handle::Node(n2)) => same_shape(n1, n2),
            _ => false,
        })
}

#[test]
fn shape_does_not_depend_on_order() {
    let mut a = HAMT::<u64>::new();
    let mut b = HAMT::<u64>::new();
    for i in 0..400u64 {
        a.insert(i, i + 1).unwrap();
    }
    for i in (0..600u64).rev() {
        b.insert(i, i + 1).unwrap();
    }
    for i in 400..600u64 {
        assert_eq!(b.remove(&i), Some(i + 1));
    }
    assert!(same_shape(&a, &b));
}

#[test]
fn default_is_empty() {
    let h: HAMT<u64> = Default::default();
    assert_eq!(h.cardinality(), 0);
    assert_eq!(h.get(&0), None);
}

fn diffuse(x: u64) -> u64 {
    let y = x.wrapping_mul(0x6eed0e9da4d94a4f);
    let z = y ^ ((y >> 32) >> (y >> 60));
    z.wrapping_mul(0x6eed0e9da4d94a4f)
}

#[test]
fn key_hash_matches_stated_formula() {
    for x in [0u64, 1, 28, 0xdead_beef, u64::MAX] {
        let expected = diffuse(
            0xb480a793d8e6c86c ^ 0x6fe2e5aaf078ebc9 ^ 0x14f994a4c5259381 ^ diffuse(0x16f11fe89b0d677c ^ x) ^ 8,
        );
        assert_eq!(hash_key(x), expected);
    }
}

#[test]
fn kv_pair_accessors() {
    let mut p: (u64, u64) = (3, 4);
    assert_eq!(*p.key(), 3);
    assert_eq!(*p.val(), 4);
    *p.val_mut() = 9;
    assert_eq!(p.into_val(), 9);
}
