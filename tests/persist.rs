use hamt::hamt::HAMT;
use hamt::slot::{calculate_slot, hash_key};

fn pseudo_random_pairs(n: usize) -> Vec<(u64, u64)> {
    let mut state: u64 = 0x2545_f491_4f6c_dd1d;
    let mut out = Vec::new();
    for _ in 0..n {
        state = state.wrapping_mul(6364136223846793005).wrapping_add(1442695040888963407);
        let k = (state >> 32) as u32 as u64;
        state = state.wrapping_mul(6364136223846793005).wrapping_add(1442695040888963407);
        let v = (state >> 32) as u32 as u64;
        out.push((k, v));
    }
    out
}

#[test]
fn persist_round_trip() {
    let pairs = pseudo_random_pairs(256);
    let mut h = HAMT::<u64>::new();
    for &(k, v) in pairs.iter() {
        h.insert(k, v).unwrap();
    }
    let mut store = Vec::new();
    let root = h.persist(&mut store);
    assert_eq!(root.len(), 32);
    let restored = HAMT::restore(&store, &root, 64).unwrap();
    let mut expected = HAMT::<u64>::new();
    for &(k, v) in pairs.iter() {
        expected.insert(k, v).unwrap();
    }
    for &(k, _) in pairs.iter() {
        assert_eq!(restored.get(&k), expected.get(&k));
    }
    let mut store2 = Vec::new();
    assert_eq!(restored.persist(&mut store2), root);
}

#[test]
fn persist_order_independent_digest() {
    let mut a = HAMT::<u64>::new();
    let mut b = HAMT::<u64>::new();
    for i in 0..200u64 {
        a.insert(i, i * 3).unwrap();
    }
    for i in (0..200u64).rev() {
        b.insert(i, i * 3).unwrap();
    }
    let mut sa = Vec::new();
    let mut sb = Vec::new();
    assert_eq!(a.persist(&mut sa), b.persist(&mut sb));
    b.insert(7, 0).unwrap();
    let mut sc = Vec::new();
    assert_ne!(a.persist(&mut sa), b.persist(&mut sc));
}

#[test]
fn persist_single_leaf_layout() {
    let mut h = HAMT::<u64>::new();
    h.insert(0x0102, 0x0304).unwrap();
    let mut store = Vec::new();
    let root = h.persist(&mut store);
    assert_eq!(store.len(), 1);
    let (d, body) = &store[0];
    assert_eq!(*d, root);
    let s = calculate_slot(hash_key(0x0102), 0);
    let mask: u16 = 1 << s;
    let mut expected = vec![(mask & 0xff) as u8, (mask >> 8) as u8, 1u8];
    expected.extend_from_slice(&0x0102u64.to_le_bytes());
    expected.extend_from_slice(&0x0304u64.to_le_bytes());
    assert_eq!(*body, expected);
}

#[test]
fn restore_rejects_tampered_body() {
    let mut h = HAMT::<u64>::new();
    for i in 0..40u64 {
        h.insert(i, i).unwrap();
    }
    let mut store = Vec::new();
    let root = h.persist(&mut store);
    let last = store.len() - 1;
    let n = store[last].1.len();
    store[last].1[n - 1] ^= 1;
    assert!(HAMT::restore(&store, &root, 64).is_none());
}

#[test]
fn restore_missing_digest() {
    let store: Vec<(Vec<u8>, Vec<u8>)> = Vec::new();
    assert!(HAMT::restore(&store, &vec![0u8; 32], 64).is_none());
}

#[test]
fn restore_respects_fuel() {
    let mut h = HAMT::<u64>::new();
    for i in 0..64u64 {
        h.insert(i, i).unwrap();
    }
    let mut store = Vec::new();
    let root = h.persist(&mut store);
    assert!(HAMT::restore(&store, &root, 0).is_none());
    assert!(HAMT::restore(&store, &root, 64).is_some());
}
