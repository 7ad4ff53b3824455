use std::collections::HashMap;
use tinyset::u64map::U64Map;

fn pairs(m: &U64Map) -> Vec<(u64, u64)> {
    let mut out = Vec::new();
    let mut it = m.iter();
    while let Some(p) = it.next() {
        out.push(p);
    }
    out.sort();
    out
}

#[test]
fn insert_gives_the_value_that_was_there() {
    let mut m = U64Map::with_capacity(0);
    assert_eq!(m.insert(3, 10), None);
    assert_eq!(m.insert(3, 11), Some(10));
    assert_eq!(m.get(3), Some(11));
    assert_eq!(m.len(), 1);
    assert_eq!(m.remove(3), Some(11));
    assert_eq!(m.remove(3), None);
    assert_eq!(m.get(3), None);
    assert_eq!(m.len(), 0);
}

#[test]
fn large_values_leave_the_inline_form() {
    let mut m = U64Map::with_capacity(0);
    m.insert(1, 255);
    m.insert(2, 7);
    assert_eq!(m.get(1), Some(255));
    m.insert(3, 300);
    assert_eq!(m.get(1), Some(255));
    assert_eq!(m.get(2), Some(7));
    assert_eq!(m.get(3), Some(300));
    m.insert(70_000, 1);
    m.insert(4, u64::MAX);
    m.insert(u64::MAX, 4);
    m.insert(u64::MAX - 1, u64::MAX - 1);
    assert_eq!(m.len(), 7);
    assert_eq!(
        pairs(&m),
        vec![
            (1, 255),
            (2, 7),
            (3, 300),
            (4, u64::MAX),
            (70_000, 1),
            (u64::MAX - 1, u64::MAX - 1),
            (u64::MAX, 4)
        ]
    );
    assert_eq!(m.remove(u64::MAX), Some(4));
    assert_eq!(m.get(u64::MAX), None);
    assert_eq!(m.get(u64::MAX - 1), Some(u64::MAX - 1));
}

#[test]
fn a_wide_key_in_a_narrow_map_keeps_the_old_entries() {
    let mut m = U64Map::with_maxes_cap(100_000, 5, 2);
    m.insert(100_000, 5);
    m.insert(1, 300);
    assert_eq!(m.get(100_000), Some(5));
    assert_eq!(m.get(1), Some(300));
    let mut n = U64Map::with_maxes_cap(1000, 30_000, 20);
    n.insert(1000, 30_000);
    n.insert(1 << 20, 1);
    assert_eq!(n.get(1000), Some(30_000));
    assert_eq!(n.get(1 << 20), Some(1));
    assert_eq!(n.len(), 2);
}

#[test]
fn matches_a_reference_map() {
    let mut m = U64Map::with_capacity(0);
    let mut reference = HashMap::<u64, u64>::new();
    let mut x: u64 = 99;
    for round in 0..6000 {
        x = x.wrapping_mul(6364136223846793005).wrapping_add(1442695040888963407);
        let k = (x >> 33) % 900;
        let v = (x >> 20) % 500;
        if round % 4 == 3 {
            assert_eq!(m.remove(k), reference.remove(&k));
        } else {
            assert_eq!(m.insert(k, v), reference.insert(k, v));
        }
        assert_eq!(m.len(), reference.len());
    }
    for k in 0..1000u64 {
        assert_eq!(m.get(k), reference.get(&k).cloned());
    }
    let mut want: Vec<(u64, u64)> = reference.iter().map(|(&k, &v)| (k, v)).collect();
    want.sort();
    assert_eq!(pairs(&m), want);
}

#[test]
fn iteration_counts_down() {
    let mut m = U64Map::with_capacity(30);
    for k in 0..25u64 {
        m.insert(k * 9, k);
    }
    let mut it = m.iter();
    assert_eq!(it.size_hint(), (25, Some(25)));
    let first = it.next().unwrap();
    assert_eq!(first.0, first.1 * 9);
    assert_eq!(it.size_hint(), (24, Some(24)));
    let mut n = 1;
    while let Some((k, v)) = it.next() {
        assert_eq!(k, v * 9);
        n += 1;
    }
    assert_eq!(n, 25);
    assert_eq!(it.next(), None);
}

#[test]
fn equal_maps_hold_the_same_entries() {
    let mut a = U64Map::with_capacity(0);
    let mut b = U64Map::with_capacity(100);
    for k in 0..10u64 {
        a.insert(k, k + 1);
    }
    for k in (0..10u64).rev() {
        b.insert(k, k + 1);
    }
    assert!(a == b);
    b.insert(3, 0);
    assert!(a != b);
    b.insert(3, 4);
    assert!(a == b);
    b.insert(1 << 40, 4);
    assert!(a != b);
    let c = b.clone();
    assert!(c == b);
}

#[test]
fn unchecked_insert_into_a_map_made_for_the_entries() {
    let mut m = U64Map::with_maxes_cap(5000, 200, 8);
    assert_eq!(m.insert_unchecked(5000, 200), None);
    assert_eq!(m.insert_unchecked(17, 0), None);
    assert_eq!(m.insert_unchecked(5000, 100), Some(200));
    assert_eq!(m.get(5000), Some(100));
    m.reserve_with_maxes(5000, 100, 50);
    assert_eq!(m.get(5000), Some(100));
    assert_eq!(m.get(17), Some(0));
    assert_eq!(m.len(), 2);
    println!("{:?}", m);
}

#[test]
fn the_sentinel_of_a_map_moves_and_is_kept() {
    let top = u64::MAX;
    let mut m = U64Map::with_capacity(0);
    assert_eq!(m.invalid(), 0xff);
    m.insert(top, 1);
    assert_eq!(m.invalid(), top - 1);
    m.insert(top - 1, 2);
    assert_eq!(m.invalid(), top - 2);
    assert_eq!(m.remove(top), Some(1));
    for k in 0..200u64 {
        m.insert(k, k * k);
        assert_eq!(m.invalid(), top - 2);
    }
    assert_eq!(m.get(top - 1), Some(2));
    assert_eq!(m.get(top - 2), None);
    m.insert(top - 2, 3);
    assert_eq!(m.invalid(), top - 3);
    assert_eq!(m.get(top - 2), Some(3));
    assert_eq!(m.get(14), Some(196));
    assert_eq!(m.len(), 202);
}
