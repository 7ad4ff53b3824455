use std::collections::hash_map::DefaultHasher;
use std::collections::HashSet;
use std::hash::{Hash, Hasher};
use tinyset::set64::Set64;

fn members<T: tinyset::fits::Fits64 + Ord>(set: &Set64<T>) -> Vec<T> {
    let mut out = Vec::new();
    let mut it = set.iter();
    while let Some(x) = it.next() {
        out.push(x);
    }
    out.sort();
    out
}

fn digest<T: tinyset::fits::Fits64>(set: &Set64<T>) -> u64 {
    let mut h = DefaultHasher::new();
    set.hash(&mut h);
    h.finish()
}

#[test]
fn a_set_of_chars() {
    let mut a = Set64::<char>::new();
    for x in "Hello world".chars() {
        a.insert(x);
    }
    for x in "Hello world".chars() {
        assert!(a.contains(&x));
    }
    let mut it = a.iter();
    let mut count = 0;
    while let Some(x) = it.next() {
        assert!("Hello world".contains(x));
        count += 1;
    }
    assert_eq!(count, 8);
    assert_eq!(a.len(), 8);
    assert!(!a.contains(&'x'));
    a.insert('語');
    assert!(a.contains(&'語'));
    assert_eq!(members(&a), vec![' ', 'H', 'd', 'e', 'l', 'o', 'r', 'w', '語']);
}

#[test]
fn difference_of_two_sets() {
    let a = Set64::<u32>::from_iter(&[1, 2, 3]);
    let b = Set64::<u32>::from_iter(&[3, 4, 5]);
    let set = a.sub(&b);
    assert_eq!(members(&set), vec![1, 2]);
    assert_eq!(members(&b.sub(&a)), vec![4, 5]);
    assert_eq!(members(&a.sub(&a)), Vec::<u32>::new());
}

#[test]
fn union_of_two_sets() {
    let a = Set64::<u32>::from_iter(&[1, 2, 3]);
    let b = Set64::<u32>::from_iter(&[3, 4, 5]);
    let set = a.bitor(&b);
    assert_eq!(members(&set), vec![1, 2, 3, 4, 5]);
    assert_eq!(set.len(), 5);
}

#[test]
fn extend_adds_a_bunch_of_elements() {
    let mut a = Set64::<u32>::from_iter(&[1, 2, 3]);
    a.extend(&[3, 4, 5]);
    assert_eq!(members(&a), vec![1, 2, 3, 4, 5]);
    a.extend(&[]);
    assert_eq!(a.len(), 5);
    a.extend(&[100_000]);
    assert_eq!(members(&a), vec![1, 2, 3, 4, 5, 100_000]);
}

#[test]
fn equal_sets_hold_the_same_elements() {
    let a = Set64::<i32>::from_iter(&[-1, 5, 70_000]);
    let mut b = Set64::<i32>::with_capacity(100);
    for v in [70_000, -1, 5] {
        b.insert(v);
    }
    assert!(a == b);
    b.insert(6);
    assert!(a != b);
    b.remove(&5);
    assert!(a != b);
    b.remove(&6);
    b.insert(5);
    assert!(a == b);
    assert!(Set64::<i32>::new() == Set64::<i32>::with_capacity(50));
}

#[test]
fn the_hash_does_not_depend_on_the_order() {
    let a = Set64::<u64>::from_iter(&[9, 1, 5, 1 << 33]);
    let b = Set64::<u64>::from_iter(&[1 << 33, 5, 9, 1]);
    let mut c = Set64::<u64>::with_capacity(200);
    for v in [5u64, 1 << 33, 1, 9] {
        c.insert(v);
    }
    assert_eq!(digest(&a), digest(&b));
    assert_eq!(digest(&a), digest(&c));
    let d = Set64::<u64>::from_iter(&[9, 1, 5]);
    assert_ne!(digest(&a), digest(&d));
    assert_ne!(digest(&d), digest(&Set64::<u64>::new()));
    let mut h = DefaultHasher::new();
    for w in [1u64, 5, 9] {
        w.hash(&mut h);
    }
    assert_eq!(digest(&d), h.finish());
}

#[test]
fn sorted_words_ascend() {
    let set = Set64::<u64>::from_iter(&[9, 1, 5, 1 << 33, 0]);
    assert_eq!(set.sorted_words(), vec![0, 1, 5, 9, 1 << 33]);
    let signed = Set64::<i16>::from_iter(&[-1, 1, 0, -300]);
    assert_eq!(signed.sorted_words(), vec![0, 2, 3, 601]);
    assert_eq!(Set64::<u8>::new().sorted_words(), Vec::<u64>::new());
}

#[test]
fn iteration_gives_every_element_once() {
    let mut set = Set64::<i64>::new();
    let mut refset = HashSet::new();
    for i in 0..500i64 {
        let v = (i * 7919) % 1000 - 500;
        set.insert(v * 1_000_003);
        refset.insert(v * 1_000_003);
    }
    let mut it = set.iter();
    assert_eq!(it.size_hint(), (refset.len(), Some(refset.len())));
    let mut seen = HashSet::new();
    while let Some(x) = it.next() {
        assert!(refset.contains(&x));
        assert!(seen.insert(x));
    }
    assert_eq!(seen, refset);
    assert_eq!(it.next(), None);
    assert_eq!(it.size_hint(), (0, Some(0)));
}

#[test]
fn constructors_and_reserve() {
    let mut set = Set64::<u16>::with_max_and_capacity(1000, 3);
    assert_eq!(set.len(), 0);
    set.reserve(40);
    set.reserve_with_max(60_000, 2);
    assert!(set.insert(60_000));
    assert!(set.insert(2));
    assert!(!set.insert(2));
    assert!(set.remove(&2));
    assert!(!set.remove(&2));
    assert_eq!(members(&set), vec![60_000]);
    let d = Set64::<u16>::default();
    assert_eq!(d.len(), 0);
    println!("{:?}", d);
}

#[test]
fn handle_sizes() {
    assert!(std::mem::size_of::<Set64<u64>>() <= 24);
    assert!(std::mem::size_of::<Set64<char>>() <= 24);
    assert!(std::mem::size_of::<Set64<i8>>() <= 24);
}
