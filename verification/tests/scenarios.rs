use std::collections::HashSet;
use tinyset::fits::Fits64;
use tinyset::set64::Set64;
use tinyset::u64set::U64Set;

fn elements(set: &U64Set) -> Vec<u64> {
    let mut out = Vec::new();
    let mut it = set.iter();
    while let Some(x) = it.next() {
        out.push(x);
    }
    out.sort();
    out
}

#[test]
fn small_scan() {
    let mut set = U64Set::with_capacity(0);
    assert_eq!(set.len(), 0);
    assert!(set.insert(5));
    assert!(set.contains(&5).is_some());
    assert!(set.contains(&4).is_none());
    assert!(set.insert(3));
    assert_eq!(set.len(), 2);
    assert!(set.contains(&3).is_some());
    assert!(set.contains(&5).is_some());
    assert_eq!(elements(&set), vec![3, 5]);
    assert!(!set.remove(&2));
    assert!(set.remove(&3));
    assert!(set.contains(&3).is_none());
    assert_eq!(set.len(), 1);
}

#[test]
fn insert_says_whether_the_value_is_new() {
    let mut set = U64Set::with_capacity(0);
    assert!(set.insert(7));
    assert!(!set.insert(7));
    assert_eq!(set.len(), 1);
    assert!(set.remove(&7));
    assert!(!set.remove(&7));
    assert_eq!(set.len(), 0);
    assert!(set.insert(7));
}

#[test]
fn sequence_with_reinsert() {
    let mut steps: Vec<Result<u64, u64>> = vec![Err(8), Ok(0), Ok(16), Ok(1), Ok(8)];
    let mut set = U64Set::with_capacity(0);
    let mut refset = HashSet::<u64>::new();
    while let Some(step) = steps.pop() {
        match step {
            Ok(v) => {
                assert_eq!(set.insert(v), refset.insert(v));
            }
            Err(v) => {
                assert_eq!(set.remove(&v), refset.remove(&v));
            }
        }
        assert_eq!(set.len(), refset.len());
        for i in 0..=255u64 {
            assert_eq!(set.contains(&i).is_some(), refset.contains(&i));
        }
    }
    assert_eq!(elements(&set), vec![0, 1, 16]);
}

#[test]
fn forced_width_escalation() {
    let mut set = U64Set::with_capacity(0);
    assert_eq!(set.current_max(), 0xfe);
    for v in [0u64, 1, 2] {
        set.insert(v);
        assert_eq!(set.current_max(), 0xfe);
    }
    set.insert(1 << 15);
    assert_eq!(set.len(), 4);
    assert!(set.contains(&(1 << 15)).is_some());
    assert!(set.current_max() >= 0xfffe);
    assert_eq!(set.current_max(), 0xfffe);
    assert_eq!(elements(&set), vec![0, 1, 2, 1 << 15]);
}

#[test]
fn widths_follow_the_largest_element() {
    let mut set = U64Set::with_capacity(0);
    set.insert(0xfe);
    assert_eq!(set.current_max(), 0xfe);
    set.insert(0xff);
    assert_eq!(set.current_max(), 0xfffe);
    set.insert(0xffff);
    assert_eq!(set.current_max(), 0xffff_fffe);
    set.insert(0xffff_ffff);
    assert_eq!(set.current_max(), 0xffff_ffff_ffff_fffe);
    set.insert(0xffff_ffff_ffff_fffe);
    assert_eq!(set.current_max(), 0xffff_ffff_ffff_fffe);
    set.insert(0xffff_ffff_ffff_ffff);
    assert_eq!(set.current_max(), 0xffff_ffff_ffff_ffff);
    assert_eq!(set.len(), 6);
    assert_eq!(
        elements(&set),
        vec![0xfe, 0xff, 0xffff, 0xffff_ffff, 0xffff_ffff_ffff_fffe, 0xffff_ffff_ffff_ffff]
    );
}

#[test]
fn sentinel_collision_64() {
    let top = u64::MAX;
    let mut set = U64Set::with_capacity(0);
    assert_eq!(set.invalid(), 0xff);
    assert!(set.insert(top));
    assert!(set.contains(&top).is_some());
    assert_eq!(set.current_max(), top);
    let first = set.invalid();
    assert_ne!(first, top);
    assert_eq!(first, top - 1);
    let mut sentinels = HashSet::new();
    sentinels.insert(first);
    for i in 1..=10u64 {
        assert!(set.insert(top - i));
        sentinels.insert(set.invalid());
        assert!(set.contains(&set.invalid()).is_none());
        for j in 0..=i {
            assert!(set.contains(&(top - j)).is_some());
        }
    }
    assert_eq!(set.len(), 11);
    assert!(sentinels.len() > 1);
    assert_eq!(set.invalid(), top - 11);
    let want: Vec<u64> = (0..=10u64).rev().map(|i| top - i).collect();
    assert_eq!(elements(&set), want);
}

#[test]
fn a_new_table_of_movable_sentinel_starts_with_the_largest_word() {
    let set = U64Set::with_max_and_capacity(u64::MAX, 0);
    assert_eq!(set.invalid(), u64::MAX);
    assert_eq!(set.current_max(), u64::MAX);
    assert_eq!(set.rawcapacity(), 1);
    assert!(set.contains(&u64::MAX).is_none());
}

#[test]
fn insert_drain_parity_32() {
    let values: Vec<u32> = vec![7, 0, 70000, 7, 3_000_000_000, 12, 255, 256, 65535, 65536, 0];
    let mut set = Set64::<u32>::new();
    let mut refset = HashSet::<u32>::new();
    for &v in &values {
        assert_eq!(set.insert(v), refset.insert(v));
    }
    assert!(set.remove(&12));
    refset.remove(&12);
    assert_eq!(set.len(), refset.len());
    let mut drained = Vec::new();
    let mut d = set.drain();
    assert_eq!(d.size_hint(), (refset.len(), Some(refset.len())));
    while let Some(x) = d.next() {
        assert!(refset.contains(&x));
        drained.push(x);
    }
    assert_eq!(drained.len(), refset.len());
    let unique: HashSet<u32> = drained.iter().cloned().collect();
    assert_eq!(unique, refset);
    assert_eq!(set.len(), 0);
    assert!(!set.contains(&7));
    assert!(set.insert(7));
    assert!(set.contains(&7));
    assert_eq!(set.len(), 1);
}

#[test]
fn signed_encoding_fairness_i8() {
    for b in 0..=255u8 {
        let v = b as i8;
        let w = v.to_u64();
        assert!(w < 512);
        assert!((v as i64).abs() < 256);
        assert_eq!(w, 2 * (v as i64).unsigned_abs() + if v < 0 { 1 } else { 0 });
        assert_eq!(i8::from_u64(w), v);
    }
    let mut words = U64Set::with_capacity(0);
    for v in -100..=100i8 {
        words.insert(v.to_u64());
        assert_eq!(words.current_max(), 0xfe);
    }
    words.insert((-128i8).to_u64());
    assert_eq!(words.current_max(), 0xfffe);
    let mut set = Set64::<i8>::new();
    for v in [-3i8, 3, -128, 127, 0] {
        assert!(set.insert(v));
    }
    for v in [-3i8, 3, -128, 127, 0] {
        assert!(set.contains(&v));
    }
    assert!(!set.contains(&-127));
    assert_eq!(set.len(), 5);
}

#[test]
fn grows_and_shrinks_like_a_reference_set() {
    let mut set = U64Set::with_capacity(0);
    let mut refset = HashSet::<u64>::new();
    let mut x: u64 = 12345;
    for round in 0..4000 {
        x = x.wrapping_mul(6364136223846793005).wrapping_add(1442695040888963407);
        let v = (x >> 40) % 700;
        if round % 3 == 2 {
            assert_eq!(set.remove(&v), refset.remove(&v));
        } else {
            assert_eq!(set.insert(v), refset.insert(v));
        }
        assert_eq!(set.len(), refset.len());
    }
    for v in 0..800u64 {
        assert_eq!(set.contains(&v).is_some(), refset.contains(&v));
    }
    let mut want: Vec<u64> = refset.iter().cloned().collect();
    want.sort();
    assert_eq!(elements(&set), want);
}

#[test]
fn contains_gives_the_cell_of_the_element() {
    let mut set = U64Set::with_capacity(40);
    for v in 0..30u64 {
        set.insert(v * 3);
    }
    for v in 0..30u64 {
        let cell = set.contains(&(v * 3)).unwrap();
        assert_eq!(set.index(cell), Some(v * 3));
    }
    let mut seen = 0;
    for i in 0..set.rawcapacity() {
        if let Some(x) = set.index(i) {
            assert_eq!(set.contains(&x), Some(i));
            seen += 1;
        }
    }
    assert_eq!(seen, 30);
}

#[test]
fn insert_unchecked_gives_the_cell() {
    let mut set = U64Set::with_max_and_capacity(1000, 40);
    assert_eq!(set.insert_unchecked(9), Ok(set.contains(&9).unwrap()));
    let cell = set.contains(&9).unwrap();
    assert_eq!(set.insert_unchecked(9), Err(cell));
    let mut small = U64Set::with_capacity(0);
    assert_eq!(small.insert_unchecked(4), Ok(0));
    assert_eq!(small.insert_unchecked(6), Ok(1));
    assert_eq!(small.insert_unchecked(4), Err(0));
    assert_eq!(small.index(1), Some(6));
    assert_eq!(small.index(2), None);
    assert!(small.remove(&4));
    assert_eq!(small.index(0), Some(6));
    assert_eq!(small.index(1), None);
}

#[test]
fn clone_keeps_the_elements() {
    let mut set = U64Set::with_capacity(0);
    for v in 0..100u64 {
        set.insert(v * v);
    }
    let copy = set.clone();
    set.remove(&81);
    assert!(copy.contains(&81).is_some());
    assert_eq!(copy.len(), 100);
    assert_eq!(set.len(), 99);
    assert_eq!(copy.rawcapacity(), set.rawcapacity());
}

#[test]
fn from_iter_takes_every_item_once() {
    let set = U64Set::from_iter(&[4, 9, 4, 1 << 40, 9]);
    assert_eq!(elements(&set), vec![4, 9, 1 << 40]);
    let none = U64Set::from_iter(&[]);
    assert_eq!(none.len(), 0);
}

#[test]
fn companion_values_move_with_their_keys() {
    let mut keys = U64Set::with_capacity(100);
    let mut vals = vec![0u32; keys.rawcapacity()];
    for k in 0..90u64 {
        assert_eq!(keys.co_insert_unchecked(&mut vals, k * 7 % 250, (k * 11) as u32), None);
    }
    assert_eq!(keys.len(), 90);
    for k in 0..90u64 {
        let cell = keys.contains(&(k * 7 % 250)).unwrap();
        assert_eq!(vals[cell], (k * 11) as u32);
    }
    assert_eq!(keys.co_insert_unchecked(&mut vals, 7, 1000), Some(11));
    assert_eq!(keys.co_remove(&mut vals, 7), Some(1000));
    assert_eq!(keys.co_remove(&mut vals, 7), None);
    assert_eq!(keys.len(), 89);
    for k in 2..90u64 {
        let cell = keys.contains(&(k * 7 % 250)).unwrap();
        assert_eq!(vals[cell], (k * 11) as u32);
    }
    let mut small = U64Set::with_capacity(0);
    let mut few = vec!['-'; small.rawcapacity()];
    assert_eq!(small.co_insert_unchecked(&mut few, 3, 'a'), None);
    assert_eq!(small.co_insert_unchecked(&mut few, 5, 'b'), None);
    assert_eq!(small.co_insert_unchecked(&mut few, 3, 'c'), Some('a'));
    assert_eq!(small.co_remove(&mut few, 3), Some('c'));
    assert_eq!(few[small.contains(&5).unwrap()], 'b');
}

#[test]
fn a_larger_table_keeps_the_sentinel() {
    let top = u64::MAX;
    let mut set = U64Set::with_capacity(0);
    for i in 0..5u64 {
        set.insert(top - i);
    }
    assert_eq!(set.invalid(), top - 5);
    assert!(set.remove(&(top - 2)));
    assert!(set.remove(&top));
    assert_eq!(set.invalid(), top - 5);
    let slots = set.rawcapacity();
    for v in 0..100u64 {
        set.insert(v);
        assert_eq!(set.invalid(), top - 5);
    }
    assert!(set.rawcapacity() > slots);
    set.reserve(1000);
    assert_eq!(set.invalid(), top - 5);
    assert!(set.insert(top - 5));
    assert_eq!(set.invalid(), top - 6);
    assert!(set.insert(top - 2));
    assert_eq!(set.invalid(), top - 6);
    assert_eq!(set.len(), 105);
    let d = set.drain();
    assert_eq!(d.size_hint(), (105, Some(105)));
    assert_eq!(set.invalid(), top);
}

#[test]
fn a_fixed_table_of_64_bits_takes_the_largest_word() {
    let mut set = U64Set::with_max_and_capacity(1 << 40, 10);
    assert_eq!(set.current_max(), u64::MAX - 1);
    assert_eq!(set.rawcapacity(), 16);
    for v in 0..10u64 {
        set.insert(v << 36);
    }
    set.insert(u64::MAX - 1);
    assert_eq!(set.current_max(), u64::MAX - 1);
    assert_eq!(set.invalid(), u64::MAX);
    assert!(set.contains(&u64::MAX).is_none());
    assert!(!set.remove(&u64::MAX));
    set.insert(u64::MAX);
    assert_eq!(set.current_max(), u64::MAX);
    assert_eq!(set.invalid(), u64::MAX - 2);
    assert_eq!(set.len(), 12);
    for v in 0..10u64 {
        assert!(set.contains(&(v << 36)).is_some());
    }
    assert!(set.contains(&u64::MAX).is_some());
    assert!(set.contains(&(u64::MAX - 1)).is_some());
    assert!(set.remove(&u64::MAX));
    assert!(set.contains(&u64::MAX).is_none());
    assert_eq!(set.len(), 11);
}

#[test]
fn removal_from_an_inline_set_moves_the_last_element_in() {
    let mut set = U64Set::with_capacity(0);
    for v in [10u64, 20, 30, 40] {
        set.insert(v);
    }
    assert!(set.remove(&20));
    assert_eq!(set.index(0), Some(10));
    assert_eq!(set.index(1), Some(40));
    assert_eq!(set.index(2), Some(30));
    assert_eq!(set.index(3), None);
    assert!(set.remove(&30));
    assert_eq!(set.index(1), Some(40));
    assert_eq!(set.index(2), None);
    assert!(set.insert(50));
    assert_eq!(set.index(2), Some(50));
}

#[test]
fn a_wider_inline_form_keeps_the_order_of_the_cells() {
    let mut set = U64Set::with_capacity(0);
    for v in [3u64, 1, 2] {
        set.insert(v);
    }
    set.insert(1000);
    assert_eq!(set.rawcapacity(), 11);
    assert_eq!(
        [set.index(0), set.index(1), set.index(2), set.index(3), set.index(4)],
        [Some(3), Some(1), Some(2), Some(1000), None]
    );
    let mut heap = U64Set::with_capacity(30);
    for v in [9u64, 4, 200] {
        heap.insert(v);
    }
    let mut in_slot_order = Vec::new();
    for i in 0..heap.rawcapacity() {
        if let Some(x) = heap.index(i) {
            in_slot_order.push(x);
        }
    }
    heap.insert(70_000);
    assert_eq!(heap.rawcapacity(), 5);
    in_slot_order.push(70_000);
    let got: Vec<u64> = (0..4).map(|i| heap.index(i).unwrap()).collect();
    assert_eq!(got, in_slot_order);
    assert_eq!(heap.index(4), None);
}
