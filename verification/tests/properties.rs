use std::collections::{HashMap, HashSet};
use tinyset::set64::Set64;
use tinyset::u64map::U64Map;
use tinyset::u64set::U64Set;

/// A stream of words that is the same in every run.
struct Words(u64);

impl Words {
    fn next(&mut self) -> u64 {
        self.0 = self.0.wrapping_mul(6364136223846793005).wrapping_add(1442695040888963407);
        let x = self.0;
        (x ^ (x >> 33)).wrapping_mul(0xff51afd7ed558ccd)
    }

    /// Steps of which about two in three put a word in and the others
    /// take one out; the words lie below `bound`.
    fn steps(&mut self, n: usize, bound: u64) -> Vec<Result<u64, u64>> {
        (0..n)
            .map(|_| {
                let v = self.next() % bound;
                if self.next() % 3 == 0 {
                    Err(v)
                } else {
                    Ok(v)
                }
            })
            .collect()
    }
}

fn run_against_reference(mut steps: Vec<Result<u64, u64>>, probe: u64) {
    let mut set = U64Set::with_capacity(1);
    let mut refset = HashSet::<u64>::new();
    while let Some(step) = steps.pop() {
        match step {
            Ok(v) => {
                assert_eq!(set.insert(v), refset.insert(v));
                assert!(set.contains(&v).is_some());
            }
            Err(v) => {
                assert_eq!(set.remove(&v), refset.remove(&v));
                assert!(set.contains(&v).is_none());
            }
        }
        assert_eq!(set.len(), refset.len());
        for i in 0..probe {
            assert_eq!(set.contains(&i).is_some(), refset.contains(&i));
        }
        let inv = u64::MAX;
        for i in [inv - 3, inv - 2, inv - 1, inv] {
            assert_eq!(set.contains(&i).is_some(), refset.contains(&i));
        }
    }
}

#[test]
fn matches_a_reference_set_on_small_words() {
    let mut words = Words(1);
    for round in 0..20 {
        run_against_reference(words.steps(60 + round, 40), 60);
    }
}

#[test]
fn matches_a_reference_set_on_all_words() {
    let mut words = Words(2);
    for _ in 0..20 {
        run_against_reference(words.steps(80, u64::MAX), 20);
    }
}

#[test]
fn matches_a_reference_set_with_the_largest_word() {
    let mut words = Words(3);
    for round in 0..20 {
        let mut steps = words.steps(50, 300);
        steps.push(Ok(u64::MAX));
        steps.insert(round, Ok(u64::MAX - 1));
        steps.insert(0, Err(u64::MAX));
        steps.insert(0, Ok(u64::MAX - 2));
        run_against_reference(steps, 300);
    }
}

#[test]
fn matches_a_reference_set_on_shifted_words() {
    let mut words = Words(4);
    for _ in 0..20 {
        let steps = words
            .steps(60, u64::MAX)
            .into_iter()
            .map(|s| match s {
                Ok(v) => Ok((v % 1000) << (v >> 59)),
                Err(v) => Err((v % 1000) << (v >> 59)),
            })
            .collect();
        run_against_reference(steps, 2550);
    }
}

#[test]
fn a_typed_set_matches_a_reference_set_and_drains() {
    let mut words = Words(5);
    for _ in 0..20 {
        let mut steps = words.steps(70, 1 << 32);
        let mut set = Set64::<u32>::new();
        let mut refset = HashSet::<u32>::new();
        while let Some(step) = steps.pop() {
            match step {
                Ok(v) => {
                    assert_eq!(set.insert(v as u32), refset.insert(v as u32));
                }
                Err(v) => {
                    assert_eq!(set.remove(&(v as u32)), refset.remove(&(v as u32)));
                }
            }
            assert_eq!(set.len(), refset.len());
            let mut it = set.iter();
            let mut n = 0;
            while let Some(x) = it.next() {
                assert!(refset.contains(&x));
                n += 1;
            }
            assert_eq!(n, refset.len());
            for x in refset.iter() {
                assert!(set.contains(x));
            }
        }
        let mut d = set.drain();
        let mut n = 0;
        while let Some(x) = d.next() {
            assert!(refset.contains(&x));
            n += 1;
        }
        assert_eq!(n, refset.len());
        assert_eq!(set.len(), 0);
    }
}

#[test]
fn a_map_matches_a_reference_map() {
    let mut words = Words(6);
    for round in 0..20u64 {
        let mut map = U64Map::with_capacity(0);
        let mut refmap = HashMap::<u64, u64>::new();
        for _ in 0..80 {
            let k = words.next() >> (words.next() % 64);
            let v = words.next() >> (words.next() % 64);
            if words.next() % 3 == 0 {
                assert_eq!(map.remove(k % (50 + round)), refmap.remove(&(k % (50 + round))));
            } else {
                assert_eq!(map.insert(k, v), refmap.insert(k, v));
            }
            assert_eq!(map.len(), refmap.len());
            for i in 0..100 {
                assert_eq!(map.get(i), refmap.get(&i).cloned());
            }
            for (k, v) in refmap.iter() {
                assert_eq!(map.get(*k), Some(*v));
            }
        }
        let mut it = map.iter();
        let mut n = 0;
        while let Some((k, v)) = it.next() {
            assert_eq!(refmap.get(&k), Some(&v));
            n += 1;
        }
        assert_eq!(n, refmap.len());
    }
}
