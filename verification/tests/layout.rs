use tinyset::slot::HasInvalid;
use tinyset::u64set::U64Set;

/// A table of 8-bit slots kept by the rules of the Robin-Hood walk,
/// written out in the plainest way, to hold the set against.
struct Plain {
    slots: Vec<Option<u8>>,
}

impl Plain {
    fn new(n: usize) -> Plain {
        Plain { slots: vec![None; n] }
    }

    fn home(&self, w: u8) -> usize {
        w.hash_usize() % self.slots.len()
    }

    fn dist(&self, w: u8, at: usize) -> usize {
        (at + self.slots.len() - self.home(w)) % self.slots.len()
    }

    fn insert(&mut self, w: u8) {
        let n = self.slots.len();
        let mut carried = w;
        let mut p = self.home(w);
        for _ in 0..n {
            match self.slots[p] {
                None => {
                    self.slots[p] = Some(carried);
                    return;
                }
                Some(there) => {
                    if self.dist(there, p) < self.dist(carried, p) {
                        self.slots[p] = Some(carried);
                        carried = there;
                    }
                }
            }
            p = (p + 1) % n;
        }
    }

    fn remove(&mut self, w: u8) {
        let n = self.slots.len();
        let mut i = self.slots.iter().position(|&s| s == Some(w)).unwrap();
        loop {
            let j = (i + 1) % n;
            match self.slots[j] {
                Some(next) if self.dist(next, j) != 0 => {
                    self.slots[i] = Some(next);
                    i = j;
                }
                _ => {
                    self.slots[i] = None;
                    return;
                }
            }
        }
    }

    fn live(&self) -> Vec<u8> {
        self.slots.iter().filter_map(|&s| s).collect()
    }
}

fn same(set: &U64Set, plain: &Plain) {
    assert_eq!(set.rawcapacity(), plain.slots.len());
    for (i, &s) in plain.slots.iter().enumerate() {
        assert_eq!(set.index(i), s.map(|w| w as u64));
    }
}

#[test]
fn a_table_has_the_cells_of_the_robin_hood_walk() {
    let mut set = U64Set::with_capacity(23);
    let mut plain = Plain::new(32);
    same(&set, &plain);
    let mut x: u64 = 7;
    let mut held: Vec<u8> = Vec::new();
    for round in 0..400 {
        x = x.wrapping_mul(6364136223846793005).wrapping_add(1442695040888963407);
        let w = ((x >> 40) % 200) as u8;
        if round % 3 == 2 && !held.is_empty() {
            let out = held.swap_remove((x >> 20) as usize % held.len());
            assert!(set.remove(&(out as u64)));
            plain.remove(out);
        } else if !held.contains(&w) && held.len() < 29 {
            held.push(w);
            assert!(set.insert(w as u64));
            plain.insert(w);
        }
        same(&set, &plain);
    }
}

#[test]
fn a_larger_table_takes_the_words_in_the_order_of_the_cells() {
    let mut set = U64Set::with_capacity(23);
    let mut plain = Plain::new(32);
    for w in 0..29u8 {
        set.insert(w as u64 * 7 % 250);
        plain.insert((w as u64 * 7 % 250) as u8);
    }
    same(&set, &plain);
    set.insert(251);
    let mut larger = Plain::new(64);
    for w in plain.live() {
        larger.insert(w);
    }
    larger.insert(251);
    same(&set, &larger);
    set.reserve(100);
    let mut largest = Plain::new(256);
    for w in larger.live() {
        largest.insert(w);
    }
    same(&set, &largest);
}
