use std::collections::HashSet;
use tinyset::usizeset::USizeSet;

#[test]
fn usizeset_it_works() {
    let mut ss = USizeSet::new();
    println!("inserting 5");
    ss.insert(5);
    println!("contains 5");
    assert!(ss.contains(&5));
    println!("contains 4");
    assert!(!ss.contains(&4));
    println!("inserting 3");
    ss.insert(3);
    println!("now {:?}", &ss);
    assert!(ss.contains(&3));
    assert!(ss.contains(&5));
    assert_eq!(ss.len(), 2);
    let mut it = ss.iter();
    while let Some(num) = it.next() {
        println!("num is {}", num);
        assert!(ss.contains(&(num as usize)));
    }
    assert!(!ss.remove(&2));
    assert!(ss.remove(&3));
    assert!(!ss.contains(&3));
    assert_eq!(ss.len(), 1);
}

#[test]
fn usizeset_size_unwasted() {
    println!("small size: {}", std::mem::size_of::<USizeSet>());
    println!(" hash size: {}", std::mem::size_of::<HashSet<usize>>());
    assert!(std::mem::size_of::<USizeSet>() <= 2 * std::mem::size_of::<HashSet<usize>>());
    assert!(std::mem::size_of::<USizeSet>() <= 24);
}

/// The xorshift generator of four 32-bit words, seeded as the tests
/// always have seeded it.
struct XorShift {
    x: u32,
    y: u32,
    z: u32,
    w: u32,
}

impl XorShift {
    fn from_seed(seed: [u32; 4]) -> XorShift {
        assert!(seed.iter().any(|&s| s != 0));
        XorShift { x: seed[0], y: seed[1], z: seed[2], w: seed[3] }
    }

    fn next_u32(&mut self) -> u32 {
        let x = self.x;
        let t = x ^ (x << 11);
        self.x = self.y;
        self.y = self.z;
        self.z = self.w;
        let w = self.w;
        self.w = w ^ (w >> 19) ^ (t ^ (t >> 8));
        self.w
    }
}

fn initialize_set(num: usize, modulus: u32) -> USizeSet {
    let mut rng = XorShift::from_seed([num as u32, num as u32, 3, 4]);
    let mut set = USizeSet::new();
    let mut refset = HashSet::<usize>::new();
    if num > 0 {
        while set.len() < num {
            let ins = (rng.next_u32() % modulus) as usize % (2 * num);
            let rem = (rng.next_u32() % modulus) as usize % (2 * num);
            set.insert(ins);
            if !set.contains(&ins) {
                println!("oops insert");
            }
            set.remove(&rem);
            if set.contains(&rem) {
                println!("oops remove");
            }
            refset.insert(ins);
            refset.remove(&rem);
            println!("inserting {}, removing {} => {}", ins, rem, set.len());
            println!("set: {:?}", set);
            println!("refset: {:?}", refset);
            let mut fails = false;
            for i in 0..255 {
                fails = fails || set.contains(&i) != refset.contains(&i);
            }
            if fails {
                for i in 0..255 {
                    println!("i {}", i);
                    assert_eq!(set.contains(&i), refset.contains(&i));
                }
            }
        }
    }
    set
}

fn initialize_reference(num: usize, modulus: u32) -> HashSet<usize> {
    let mut rng = XorShift::from_seed([num as u32, num as u32, 3, 4]);
    let mut set = HashSet::<usize>::new();
    if num > 0 {
        while set.len() < num {
            let ins = (rng.next_u32() % modulus) as usize % (2 * num);
            let rem = (rng.next_u32() % modulus) as usize % (2 * num);
            set.insert(ins);
            set.remove(&rem);
        }
    }
    set
}

#[test]
fn random_inserts_and_removals_u8() {
    for sz in 0..50 {
        println!("\nUSizeSet {}\n", sz);
        let myset = initialize_set(sz, 1 << 8);
        println!("\nHashSet {}\n", sz);
        let refset = initialize_reference(sz, 1 << 8);
        for i in 0..255 {
            assert_eq!(myset.contains(&i), refset.contains(&i));
        }
    }
}

#[test]
fn random_inserts_and_removals_u16() {
    for sz in 0..20 {
        println!("\nUSizeSet {}\n", sz);
        let myset = initialize_set(sz, 1 << 16);
        println!("\nHashSet {}\n", sz);
        let refset = initialize_reference(sz, 1 << 16);
        for i in 0..50 {
            assert_eq!(myset.contains(&i), refset.contains(&i));
        }
    }
}

#[test]
fn test_matches_u8() {
    let mut steps: Vec<Result<u8, u8>> = vec![Err(8), Ok(0), Ok(16), Ok(1), Ok(8)];
    let mut set = USizeSet::new();
    let mut refset = HashSet::<u8>::new();
    loop {
        match steps.pop() {
            Some(Ok(v)) => {
                println!("\ninserting {}", v);
                set.insert(v as usize);
                refset.insert(v);
            }
            Some(Err(v)) => {
                println!("\nremoving {}", v);
                set.remove(&(v as usize));
                refset.remove(&v);
            }
            None => return,
        }
        println!("set: {:?}", set);
        println!("refset: {:?}", refset);
        assert_eq!(set.len(), refset.len());
        for i in 0..255u8 {
            if set.contains(&(i as usize)) != refset.contains(&i) {
                println!("trouble at {}", i);
                assert_eq!(set.contains(&(i as usize)), refset.contains(&i));
            }
        }
    }
}

#[test]
fn max_and_cap_follow_the_form() {
    let mut set = USizeSet::new();
    assert_eq!(set.max_and_cap(), (0xfe, 22));
    for v in 0..23 {
        set.insert(v);
    }
    assert_eq!(set.max_and_cap(), (0xfe, 29));
    set.insert(70_000);
    assert_eq!(set.max_and_cap(), (0xffff_fffe, 29));
    assert_eq!(set.len(), 24);
    assert!(set.contains(&70_000));
    let made = USizeSet::with_max_and_capacity(300, 4);
    assert_eq!(made.max_and_cap(), (0xfffe, 11));
    let copy = set.clone();
    assert!(copy.contains(&22));
    assert_eq!(copy.len(), 24);
    let mut room = USizeSet::with_capacity(100);
    room.reserve(5);
    room.reserve_with_max(1000, 300);
    assert!(room.insert_unchecked(999));
    assert!(!room.insert_unchecked(999));
    assert!(room.remove(&999));
    assert_eq!(room.len(), 0);
    assert_eq!(USizeSet::default().len(), 0);
}
