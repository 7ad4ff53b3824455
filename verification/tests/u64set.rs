use std::collections::HashSet;
use tinyset::set64::Set64;
use tinyset::u64set::U64Set;

#[test]
fn u64set_it_works() {
    let mut ss = Set64::<u64>::new();
    println!("inserting 5");
    ss.insert(5);
    println!("contains 5");
    assert!(ss.contains(&5));
    println!("contains 4");
    assert!(!ss.contains(&4));
    println!("inserting 3");
    ss.insert(3);
    println!("now {:?}", &ss);
    assert!(ss.contains(&3));
    assert!(ss.contains(&5));
    assert_eq!(ss.len(), 2);
    let mut it = ss.iter();
    while let Some(num) = it.next() {
        println!("num is {}", num);
        assert!(ss.contains(&num));
    }
    assert!(!ss.remove(&2));
    assert!(ss.remove(&3));
    assert!(!ss.contains(&3));
    assert_eq!(ss.len(), 1);
}

#[test]
fn u64set_size_unwasted() {
    println!("small size: {}", std::mem::size_of::<U64Set>());
    println!(" hash size: {}", std::mem::size_of::<HashSet<u64>>());
    assert!(std::mem::size_of::<U64Set>() <= 2 * std::mem::size_of::<HashSet<u64>>());
    assert!(std::mem::size_of::<U64Set>() <= 24);
}

#[test]
fn test_matches() {
    let mut steps: Vec<Result<u64, u64>> = vec![Err(8), Ok(0), Ok(16), Ok(1), Ok(8)];
    let mut set = U64Set::with_capacity(1);
    let mut refset = HashSet::<u64>::new();
    loop {
        match steps.pop() {
            Some(Ok(v)) => {
                println!("\ninserting {}", v);
                set.insert(v);
                refset.insert(v);
            }
            Some(Err(v)) => {
                println!("\nremoving {}", v);
                set.remove(&v);
                refset.remove(&v);
            }
            None => return,
        }
        println!("set: {:?}", set);
        println!("refset: {:?}", refset);
        assert_eq!(set.len(), refset.len());
        for i in 0..255 {
            if set.contains(&i).is_some() != refset.contains(&i) {
                println!("trouble at {}", i);
                assert_eq!(set.contains(&i).is_some(), refset.contains(&i));
            }
        }
    }
}

#[test]
fn specific_bigint() {
    let mut steps: Vec<Result<(u64, u8), (u64, u8)>> = vec![
        Ok((84, 30)),
        Ok((0, 0)),
        Ok((0, 0)),
        Ok((1, 0)),
        Ok((1, 1)),
        Ok((1, 2)),
        Ok((2, 15)),
    ];
    let mut set = U64Set::with_capacity(1);
    let mut refset = HashSet::<u64>::new();
    loop {
        match steps.pop() {
            Some(Ok((v, shift))) => {
                let v = v << (shift & 31);
                println!(" adding {}", v);
                println!("compare {}", u32::MAX);
                set.insert(v);
                refset.insert(v);
            }
            Some(Err((v, shift))) => {
                let v = v << (shift & 31);
                println!("removing {}", v);
                set.remove(&v);
                refset.remove(&v);
            }
            None => return,
        }
        println!("refset: {:?}", &refset);
        println!("set: {:?}", &set);
        let mut it = set.iter();
        while let Some(x) = it.next() {
            println!(" {}", x);
        }
        assert_eq!(set.len(), refset.len());
        for i in 0..2550 {
            if set.contains(&i).is_some() != refset.contains(&i) {
                println!("refset: {:?}", &refset);
                println!("set: {:?}", &set);
                assert_eq!(set.contains(&i).is_some(), refset.contains(&i));
            }
        }
    }
}
