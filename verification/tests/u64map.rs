use std::collections::HashMap;
use tinyset::u64map::U64Map;

#[test]
fn size_unwasted() {
    println!("box size: {}", std::mem::size_of::<Box<[u64]>>());
    println!("small size: {}", std::mem::size_of::<U64Map>());
    println!(" hash size: {}", std::mem::size_of::<HashMap<u64, u64>>());
    assert!(std::mem::size_of::<U64Map>() <= 2 * std::mem::size_of::<HashMap<u64, u64>>());
    assert!(std::mem::size_of::<U64Map>() <= 48);
}

#[test]
fn simple() {
    let mut m = U64Map::with_capacity(0);
    m.insert(5, 1);
    assert_eq!(m.len(), 1);
    assert_eq!(m.get(0), None);
    assert_eq!(m.get(5), Some(1));
    for i in 6..80 {
        println!("inserting {}", i);
        m.insert(i, i);
        assert_eq!(m.get(5), Some(1));
    }
    for i in 6..80 {
        assert_eq!(m.get(i), Some(i));
    }
    for i in 81..300 {
        assert_eq!(m.get(i), None);
    }
    assert_eq!(m.get(5), Some(1));
    for i in 6..80 {
        println!("removing {}", i);
        assert_eq!(m.get(i), Some(i));
        assert_eq!(m.remove(i), Some(i));
        assert_eq!(m.get(i), None);
    }
    assert_eq!(m.get(0), None);
    assert_eq!(m.get(5), Some(1));
    assert_eq!(m.len(), 1);
}
