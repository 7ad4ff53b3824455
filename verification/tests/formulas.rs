use tinyset::capacity::{capacity_to_rawcapacity, fits, next_power_of_two, within_load, MAX_LEN};
use tinyset::fits::{fold_i64, unfold_u64, Fits64};
use tinyset::slot::HasInvalid;
use tinyset::u64set::U64Set;

#[test]
fn raw_capacity_is_the_next_power_of_two_above_eleven_tenths() {
    assert_eq!(capacity_to_rawcapacity(0), 1);
    assert_eq!(capacity_to_rawcapacity(1), 2);
    assert_eq!(capacity_to_rawcapacity(2), 4);
    assert_eq!(capacity_to_rawcapacity(3), 4);
    assert_eq!(capacity_to_rawcapacity(4), 8);
    assert_eq!(capacity_to_rawcapacity(7), 8);
    assert_eq!(capacity_to_rawcapacity(8), 16);
    assert_eq!(capacity_to_rawcapacity(14), 16);
    assert_eq!(capacity_to_rawcapacity(15), 32);
    assert_eq!(capacity_to_rawcapacity(23), 32);
    assert_eq!(capacity_to_rawcapacity(29), 32);
    assert_eq!(capacity_to_rawcapacity(30), 64);
    assert_eq!(capacity_to_rawcapacity(100), 128);
    assert_eq!(capacity_to_rawcapacity(MAX_LEN), 0x8000_0000);
    assert_eq!(within_load(0x8000_0000), MAX_LEN);
    assert_eq!(capacity_to_rawcapacity(1 << 30), 0x8000_0000);
}

#[test]
fn next_power_of_two_is_the_least_one_not_below() {
    assert_eq!(next_power_of_two(0), 1);
    assert_eq!(next_power_of_two(1), 1);
    assert_eq!(next_power_of_two(2), 2);
    assert_eq!(next_power_of_two(3), 4);
    assert_eq!(next_power_of_two(17), 32);
    assert_eq!(next_power_of_two(1024), 1024);
    assert_eq!(next_power_of_two(1025), 2048);
}

#[test]
fn load_factor_is_ten_elevenths() {
    assert_eq!(within_load(32), 29);
    assert_eq!(within_load(11), 10);
    assert_eq!(within_load(1), 0);
    assert_eq!(within_load(2), 1);
    assert!(fits(29, 32));
    assert!(!fits(30, 32));
    assert!(fits(10, 11));
    assert!(!fits(11, 11));
    assert!(fits(0, 1));
    assert!(!fits(1, 1));
}

#[test]
fn a_set_grows_where_the_load_factor_would_be_passed() {
    let mut set = U64Set::with_capacity(23);
    assert_eq!(set.rawcapacity(), 32);
    assert_eq!(set.capacity(), 29);
    for v in 0..29u64 {
        set.insert(v);
        assert_eq!(set.rawcapacity(), 32);
    }
    set.insert(29);
    assert_eq!(set.rawcapacity(), 64);
    assert_eq!(set.len(), 30);
    for v in 0..30u64 {
        assert!(set.contains(&v).is_some());
    }
}

#[test]
fn an_inline_set_goes_to_the_heap_when_its_array_is_full() {
    let mut set = U64Set::with_capacity(0);
    assert_eq!(set.rawcapacity(), 22);
    assert_eq!(set.capacity(), 22);
    for v in 0..22u64 {
        set.insert(v);
        assert_eq!(set.rawcapacity(), 22);
    }
    set.insert(22);
    assert_eq!(set.rawcapacity(), 32);
    assert_eq!(set.current_max(), 0xfe);
    let mut wide = U64Set::with_max_and_capacity(70_000, 5);
    assert_eq!(wide.rawcapacity(), 5);
    for v in 0..5u64 {
        wide.insert(v);
    }
    assert_eq!(wide.rawcapacity(), 5);
    wide.insert(5);
    assert_eq!(wide.rawcapacity(), 8);
    assert_eq!(wide.current_max(), 0xffff_fffe);
}

#[test]
fn constructors_choose_the_form() {
    assert_eq!(U64Set::with_capacity(22).rawcapacity(), 22);
    assert_eq!(U64Set::with_capacity(23).rawcapacity(), 32);
    assert_eq!(U64Set::with_capacity(23).current_max(), 0xfe);
    assert_eq!(U64Set::with_capacity(254).current_max(), 0xfe);
    assert_eq!(U64Set::with_capacity(255).current_max(), 0xfffe);
    assert_eq!(U64Set::with_capacity(255).rawcapacity(), 512);
    assert_eq!(U64Set::with_capacity(70_000).current_max(), 0xffff_fffe);
    assert_eq!(U64Set::with_max_and_capacity(254, 22).rawcapacity(), 22);
    assert_eq!(U64Set::with_max_and_capacity(255, 11).rawcapacity(), 11);
    assert_eq!(U64Set::with_max_and_capacity(255, 11).current_max(), 0xfffe);
    assert_eq!(U64Set::with_max_and_capacity(255, 12).rawcapacity(), 16);
    assert_eq!(U64Set::with_max_and_capacity(0xffff, 5).rawcapacity(), 5);
    assert_eq!(U64Set::with_max_and_capacity(0xffff, 6).rawcapacity(), 8);
    assert_eq!(U64Set::with_max_and_capacity(0xffff_ffff, 2).rawcapacity(), 2);
    assert_eq!(U64Set::with_max_and_capacity(0xffff_ffff, 3).rawcapacity(), 4);
    assert_eq!(U64Set::with_max_and_capacity(u64::MAX - 1, 2).current_max(), u64::MAX - 1);
    assert_eq!(U64Set::with_max_and_capacity(u64::MAX, 2).current_max(), u64::MAX);
    assert_eq!(U64Set::with_max_and_capacity(u64::MAX, 2).rawcapacity(), 4);
    assert_eq!(U64Set::default().rawcapacity(), 22);
}

#[test]
fn reserve_makes_room_and_keeps_the_elements() {
    let mut set = U64Set::with_capacity(0);
    set.insert(9);
    set.reserve(21);
    assert_eq!(set.rawcapacity(), 22);
    set.reserve(22);
    assert_eq!(set.rawcapacity(), 32);
    assert!(set.contains(&9).is_some());
    set.reserve_with_max(1000, 2);
    assert_eq!(set.current_max(), 0xfffe);
    assert_eq!(set.rawcapacity(), 11);
    assert!(set.contains(&9).is_some());
    assert_eq!(set.len(), 1);
    set.reserve_with_max(5, 100);
    assert_eq!(set.current_max(), 0xfffe);
    assert_eq!(set.rawcapacity(), 128);
    assert!(set.contains(&9).is_some());
}

#[test]
fn signed_integers_are_folded() {
    assert_eq!(0i8.to_u64(), 0);
    assert_eq!(1i8.to_u64(), 2);
    assert_eq!((-1i8).to_u64(), 3);
    assert_eq!(127i8.to_u64(), 254);
    assert_eq!((-128i8).to_u64(), 257);
    assert_eq!((-5i16).to_u64(), 11);
    assert_eq!(i16::MIN.to_u64(), 65537);
    assert_eq!(i32::MIN.to_u64(), (1u64 << 32) + 1);
    assert_eq!(i32::MAX.to_u64(), (1u64 << 32) - 2);
    assert_eq!(i64::MAX.to_u64(), u64::MAX - 1);
    assert_eq!((i64::MIN + 1).to_u64(), u64::MAX);
    assert_eq!((-7isize).to_u64(), 15);
    assert_eq!(fold_i64(-2), 5);
    assert_eq!(unfold_u64(5), -2);
    assert_eq!(unfold_u64(4), 2);
    assert_eq!(unfold_u64(0), 0);
    assert_eq!(i64::from_u64(u64::MAX), i64::MIN + 1);
    assert_eq!(i64::from_u64(u64::MAX - 1), i64::MAX);
    assert!(!i64::MIN.can_encode());
    assert!((i64::MIN + 1).can_encode());
    assert!(i8::MIN.can_encode());
}

#[test]
fn every_value_comes_back_from_its_word() {
    for b in 0..=255u8 {
        assert_eq!(u8::from_u64(b.to_u64()), b);
        assert_eq!(b.to_u64(), b as u64);
        let v = b as i8;
        assert_eq!(i8::from_u64(v.to_u64()), v);
    }
    for h in 0..=65535u16 {
        assert_eq!(u16::from_u64(h.to_u64()), h);
        let v = h as i16;
        assert_eq!(i16::from_u64(v.to_u64()), v);
    }
    for v in [0u32, 1, 255, 65535, 65536, u32::MAX] {
        assert_eq!(u32::from_u64(v.to_u64()), v);
        assert_eq!(v.to_u64(), v as u64);
    }
    for v in [0i32, 1, -1, 255, -65536, i32::MAX, i32::MIN] {
        assert_eq!(i32::from_u64(v.to_u64()), v);
    }
    for v in [0u64, 1, u64::MAX, u64::MAX - 1, 1 << 40] {
        assert_eq!(u64::from_u64(v.to_u64()), v);
        assert_eq!(v.to_u64(), v);
    }
    for v in [0i64, 1, -1, i64::MAX, i64::MIN + 1, -(1 << 40)] {
        assert_eq!(i64::from_u64(v.to_u64()), v);
    }
    for v in [0usize, 1, 4096, usize::MAX] {
        assert_eq!(usize::from_u64(v.to_u64()), v);
    }
    for v in [0isize, 1, -1, isize::MAX, isize::MIN + 1] {
        assert_eq!(isize::from_u64(v.to_u64()), v);
    }
    for c in ['\0', 'a', 'Z', '\u{d7ff}', '\u{e000}', '\u{10ffff}', 'ß', '語'] {
        assert_eq!(c.to_u64(), c as u64);
        assert_eq!(char::from_u64(c.to_u64()), c);
    }
}

#[test]
fn slots_have_their_sentinel_and_their_word() {
    assert_eq!(<u8 as HasInvalid>::invalid(), 0xff);
    assert_eq!(<u16 as HasInvalid>::invalid(), 0xffff);
    assert_eq!(<u32 as HasInvalid>::invalid(), 0xffff_ffff);
    assert_eq!(<u64 as HasInvalid>::invalid(), u64::MAX);
    assert_eq!(<u8 as HasInvalid>::to_word(7), 7);
    assert_eq!(<u16 as HasInvalid>::from_word(700), 700u16);
    assert_eq!(<u32 as HasInvalid>::to_word(70_000), 70_000);
    assert_eq!(<u64 as HasInvalid>::from_word(1 << 50), 1u64 << 50);
    assert_eq!(<u8 as HasInvalid>::hash_usize(3), <u8 as HasInvalid>::hash_usize(3));
    assert_eq!(<u64 as HasInvalid>::hash_usize(1 << 50), <u64 as HasInvalid>::hash_usize(1 << 50));
}
