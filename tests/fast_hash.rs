use pathing::{BuildHash128to64, Hash128to64};
use std::hash::{BuildHasher, Hasher};

#[test]
fn testbsbss() {
    let mut hm = std::collections::HashMap::<u64, u64, BuildHash128to64>::with_hasher(BuildHash128to64);
    let i: i8 = (0 as i8).wrapping_add(0b_0000_1111);
    println!("{i:b}");
    hm.insert(1, 2);
}

#[test]
fn hasher_state_is_the_written_word() {
    let mut h: Hash128to64 = BuildHash128to64.build_hasher();
    assert_eq!(h.finish(), 0);
    h.write(&0x0102_0304_0506_0708u64.to_le_bytes());
    assert_eq!(h.finish(), 0x0102_0304_0506_0708);
    h.write_u64(42);
    assert_eq!(h.finish(), 42);
}

#[test]
fn map_with_word_hasher_finds_keys() {
    let mut hm = std::collections::HashMap::<u64, u64, BuildHash128to64>::with_hasher(BuildHash128to64);
    for k in 0..100u64 {
        hm.insert(k * 7, k);
    }
    for k in 0..100u64 {
        assert_eq!(hm.get(&(k * 7)), Some(&k));
    }
    assert_eq!(hm.get(&1), None);
}
