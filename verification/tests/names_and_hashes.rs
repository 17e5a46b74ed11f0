use adapton::engine::{name_fork, name_of_str, name_of_usize};
use hash_trie::art::Art;
use hash_trie::bits::{Bits, HashVal};
use hash_trie::key::Key;
use hash_trie::names::{clone_name, fork};
use std::collections::hash_map::DefaultHasher;
use std::hash::{Hash, Hasher};

#[test]
fn forking_no_name_gives_no_names() {
    assert_eq!(fork(None), (None, None));
}

#[test]
fn forking_a_name_gives_two_new_names() {
    let n = name_of_str("parent");
    let (l, r) = fork(Some(n.clone()));
    let (el, er) = name_fork(n.clone());
    assert_eq!(l, Some(el));
    assert_eq!(r, Some(er));
    assert_ne!(l, r);
    assert_ne!(l, Some(n.clone()));
    assert_ne!(r, Some(n));
}

#[test]
fn forking_one_name_twice_gives_the_same_names() {
    assert_eq!(fork(Some(name_of_usize(9))), fork(Some(name_of_usize(9))));
    assert_ne!(fork(Some(name_of_usize(9))), fork(Some(name_of_usize(8))));
}

#[test]
fn a_cloned_name_is_the_name() {
    let n = Some(name_of_str("n"));
    assert_eq!(clone_name(&n), n);
    assert_eq!(clone_name(&None), None);
}

#[test]
fn the_hash_of_a_key_is_that_of_the_default_hasher() {
    for k in [0usize, 1, 2, 77, usize::MAX] {
        let mut h = DefaultHasher::new();
        k.hash(&mut h);
        assert_eq!(k.key_hash(), HashVal(h.finish()));
    }
    for k in [0u64, 1, 2, 77, u64::MAX] {
        let mut h = DefaultHasher::new();
        k.hash(&mut h);
        assert_eq!(k.key_hash(), HashVal(h.finish()));
    }
}

#[test]
fn different_keys_have_different_hashes() {
    assert_ne!(1usize.key_hash(), 2usize.key_hash());
    assert_ne!(1u64.key_hash(), 2u64.key_hash());
    assert_eq!(5usize.key_hash(), 5usize.key_hash());
}

#[test]
fn keys_compare_and_clone_as_values() {
    assert!(4usize.key_eq(&4));
    assert!(!4usize.key_eq(&5));
    assert_eq!(4usize.key_clone(), 4);
    assert!(4u64.key_eq(&4));
    assert!(!4u64.key_eq(&5));
    assert_eq!(4u64.key_clone(), 4);
}

#[test]
fn splitting_a_prefix_sets_the_next_bit_on_the_right() {
    let root = Bits { bits: 0, len: 0 };
    assert_eq!(root.split(), (Bits { bits: 0, len: 1 }, Bits { bits: 1, len: 1 }));
    let p = Bits { bits: 0b01, len: 2 };
    assert_eq!(p.split(), (Bits { bits: 0b001, len: 3 }, Bits { bits: 0b101, len: 3 }));
    let deep = Bits { bits: 5, len: 63 };
    assert_eq!(deep.split(), (Bits { bits: 5, len: 64 }, Bits { bits: 5 | (1 << 63), len: 64 }));
}

#[test]
fn a_hash_has_the_bits_it_holds() {
    let h = HashVal(0b1010);
    assert!(!h.bit(0));
    assert!(h.bit(1));
    assert!(!h.bit(2));
    assert!(h.bit(3));
    assert!(HashVal(1 << 63).bit(63));
    assert!(!HashVal(u64::MAX).bit(64));
}

#[test]
fn a_hash_has_the_prefix_of_its_low_bits() {
    let h = HashVal(0b1010);
    assert!(h.has_prefix(&Bits { bits: 0, len: 0 }));
    assert!(h.has_prefix(&Bits { bits: 0b10, len: 2 }));
    assert!(h.has_prefix(&Bits { bits: 0b010, len: 3 }));
    assert!(!h.has_prefix(&Bits { bits: 0b110, len: 3 }));
    assert!(h.has_prefix(&Bits { bits: 0b1010, len: 64 }));
    assert!(!h.has_prefix(&Bits { bits: 0b1011, len: 64 }));
}

#[test]
fn a_cell_holds_what_was_published() {
    let a = Art::cell(Some(name_of_str("x")), 42u8);
    assert_eq!(a.name, Some(name_of_str("x")));
    assert_eq!(*a.get(), 42);
    assert_eq!(a.force(), 42);
    assert_eq!(Art::cell(None, "v").force(), "v");
}
