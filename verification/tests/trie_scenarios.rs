use adapton::engine::{name_of_str, name_of_usize};
use hash_trie::bits::HashVal;
use hash_trie::key::Key;
use hash_trie::trie::Trie;

fn singleton(gauge: usize, k: usize, v: &'static str) -> Trie<usize, &'static str> {
    Trie::join(None, Trie::empty(gauge), Trie::from_vec(&vec![(k, v)]))
}

#[test]
fn from_vec_is_one_leaf_with_its_length_as_gauge() {
    let t = Trie::from_vec(&vec![(1usize, "a"), (2, "b"), (3, "c")]);
    assert_eq!(t.gauge(), 3);
    assert_eq!(t.leaf_len(), Some(3));
    assert!(!t.has_branch());
    assert!(t.is_wf());
}

#[test]
fn three_singletons_joined_under_gauge_two() {
    let ab = Trie::join(Some(name_of_str("ab")), singleton(2, 1, "a"), singleton(2, 2, "b"));
    let t = Trie::join(Some(name_of_str("abc")), ab, singleton(2, 3, "c"));
    assert_eq!(t.gauge(), 2);
    assert_eq!(t.find(&1), Some("a"));
    assert_eq!(t.find(&2), Some("b"));
    assert_eq!(t.find(&3), Some("c"));
    assert_eq!(t.find(&4), None);
    assert!(t.has_branch());
    assert!(t.is_wf());
}

#[test]
fn round_trip_finds_each_entry_and_nothing_else() {
    let entries: Vec<(usize, usize)> = (0..50).map(|i| (i * 7, i * i)).collect();
    let t = Trie::from_vec(&entries);
    for (k, v) in &entries {
        assert_eq!(t.find(k), Some(*v));
    }
    for k in 0..350usize {
        if k % 7 != 0 {
            assert_eq!(t.find(&k), None);
        }
    }
}

#[test]
fn of_two_entries_with_one_key_the_later_is_found() {
    let t = Trie::from_vec(&vec![(5usize, "first"), (6, "other"), (5, "second")]);
    assert_eq!(t.leaf_len(), Some(3));
    assert_eq!(t.find(&5), Some("second"));
    assert_eq!(t.find(&6), Some("other"));
}

#[test]
fn the_empty_trie_holds_nothing() {
    let t = Trie::<usize, u8>::empty(4);
    assert_eq!(t.gauge(), 4);
    assert_eq!(t.leaf_len(), None);
    assert!(!t.has_branch());
    assert_eq!(t.find(&0), None);
    assert!(t.is_wf());
}

#[test]
fn from_vec_of_nothing_is_an_empty_leaf() {
    let t = Trie::<usize, u8>::from_vec(&vec![]);
    assert_eq!(t.gauge(), 0);
    assert_eq!(t.leaf_len(), Some(0));
    assert_eq!(t.find(&0), None);
}

#[test]
fn join_with_the_empty_trie_keeps_every_lookup() {
    let entries: Vec<(usize, usize)> = (0..20).map(|i| (i, i + 100)).collect();
    let left = Trie::join(Some(name_of_usize(1)), Trie::from_vec(&entries), Trie::empty(3));
    let right = Trie::join(Some(name_of_usize(2)), Trie::empty(3), Trie::from_vec(&entries));
    for k in 0..40usize {
        let expected = if k < 20 { Some(k + 100) } else { None };
        assert_eq!(left.find(&k), expected);
        assert_eq!(right.find(&k), expected);
    }
    assert_eq!(left.gauge(), 20);
    assert_eq!(right.gauge(), 20);
}

#[test]
fn a_leaf_joined_with_the_empty_trie_stays_a_leaf() {
    let small = Trie::join(None, Trie::from_vec(&vec![(1usize, 1u8), (2, 2)]), Trie::empty(5));
    assert_eq!(small.leaf_len(), Some(2));
    assert!(!small.has_branch());
    let large = Trie::join(None, Trie::from_vec(&vec![(1usize, 1u8), (2, 2)]), Trie::empty(1));
    assert_eq!(large.leaf_len(), Some(2));
    assert!(!large.has_branch());
}

#[test]
fn two_leaves_branch_from_the_gauge_on() {
    let below = Trie::join(None, singleton(3, 1, "a"), singleton(3, 2, "b"));
    assert_eq!(below.leaf_len(), Some(2));
    assert!(!below.has_branch());
    let at = Trie::join(None, singleton(2, 1, "a"), singleton(2, 2, "b"));
    assert_eq!(at.leaf_len(), None);
    assert!(at.has_branch());
    assert_eq!(at.find(&1), Some("a"));
    assert_eq!(at.find(&2), Some("b"));
}

#[test]
fn the_gauge_of_a_join_is_the_larger_gauge() {
    let a = Trie::<usize, u8>::empty(7);
    let b = Trie::<usize, u8>::empty(3);
    assert_eq!(Trie::join(None, a, b).gauge(), 7);
    let a = Trie::<usize, u8>::empty(2);
    let b = Trie::<usize, u8>::empty(9);
    assert_eq!(Trie::join(None, a, b).gauge(), 9);
}

#[test]
fn for_a_key_of_both_the_right_value_is_found() {
    let l = Trie::from_vec(&vec![(1usize, "l1"), (2, "l2")]);
    let r = Trie::from_vec(&vec![(2usize, "r2"), (3, "r3")]);
    let t = Trie::join(None, l, r);
    assert_eq!(t.find(&1), Some("l1"));
    assert_eq!(t.find(&2), Some("r2"));
    assert_eq!(t.find(&3), Some("r3"));
}

fn group(lo: usize, hi: usize) -> Trie<usize, usize> {
    let entries: Vec<(usize, usize)> = (lo..hi).map(|k| (k, k * 3)).collect();
    Trie::join(None, Trie::empty(2), Trie::from_vec(&entries))
}

#[test]
fn disjoint_groups_join_to_one_map_in_any_grouping() {
    let left_first = Trie::join(None, Trie::join(None, group(0, 10), group(10, 25)), group(25, 40));
    let right_first = Trie::join(None, group(0, 10), Trie::join(None, group(10, 25), group(25, 40)));
    let swapped = Trie::join(None, group(25, 40), Trie::join(None, group(10, 25), group(0, 10)));
    for k in 0..60usize {
        let expected = if k < 40 { Some(k * 3) } else { None };
        assert_eq!(left_first.find(&k), expected);
        assert_eq!(right_first.find(&k), expected);
        assert_eq!(swapped.find(&k), expected);
    }
    assert!(left_first.is_wf() && right_first.is_wf() && swapped.is_wf());
}

#[test]
fn joins_stay_well_formed() {
    let mut t = Trie::<usize, usize>::empty(1);
    for k in 0..200usize {
        t = Trie::join(Some(name_of_usize(k)), t, Trie::from_vec(&vec![(k, k)]));
        assert!(t.is_wf());
    }
    for k in 0..200usize {
        assert_eq!(t.find(&k), Some(k));
    }
    assert_eq!(t.find(&200), None);
}

#[test]
fn two_leaves_of_gauge_one_branch() {
    let a = Trie::from_vec(&vec![(1usize, 1u8)]);
    let b = Trie::from_vec(&vec![(2usize, 2u8)]);
    let t = Trie::join(None, a, b);
    assert_eq!(t.gauge(), 1);
    assert!(t.has_branch());
    assert_eq!(t.find(&1), Some(1));
    assert_eq!(t.find(&2), Some(2));
}

#[test]
fn two_empty_leaves_join_to_a_branch_that_holds_nothing() {
    let e = Trie::join(None, Trie::<usize, u8>::from_vec(&vec![]), Trie::from_vec(&vec![]));
    assert_eq!(e.gauge(), 0);
    assert!(e.has_branch());
    assert_eq!(e.find(&1), None);
    assert!(e.is_wf());
}

#[test]
fn find_hash_follows_the_hash_it_is_given() {
    let t = group(0, 30);
    for k in 0..30usize {
        assert_eq!(Trie::find_hash(&t, k.key_hash(), &k), Some(k * 3));
        let other = HashVal(k.key_hash().0 ^ 1);
        assert_eq!(Trie::find_hash(&t, other, &k), None);
    }
}

#[test]
fn key_sets_hold_their_keys() {
    let by_value = Trie::<u64, ()>::from_key_vec(vec![3, 1, 4, 1, 5]);
    let by_ref = Trie::<u64, ()>::from_key_vec_ref(&vec![3, 1, 4, 1, 5]);
    assert_eq!(by_value.gauge(), 5);
    assert_eq!(by_ref.leaf_len(), Some(5));
    for k in 0..8u64 {
        let expected = if [1, 3, 4, 5].contains(&k) { Some(()) } else { None };
        assert_eq!(by_value.find(&k), expected);
        assert_eq!(by_ref.find(&k), expected);
    }
}

#[test]
fn a_clone_holds_what_the_trie_holds() {
    let t = Trie::join(Some(name_of_str("t")), group(0, 10), group(10, 20));
    let c = t.clone();
    assert_eq!(c, t);
    assert_eq!(c.gauge(), t.gauge());
    for k in 0..25usize {
        assert_eq!(c.find(&k), t.find(&k));
    }
}
