use adapton::engine::{name_fork, name_of_str, name_of_usize, Name};
use hash_trie::art::Art;
use hash_trie::level_tree::{RazTree, Rec};
use hash_trie::trie::Trie;

/// The keys `0..n` in runs of `gauge`, under branches of rising level.
fn raz_of_range(n: usize, gauge: usize) -> RazTree<usize> {
    let mut runs: Vec<Vec<usize>> = (0..n).collect::<Vec<_>>().chunks(gauge).map(|c| c.to_vec()).collect();
    if runs.is_empty() {
        runs.push(vec![]);
    }
    let mut tree = RazTree::Leaf { elms: runs.remove(0) };
    let mut level = 1;
    for run in runs {
        tree = RazTree::Bin {
            level,
            name: Some(name_of_usize(level as usize)),
            left: Box::new(tree),
            right: Box::new(RazTree::Leaf { elms: run }),
        };
        level += 1;
    }
    tree
}

fn set_of(raz: RazTree<usize>) -> Trie<usize, ()> {
    Rec::fold_up(
        Rec::from_raz_tree(raz),
        (),
        |_: (), v: Vec<usize>| Trie::<usize, ()>::from_key_vec(v),
        (),
        |_: (), n: Option<Name>, _lev: u32, l: Trie<usize, ()>, r: Trie<usize, ()>| Trie::join(n, l, r),
        |_a: Art<Trie<usize, ()>>, t: Trie<usize, ()>| t,
    )
}

fn check_range(n: usize, gauge: usize) {
    let trie = set_of(raz_of_range(n, gauge));
    assert_eq!(trie, Trie::from_level_tree(Rec::from_raz_tree(raz_of_range(n, gauge))));
    assert!(trie.is_wf());
    for k in 0..n {
        assert_eq!(trie.find(&k), Some(()));
    }
    for k in n..(2 * n + 3) {
        assert_eq!(trie.find(&k), None);
    }
}

#[test]
fn a_set_of_no_keys() {
    check_range(0, 4)
}

#[test]
fn a_set_of_one_key() {
    check_range(1, 4)
}

#[test]
fn a_set_of_one_key_less_than_the_gauge() {
    check_range(3, 4)
}

#[test]
fn a_set_of_as_many_keys_as_the_gauge() {
    check_range(4, 4)
}

#[test]
fn a_set_of_ten_times_the_gauge() {
    check_range(40, 4)
}

#[test]
fn the_set_of_a_level_tree_holds_its_elements() {
    let tree = Rec::bin(
        Some(name_of_str("top")),
        2,
        Rec::leaf(vec![5u64, 9, 5]),
        Rec::Art(Art {
            name: None,
            value: Box::new(Rec::bin(None, 1, Rec::leaf(vec![]), Rec::leaf(vec![7u64]))),
        }),
    );
    let set = Trie::from_level_tree(tree);
    assert!(set.is_wf());
    for k in 0..12u64 {
        let expected = if [5, 7, 9].contains(&k) { Some(()) } else { None };
        assert_eq!(set.find(&k), expected);
    }
}

#[test]
fn the_level_tree_of_a_sequence_publishes_the_sub_trees_under_forked_names() {
    let n = name_of_str("root");
    let raz = RazTree::Bin {
        level: 3,
        name: Some(n.clone()),
        left: Box::new(RazTree::Leaf { elms: vec![1u8, 2] }),
        right: Box::new(RazTree::Leaf { elms: vec![3u8] }),
    };
    let (l, r) = name_fork(n.clone());
    let expected = Rec::bin(
        Some(n),
        3,
        Rec::Art(Art { name: Some(l), value: Box::new(Rec::leaf(vec![1u8, 2])) }),
        Rec::Art(Art { name: Some(r), value: Box::new(Rec::leaf(vec![3u8])) }),
    );
    assert_eq!(Rec::from_raz_tree(raz), expected);
}

#[test]
fn the_level_tree_of_an_unnamed_branch_has_unnamed_cells() {
    let raz = RazTree::Bin {
        level: 1,
        name: None,
        left: Box::new(RazTree::Leaf { elms: vec![1u8] }),
        right: Box::new(RazTree::Leaf { elms: vec![] }),
    };
    let expected = Rec::bin(
        None,
        1,
        Rec::Art(Art { name: None, value: Box::new(Rec::leaf(vec![1u8])) }),
        Rec::Art(Art { name: None, value: Box::new(Rec::leaf(vec![])) }),
    );
    assert_eq!(Rec::from_raz_tree(raz), expected);
}

#[test]
fn fold_up_hands_each_transform_what_it_is_owed() {
    let n = name_of_str("n");
    let (n1, n2) = name_fork(n.clone());
    let tree = Rec::bin(
        Some(n.clone()),
        7,
        Rec::leaf(vec![1u8, 2]),
        Rec::Art(Art { name: None, value: Box::new(Rec::leaf(vec![3u8])) }),
    );
    let out = Rec::fold_up(
        tree,
        "l".to_string(),
        |l: String, v: Vec<u8>| format!("{}{:?}", l, v),
        "b".to_string(),
        |b: String, nm: Option<Name>, lev: u32, x: String, y: String| {
            format!("{}({:?},{},{},{})", b, nm, lev, x, y)
        },
        |a: Art<String>, r: String| {
            assert_eq!(*a.value, r);
            format!("<{:?}:{}>", a.name, r)
        },
    );
    let expected = format!(
        "b({:?},7,<{:?}:l[1, 2]>,<{:?}:l[3]>)",
        Some(n),
        Some(n1),
        Some(n2)
    );
    assert_eq!(out, expected);
}

#[test]
fn fold_monoid_reduces_the_leaves_and_combines_the_branches() {
    let tree = Rec::bin(
        None,
        2,
        Rec::bin(None, 1, Rec::leaf(vec![1u64, 2, 3]), Rec::leaf(vec![])),
        Rec::leaf(vec![10u64, 20]),
    );
    let sum = Rec::fold_monoid(
        tree,
        0u64,
        (),
        |_: (), x: u64, y: u64| x + y,
        |_a: Art<u64>, r: u64| r,
    );
    assert_eq!(sum, 36);
}

#[test]
fn fold_monoid_reduces_a_leaf_from_the_left() {
    let tree = Rec::leaf(vec!["a".to_string(), "b".to_string(), "c".to_string()]);
    let out = Rec::fold_monoid(
        tree,
        "z".to_string(),
        "+".to_string(),
        |b: String, x: String, y: String| format!("({}{}{})", x, b, y),
        |_a: Art<String>, r: String| r,
    );
    assert_eq!(out, "(((z+a)+b)+c)");
}
