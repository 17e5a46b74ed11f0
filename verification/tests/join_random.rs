use adapton::engine::{name_of_usize, Name};
use hash_trie::art::Art;
use hash_trie::level_tree::{RazTree, Rec};
use hash_trie::trie::Trie;
use rand::{thread_rng, Rng};

/// A level for a branch: each further level is half as likely.
fn gen_branch_level<R: Rng>(rng: &mut R) -> u32 {
    let bits = rng.gen::<u32>() | (1u32 << 31);
    bits.trailing_zeros() + 1
}

/// The balanced sequence of the given runs: the separator of the highest
/// level is the root, and so on down on either side of it.
fn raz_of(mut chunks: Vec<Vec<usize>>, mut seps: Vec<(u32, Option<Name>)>) -> RazTree<usize> {
    assert_eq!(chunks.len(), seps.len() + 1);
    if seps.is_empty() {
        return RazTree::Leaf { elms: chunks.pop().unwrap() };
    }
    let mut top = 0;
    for i in 0..seps.len() {
        if seps[i].0 > seps[top].0 {
            top = i;
        }
    }
    let right_chunks = chunks.split_off(top + 1);
    let right_seps = seps.split_off(top + 1);
    let (level, name) = seps.pop().unwrap();
    RazTree::Bin {
        level,
        name,
        left: Box::new(raz_of(chunks, seps)),
        right: Box::new(raz_of(right_chunks, right_seps)),
    }
}

fn at_leaf(_: (), v: Vec<usize>) -> Trie<usize, ()> {
    Trie::<usize, ()>::from_key_vec(v)
}

fn at_bin(
    _: (),
    n: Option<Name>,
    _lev: u32,
    l: Trie<usize, ()>,
    r: Trie<usize, ()>,
) -> Trie<usize, ()> {
    assert!(l.is_wf());
    assert!(r.is_wf());
    Trie::join(n, l, r)
}

fn at_art(_a: Art<Trie<usize, ()>>, t: Trie<usize, ()>) -> Trie<usize, ()> {
    t
}

fn test_join(size: usize, gauge: usize) {
    let (elmv, lev_tree) = {
        let mut rng = thread_rng();
        let mut chunks: Vec<Vec<usize>> = vec![];
        let mut seps: Vec<(u32, Option<Name>)> = vec![];
        let mut run: Vec<usize> = vec![];
        let mut elmv: Vec<usize> = vec![];
        for i in 0..size {
            let elm = rng.gen::<usize>() % size;
            elmv.push(elm);
            run.push(elm);
            if i % gauge == 0 {
                chunks.push(run);
                run = vec![];
                seps.push((gen_branch_level(&mut rng), Some(name_of_usize(i))));
            }
        }
        chunks.push(run);
        let raz_tree: RazTree<usize> = raz_of(chunks, seps);
        let lev_tree: Rec<usize> = Rec::from_raz_tree(raz_tree);
        (elmv, lev_tree)
    };
    let trie = Rec::fold_up(lev_tree, (), at_leaf, (), at_bin, at_art);
    println!("{:?}\n", trie);
    assert!(trie.is_wf());
    for i in elmv {
        println!("find {:?}", i);
        assert_eq!(trie.find(&i), Some(()));
    }
}

#[test]
fn test_join_10_1() {
    test_join(10, 1)
}

#[test]
fn test_join_100_1() {
    test_join(100, 1)
}

#[test]
fn test_join_1000_1() {
    test_join(1000, 1)
}

#[test]
fn test_join_10_2() {
    test_join(10, 2)
}

#[test]
fn test_join_100_2() {
    test_join(100, 2)
}

#[test]
fn test_join_1000_2() {
    test_join(1000, 2)
}

#[test]
fn test_join_10_3() {
    test_join(10, 3)
}

#[test]
fn test_join_100_3() {
    test_join(100, 3)
}

#[test]
fn test_join_1000_3() {
    test_join(1000, 3)
}

#[test]
fn test_join_10_4() {
    test_join(10, 4)
}

#[test]
fn test_join_100_4() {
    test_join(100, 4)
}

#[test]
fn test_join_1000_4() {
    test_join(1000, 4)
}

#[test]
fn test_join_10_5() {
    test_join(10, 5)
}

#[test]
fn test_join_100_5() {
    test_join(100, 5)
}

#[test]
fn test_join_1000_5() {
    test_join(1000, 5)
}
