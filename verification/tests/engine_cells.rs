use adapton::engine::{cell, force, manage, name_of_str, put, thunk, Name, NameChoice};
use adapton::macros::ProgPt;
use hash_trie::trie::Trie;
use std::rc::Rc;

fn sample(lo: usize, hi: usize) -> Trie<usize, usize> {
    let entries: Vec<(usize, usize)> = (lo..hi).map(|k| (k, k + 1)).collect();
    Trie::join(Some(name_of_str("sample")), Trie::empty(3), Trie::from_vec(&entries))
}

#[test]
fn a_trie_put_into_the_engine_is_found_again() {
    manage::init_dcg();
    let t = Trie::join(Some(name_of_str("t")), sample(0, 8), sample(8, 16));
    let named = cell(name_of_str("cell"), t.clone());
    let plain = put(t.clone());
    assert_eq!(force(&named), t);
    assert_eq!(force(&plain), t);
}

#[test]
fn the_engine_remembers_a_join_by_its_name() {
    manage::init_dcg();
    let join = |(n, l, r): (Option<Name>, Trie<usize, usize>, Trie<usize, usize>), (): ()| {
        Trie::join(n, l, r)
    };
    let n = Some(name_of_str("join"));
    let first = thunk(
        NameChoice::Nominal(name_of_str("memo")),
        ProgPt { symbol: "join" },
        Rc::new(Box::new(join)),
        (n.clone(), sample(0, 8), sample(8, 16)),
        (),
    );
    let again = thunk(
        NameChoice::Nominal(name_of_str("memo")),
        ProgPt { symbol: "join" },
        Rc::new(Box::new(join)),
        (n.clone(), sample(0, 8), sample(8, 16)),
        (),
    );
    let direct = Trie::join(n, sample(0, 8), sample(8, 16));
    assert_eq!(force(&first), direct);
    assert_eq!(force(&again), direct);
    assert_eq!(first, again);
    for k in 0..20usize {
        let expected = if k < 16 { Some(k + 1) } else { None };
        assert_eq!(force(&first).find(&k), expected);
    }
}
