//! The set of the elements of a level tree, built as a trie in one fold:
//! a leaf becomes a trie of one bucket, a branch the join of its two sides.

use crate::art::Art;
use crate::key::Key;
use crate::level_tree::Rec;
use crate::names::fork_spec;
use crate::trie::Trie;
use adapton::engine::Name;
use vstd::prelude::*;

verus! {

/// The leaf transform: the set of the elements of a leaf.
fn set_leaf<K: Key>(_l: (), v: Vec<K>) -> (t: Trie<K, ()>)
    ensures
        t.wf(),
        forall|k: K| #[trigger] t@.contains_key(k) <==> v@.contains(k),
{
    Trie::<K, ()>::from_key_vec(v)
}

/// The branch transform: the join of the two sides under the name of the
/// branch.
fn set_bin<K: Key>(
    _b: (),
    n: Option<Name>,
    _lev: u32,
    l: Trie<K, ()>,
    r: Trie<K, ()>,
) -> (t: Trie<K, ()>)
    ensures
        t.wf(),
        t@ == l@.union_prefer_right(r@),
{
    Trie::join(n, l, r)
}

/// The wrap transform: the result as it is.
fn set_art<K: Key>(_a: Art<Trie<K, ()>>, t: Trie<K, ()>) -> (r: Trie<K, ()>)
    ensures
        r == t,
{
    t
}

/// Whether the three transforms build sets: the leaf transform gives a
/// well-formed trie of the elements of the leaf, the branch transform a
/// well-formed trie of the keys of both sides, and the wrap transform the
/// result as it is.
pub open spec fn build_sets<K: Key, FL, FB, FA>(leaf: FL, bin: FB, art: FA) -> bool where
    FL: Fn((), Vec<K>) -> Trie<K, ()>,
    FB: Fn((), Option<Name>, u32, Trie<K, ()>, Trie<K, ()>) -> Trie<K, ()>,
    FA: Fn(Art<Trie<K, ()>>, Trie<K, ()>) -> Trie<K, ()>,
 {
    &&& forall|l: (), v: Vec<K>, out: Trie<K, ()>| #[trigger]
        call_ensures(leaf, (l, v), out) ==> out.wf() && forall|k: K| #[trigger]
            out@.contains_key(k) <==> v@.contains(k)
    &&& forall|b: (), n: Option<Name>, lev: u32, x: Trie<K, ()>, y: Trie<K, ()>, out: Trie<K, ()>|
     #[trigger]
        call_ensures(bin, (b, n, lev, x, y), out) ==> out.wf() && out@ == x@.union_prefer_right(y@)
    &&& forall|a: Art<Trie<K, ()>>, x: Trie<K, ()>, out: Trie<K, ()>| #[trigger]
        call_ensures(art, (a, x), out) ==> out == x
}

/// With transforms that build sets, whatever the fold gives is a
/// well-formed trie that holds exactly the elements of the tree.
pub proof fn lemma_set_folds_to<K: Key, FL, FB, FA>(
    t: Rec<K>,
    leaf: FL,
    bin: FB,
    art: FA,
    r: Trie<K, ()>,
) where
    FL: Fn((), Vec<K>) -> Trie<K, ()>,
    FB: Fn((), Option<Name>, u32, Trie<K, ()>, Trie<K, ()>) -> Trie<K, ()>,
    FA: Fn(Art<Trie<K, ()>>, Trie<K, ()>) -> Trie<K, ()>,

    requires
        build_sets(leaf, bin, art),
        Rec::folds_to(t, (), leaf, (), bin, art, r),
    ensures
        r.wf(),
        forall|k: K| #[trigger] r@.contains_key(k) <==> t.elements().contains(k),
    decreases t, 0nat,
{
    Rec::lemma_fold_unfold(t, (), leaf, (), bin, art);
    match t {
        Rec::Art(a) => {
            lemma_set_folds_to(*a.value, leaf, bin, art, r);
        },
        Rec::Leaf(lc) => {},
        Rec::Bin(bc) => {
            let (w1, w2) = choose|w1: Trie<K, ()>, w2: Trie<K, ()>|
                {
                    &&& Rec::wraps_to(*bc.recl, fork_spec(bc.name).0, (), leaf, (), bin, art, w1)
                    &&& Rec::wraps_to(*bc.recr, fork_spec(bc.name).1, (), leaf, (), bin, art, w2)
                    &&& #[trigger] call_ensures(bin, ((), bc.name, bc.level, w1, w2), r)
                };
            lemma_set_wraps_to(*bc.recl, fork_spec(bc.name).0, leaf, bin, art, w1);
            lemma_set_wraps_to(*bc.recr, fork_spec(bc.name).1, leaf, bin, art, w2);
            let xs = bc.recl.elements();
            let ys = bc.recr.elements();
            assert forall|k: K| #[trigger] r@.contains_key(k) <==> (xs + ys).contains(k) by {
                assert(r@.contains_key(k) <==> (w1@.contains_key(k) || w2@.contains_key(k)));
                if xs.contains(k) {
                    let i = choose|i: int| 0 <= i < xs.len() && xs[i] == k;
                    assert((xs + ys)[i] == k);
                }
                if ys.contains(k) {
                    let i = choose|i: int| 0 <= i < ys.len() && ys[i] == k;
                    assert((xs + ys)[xs.len() + i] == k);
                }
                if (xs + ys).contains(k) {
                    let i = choose|i: int| 0 <= i < (xs + ys).len() && (xs + ys)[i] == k;
                    if i < xs.len() {
                        assert(xs[i] == k);
                    } else {
                        assert(ys[i - xs.len()] == k);
                    }
                }
            }
        },
    }
}

/// With transforms that build sets, whatever the fold gives for a
/// sub-tree, wrapped, is a well-formed trie that holds exactly the elements
/// of the sub-tree.
pub proof fn lemma_set_wraps_to<K: Key, FL, FB, FA>(
    t: Rec<K>,
    nm: Option<Name>,
    leaf: FL,
    bin: FB,
    art: FA,
    w: Trie<K, ()>,
) where
    FL: Fn((), Vec<K>) -> Trie<K, ()>,
    FB: Fn((), Option<Name>, u32, Trie<K, ()>, Trie<K, ()>) -> Trie<K, ()>,
    FA: Fn(Art<Trie<K, ()>>, Trie<K, ()>) -> Trie<K, ()>,

    requires
        build_sets(leaf, bin, art),
        Rec::wraps_to(t, nm, (), leaf, (), bin, art, w),
    ensures
        w.wf(),
        forall|k: K| #[trigger] w@.contains_key(k) <==> t.elements().contains(k),
    decreases t, 1nat,
{
    Rec::lemma_wrap_unfold(t, nm, (), leaf, (), bin, art);
    let (l1, b1, r1, c1) = choose|l1: (), b1: (), r1: Trie<K, ()>, c1: Trie<K, ()>|
        #![trigger cloned((), l1), cloned((), b1), cloned(r1, c1)]
        {
            &&& cloned((), l1)
            &&& cloned((), b1)
            &&& Rec::folds_to(t, l1, leaf, b1, bin, art, r1)
            &&& cloned(r1, c1)
            &&& call_ensures(art, (Art { name: nm, value: Box::new(c1) }, r1), w)
        };
    lemma_set_folds_to(t, leaf, bin, art, r1);
}

impl<K: Key> Trie<K, ()> {
    /// The set of the elements of a level tree: a well-formed trie that
    /// holds a key exactly where the tree holds it as an element. The tree
    /// is folded once, leaf by leaf and join by join, each join under the
    /// name of its branch.
    pub fn from_level_tree(t: Rec<K>) -> (r: Self)
        ensures
            r.wf(),
            forall|k: K| #[trigger] r@.contains_key(k) <==> t.elements().contains(k),
    {
        proof {
            Rec::lemma_accept_all_fold_ok(t, (), set_leaf::<K>, (), set_bin::<K>, set_art::<K>);
        }
        let r = Rec::fold_up(t, (), set_leaf::<K>, (), set_bin::<K>, set_art::<K>);
        proof {
            lemma_set_folds_to(t, set_leaf::<K>, set_bin::<K>, set_art::<K>, r);
        }
        r
    }
}

} // verus!
