//! Level trees: a sequence cut into leaves under named, leveled branches,
//! and the fold that computes one result from the leaves up.

use crate::art::Art;
use crate::names::{clone_name, fork, fork_spec};
use adapton::engine::Name;
use vstd::prelude::*;

verus! {

/// A branch: its name, its level and its two sub-trees.
#[derive(Debug, PartialEq, Eq, Hash)]
pub struct BinCons<X> {
    pub name: Option<Name>,
    pub level: u32,
    pub recl: Box<Rec<X>>,
    pub recr: Box<Rec<X>>,
}

/// A leaf: a run of elements.
#[derive(Debug, PartialEq, Eq, Hash)]
pub struct LeafCons<X> {
    pub elms: Vec<X>,
}

/// A level tree.
#[derive(Debug, PartialEq, Eq, Hash)]
pub enum Rec<X> {
    Leaf(LeafCons<X>),
    Bin(BinCons<X>),
    Art(Art<Rec<X>>),
}

/// A balanced sequence, as it is handed over for folding: runs of elements
/// under branches that carry a level and a name.
#[derive(Debug, PartialEq, Eq, Hash)]
pub enum RazTree<X> {
    Leaf { elms: Vec<X> },
    Bin { level: u32, name: Option<Name>, left: Box<RazTree<X>>, right: Box<RazTree<X>> },
}

/// What a monoid fold carries to its transforms: the argument `b` of the
/// binary operation, the operation itself, and the element to start from.
pub struct Monoid<B, FB, X> {
    pub b: B,
    pub bin: FB,
    pub z: X,
}

impl<B: Clone, FB: Copy, X: Clone> Clone for Monoid<B, FB, X> {
    fn clone(&self) -> (m: Self)
        ensures
            cloned(self.b, m.b),
            m.bin == self.bin,
            cloned(self.z, m.z),
    {
        Monoid { b: self.b.clone(), bin: self.bin, z: self.z.clone() }
    }
}

/// Whether `r` can be the result of reducing `elms` from the left with
/// `bin`, starting from `x0`, each step with a clone of `b`.
pub open spec fn reduces_to<B: Clone, FB: Fn(B, X, X) -> X, X>(
    bin: FB,
    b: B,
    x0: X,
    elms: Seq<X>,
    r: X,
) -> bool
    decreases elms.len(),
{
    if elms.len() == 0 {
        r == x0
    } else {
        exists|bc: B, x: X|
            {
                &&& cloned(b, bc)
                &&& reduces_to(bin, b, x0, elms.drop_last(), x)
                &&& #[trigger] call_ensures(bin, (bc, x, elms.last()), r)
            }
    }
}

/// Whether `elms` can be reduced from the left with `bin`, starting from
/// `x0`: `bin` accepts each step, whatever the steps before it returned.
pub open spec fn reduce_ok<B: Clone, FB: Fn(B, X, X) -> X, X>(
    bin: FB,
    b: B,
    x0: X,
    elms: Seq<X>,
) -> bool
    decreases elms.len(),
{
    if elms.len() == 0 {
        true
    } else {
        &&& reduce_ok(bin, b, x0, elms.drop_last())
        &&& forall|bc: B, x: X|
            cloned(b, bc) && reduces_to(bin, b, x0, elms.drop_last(), x)
                ==> #[trigger] call_requires(bin, (bc, x, elms.last()))
    }
}

impl<X> RazTree<X> {
    /// The level tree of this sequence: leaf for leaf and branch for
    /// branch, the two sub-trees of a branch each published under one of
    /// the two names forked from the name of the branch.
    pub open spec fn level_tree(self) -> Rec<X>
        decreases self,
    {
        match self {
            RazTree::Leaf { elms } => Rec::Leaf(LeafCons { elms }),
            RazTree::Bin { level, name, left, right } => Rec::Bin(
                BinCons {
                    name,
                    level,
                    recl: Box::new(
                        Rec::Art(
                            Art { name: fork_spec(name).0, value: Box::new(left.level_tree()) },
                        ),
                    ),
                    recr: Box::new(
                        Rec::Art(
                            Art { name: fork_spec(name).1, value: Box::new(right.level_tree()) },
                        ),
                    ),
                },
            ),
        }
    }
}

impl<X> Rec<X> {
    /// The elements of the tree, from left to right.
    pub open spec fn elements(self) -> Seq<X>
        decreases self,
    {
        match self {
            Rec::Leaf(lc) => lc.elms@,
            Rec::Bin(bc) => bc.recl.elements() + bc.recr.elements(),
            Rec::Art(a) => a.value.elements(),
        }
    }

    /// The leaf of the elements `xs`.
    pub fn leaf(xs: Vec<X>) -> (t: Self)
        ensures
            t == Rec::Leaf(LeafCons { elms: xs }),
    {
        Rec::Leaf(LeafCons { elms: xs })
    }

    /// The branch named `opnm` at level `lev` over `l` and `r`.
    pub fn bin(opnm: Option<Name>, lev: u32, l: Self, r: Self) -> (t: Self)
        ensures
            t == Rec::Bin(
                BinCons { name: opnm, level: lev, recl: Box::new(l), recr: Box::new(r) },
            ),
    {
        Rec::Bin(BinCons { name: opnm, level: lev, recl: Box::new(l), recr: Box::new(r) })
    }

    /// The level tree that stands for a published one.
    fn art(a: Art<Rec<X>>) -> (t: Self)
        ensures
            t == Rec::Art(a),
    {
        Rec::Art(a)
    }

    /// The level tree of a balanced sequence.
    pub fn from_raz_tree(t: RazTree<X>) -> (r: Rec<X>)
        ensures
            r == t.level_tree(),
        decreases t,
    {
        match t {
            RazTree::Leaf { elms } => Rec::leaf(elms),
            RazTree::Bin { level, name, left, right } => {
                let l = Self::from_raz_tree(*left);
                let r = Self::from_raz_tree(*right);
                let (n1, n2) = fork(clone_name(&name));
                Rec::bin(name, level, Rec::art(Art::cell(n1, l)), Rec::art(Art::cell(n2, r)))
            },
        }
    }

    /// Whether `r` can be the result of folding `t`: of the leaf transform
    /// on a leaf, of the branch transform on the wrapped results of the two
    /// sub-trees of a branch.
    pub open spec fn folds_to<L, B, R, FL, FB, FA>(
        t: Rec<X>,
        l: L,
        leaf: FL,
        b: B,
        bin: FB,
        art: FA,
        r: R,
    ) -> bool where
        L: Clone,
        B: Clone,
        R: Clone,
        FL: Fn(L, Vec<X>) -> R,
        FB: Fn(B, Option<Name>, u32, R, R) -> R,
        FA: Fn(Art<R>, R) -> R,

        decreases t, 0nat,
    {
        match t {
            Rec::Art(a) => Self::folds_to(*a.value, l, leaf, b, bin, art, r),
            Rec::Leaf(lc) => call_ensures(leaf, (l, lc.elms), r),
            Rec::Bin(bc) => exists|w1: R, w2: R|
                {
                    &&& Self::wraps_to(*bc.recl, fork_spec(bc.name).0, l, leaf, b, bin, art, w1)
                    &&& Self::wraps_to(*bc.recr, fork_spec(bc.name).1, l, leaf, b, bin, art, w2)
                    &&& #[trigger] call_ensures(bin, (b, bc.name, bc.level, w1, w2), r)
                },
        }
    }

    /// Whether `w` can be the wrapped result of the sub-tree `t`: the wrap
    /// transform applied to a result of folding `t` with clones of the two
    /// arguments, and to a clone of that result published under `nm`.
    pub open spec fn wraps_to<L, B, R, FL, FB, FA>(
        t: Rec<X>,
        nm: Option<Name>,
        l: L,
        leaf: FL,
        b: B,
        bin: FB,
        art: FA,
        w: R,
    ) -> bool where
        L: Clone,
        B: Clone,
        R: Clone,
        FL: Fn(L, Vec<X>) -> R,
        FB: Fn(B, Option<Name>, u32, R, R) -> R,
        FA: Fn(Art<R>, R) -> R,

        decreases t, 1nat,
    {
        exists|l1: L, b1: B, r1: R, c1: R|
            #![trigger cloned(l, l1), cloned(b, b1), cloned(r1, c1)]
            {
                &&& cloned(l, l1)
                &&& cloned(b, b1)
                &&& Self::folds_to(t, l1, leaf, b1, bin, art, r1)
                &&& cloned(r1, c1)
                &&& call_ensures(art, (Art { name: nm, value: Box::new(c1) }, r1), w)
            }
    }

    /// Whether `t` can be folded: each transform accepts what the fold
    /// hands it, whatever the transforms before it returned.
    pub open spec fn fold_ok<L, B, R, FL, FB, FA>(
        t: Rec<X>,
        l: L,
        leaf: FL,
        b: B,
        bin: FB,
        art: FA,
    ) -> bool where
        L: Clone,
        B: Clone,
        R: Clone,
        FL: Fn(L, Vec<X>) -> R,
        FB: Fn(B, Option<Name>, u32, R, R) -> R,
        FA: Fn(Art<R>, R) -> R,

        decreases t, 0nat,
    {
        match t {
            Rec::Art(a) => Self::fold_ok(*a.value, l, leaf, b, bin, art),
            Rec::Leaf(lc) => call_requires(leaf, (l, lc.elms)),
            Rec::Bin(bc) => {
                &&& Self::wrap_ok(*bc.recl, fork_spec(bc.name).0, l, leaf, b, bin, art)
                &&& Self::wrap_ok(*bc.recr, fork_spec(bc.name).1, l, leaf, b, bin, art)
                &&& forall|w1: R, w2: R|
                    {
                        &&& Self::wraps_to(*bc.recl, fork_spec(bc.name).0, l, leaf, b, bin, art, w1)
                        &&& Self::wraps_to(*bc.recr, fork_spec(bc.name).1, l, leaf, b, bin, art, w2)
                    } ==> #[trigger] call_requires(bin, (b, bc.name, bc.level, w1, w2))
            },
        }
    }

    /// Whether the sub-tree `t` can be folded and its result wrapped.
    pub open spec fn wrap_ok<L, B, R, FL, FB, FA>(
        t: Rec<X>,
        nm: Option<Name>,
        l: L,
        leaf: FL,
        b: B,
        bin: FB,
        art: FA,
    ) -> bool where
        L: Clone,
        B: Clone,
        R: Clone,
        FL: Fn(L, Vec<X>) -> R,
        FB: Fn(B, Option<Name>, u32, R, R) -> R,
        FA: Fn(Art<R>, R) -> R,

        decreases t, 1nat,
    {
        &&& forall|l1: L, b1: B|
            #![trigger cloned(l, l1), cloned(b, b1)]
            cloned(l, l1) && cloned(b, b1) ==> Self::fold_ok(t, l1, leaf, b1, bin, art)
        &&& forall|l1: L, b1: B, r1: R, c1: R|
            #![trigger cloned(l, l1), cloned(b, b1), cloned(r1, c1)]
            {
                &&& cloned(l, l1)
                &&& cloned(b, b1)
                &&& Self::folds_to(t, l1, leaf, b1, bin, art, r1)
                &&& cloned(r1, c1)
            } ==> call_requires(art, (Art { name: nm, value: Box::new(c1) }, r1))
    }

    /// The leaf transform of a monoid fold: the elements reduced from the
    /// left, starting from `m.z`.
    pub fn monoid_leaf<B: Clone, FB: Fn(B, X, X) -> X>(m: Monoid<B, FB, X>, elms: Vec<X>) -> (r: X)
        requires
            reduce_ok(m.bin, m.b, m.z, elms@),
        ensures
            reduces_to(m.bin, m.b, m.z, elms@, r),
    {
        let ghost all = elms@;
        let ghost z = m.z;
        let Monoid { b, bin, z: mut x } = m;
        for elm in it: elms.into_iter()
            invariant
                it.seq() == all,
                reduce_ok(bin, b, z, all),
                reduces_to(bin, b, z, all.take(it.index() as int), x),
        {
            let ghost i = it.index() as int;
            proof {
                assert(all.take(i + 1).drop_last() =~= all.take(i));
                assert(all.take(i + 1).last() == elm);
                lemma_reduce_ok_prefix(bin, b, z, all, i + 1);
            }
            let bc = b.clone();
            x = bin(bc, x, elm);
        }
        proof {
            assert(all.take(all.len() as int) =~= all);
        }
        x
    }

    /// The branch transform of a monoid fold: the operation on the two
    /// results.
    pub fn monoid_bin<B, FB: Fn(B, X, X) -> X>(
        m: Monoid<B, FB, X>,
        _n: Option<Name>,
        _lev: u32,
        l: X,
        r: X,
    ) -> (res: X)
        requires
            call_requires(m.bin, (m.b, l, r)),
        ensures
            call_ensures(m.bin, (m.b, l, r), res),
    {
        let Monoid { b, bin, z: _ } = m;
        bin(b, l, r)
    }

    /// Whether the three transforms accept whatever they are handed.
    pub open spec fn accept_all<L, B, R, FL, FB, FA>(leaf: FL, bin: FB, art: FA) -> bool where
        FL: Fn(L, Vec<X>) -> R,
        FB: Fn(B, Option<Name>, u32, R, R) -> R,
        FA: Fn(Art<R>, R) -> R,
     {
        &&& forall|l: L, v: Vec<X>| #[trigger] call_requires(leaf, (l, v))
        &&& forall|b: B, n: Option<Name>, lev: u32, x: R, y: R| #[trigger]
            call_requires(bin, (b, n, lev, x, y))
        &&& forall|a: Art<R>, x: R| #[trigger] call_requires(art, (a, x))
    }

    /// With transforms that accept whatever they are handed, every tree can
    /// be folded.
    pub proof fn lemma_accept_all_fold_ok<L, B, R, FL, FB, FA>(
        t: Rec<X>,
        l: L,
        leaf: FL,
        b: B,
        bin: FB,
        art: FA,
    ) where
        L: Clone,
        B: Clone,
        R: Clone,
        FL: Fn(L, Vec<X>) -> R,
        FB: Fn(B, Option<Name>, u32, R, R) -> R,
        FA: Fn(Art<R>, R) -> R,

        requires
            Self::accept_all::<L, B, R, FL, FB, FA>(leaf, bin, art),
        ensures
            Self::fold_ok(t, l, leaf, b, bin, art),
        decreases t,
    {
        reveal_with_fuel(Rec::fold_ok, 2);
        reveal_with_fuel(Rec::wrap_ok, 2);
        match t {
            Rec::Art(a) => {
                Self::lemma_accept_all_fold_ok(*a.value, l, leaf, b, bin, art);
            },
            Rec::Leaf(lc) => {},
            Rec::Bin(bc) => {
                assert forall|l1: L, b1: B|
                    #![trigger cloned(l, l1), cloned(b, b1)]
                    cloned(l, l1) && cloned(b, b1) implies Self::fold_ok(
                    *bc.recl,
                    l1,
                    leaf,
                    b1,
                    bin,
                    art,
                ) && Self::fold_ok(*bc.recr, l1, leaf, b1, bin, art) by {
                    Self::lemma_accept_all_fold_ok(*bc.recl, l1, leaf, b1, bin, art);
                    Self::lemma_accept_all_fold_ok(*bc.recr, l1, leaf, b1, bin, art);
                }
            },
        }
    }

    /// What `fold_ok` and `folds_to` say of a tree, by its topmost node. A
    /// caller whose transforms are given functions or closures learns it
    /// from this lemma: the two definitions unfold by themselves only where
    /// the transforms are type parameters.
    pub proof fn lemma_fold_unfold<L, B, R, FL, FB, FA>(
        t: Rec<X>,
        l: L,
        leaf: FL,
        b: B,
        bin: FB,
        art: FA,
    ) where
        L: Clone,
        B: Clone,
        R: Clone,
        FL: Fn(L, Vec<X>) -> R,
        FB: Fn(B, Option<Name>, u32, R, R) -> R,
        FA: Fn(Art<R>, R) -> R,

        ensures
            Self::fold_ok(t, l, leaf, b, bin, art) <==> match t {
                Rec::Art(a) => Self::fold_ok(*a.value, l, leaf, b, bin, art),
                Rec::Leaf(lc) => call_requires(leaf, (l, lc.elms)),
                Rec::Bin(bc) => {
                    &&& Self::wrap_ok(*bc.recl, fork_spec(bc.name).0, l, leaf, b, bin, art)
                    &&& Self::wrap_ok(*bc.recr, fork_spec(bc.name).1, l, leaf, b, bin, art)
                    &&& forall|w1: R, w2: R|
                        {
                            &&& Self::wraps_to(
                                *bc.recl,
                                fork_spec(bc.name).0,
                                l,
                                leaf,
                                b,
                                bin,
                                art,
                                w1,
                            )
                            &&& Self::wraps_to(
                                *bc.recr,
                                fork_spec(bc.name).1,
                                l,
                                leaf,
                                b,
                                bin,
                                art,
                                w2,
                            )
                        } ==> #[trigger] call_requires(bin, (b, bc.name, bc.level, w1, w2))
                },
            },
            forall|r: R| #[trigger]
                Self::folds_to(t, l, leaf, b, bin, art, r) <==> match t {
                    Rec::Art(a) => Self::folds_to(*a.value, l, leaf, b, bin, art, r),
                    Rec::Leaf(lc) => call_ensures(leaf, (l, lc.elms), r),
                    Rec::Bin(bc) => exists|w1: R, w2: R|
                        {
                            &&& Self::wraps_to(
                                *bc.recl,
                                fork_spec(bc.name).0,
                                l,
                                leaf,
                                b,
                                bin,
                                art,
                                w1,
                            )
                            &&& Self::wraps_to(
                                *bc.recr,
                                fork_spec(bc.name).1,
                                l,
                                leaf,
                                b,
                                bin,
                                art,
                                w2,
                            )
                            &&& #[trigger] call_ensures(bin, (b, bc.name, bc.level, w1, w2), r)
                        },
                },
    {
    }

    /// What `wrap_ok` and `wraps_to` say of a sub-tree; for the same callers
    /// as `lemma_fold_unfold`.
    pub proof fn lemma_wrap_unfold<L, B, R, FL, FB, FA>(
        t: Rec<X>,
        nm: Option<Name>,
        l: L,
        leaf: FL,
        b: B,
        bin: FB,
        art: FA,
    ) where
        L: Clone,
        B: Clone,
        R: Clone,
        FL: Fn(L, Vec<X>) -> R,
        FB: Fn(B, Option<Name>, u32, R, R) -> R,
        FA: Fn(Art<R>, R) -> R,

        ensures
            Self::wrap_ok(t, nm, l, leaf, b, bin, art) <==> {
                &&& forall|l1: L, b1: B|
                    #![trigger cloned(l, l1), cloned(b, b1)]
                    cloned(l, l1) && cloned(b, b1) ==> Self::fold_ok(t, l1, leaf, b1, bin, art)
                &&& forall|l1: L, b1: B, r1: R, c1: R|
                    #![trigger cloned(l, l1), cloned(b, b1), cloned(r1, c1)]
                    {
                        &&& cloned(l, l1)
                        &&& cloned(b, b1)
                        &&& Self::folds_to(t, l1, leaf, b1, bin, art, r1)
                        &&& cloned(r1, c1)
                    } ==> call_requires(art, (Art { name: nm, value: Box::new(c1) }, r1))
            },
            forall|w: R| #[trigger]
                Self::wraps_to(t, nm, l, leaf, b, bin, art, w) <==> exists|
                    l1: L,
                    b1: B,
                    r1: R,
                    c1: R,
                |
                    #![trigger cloned(l, l1), cloned(b, b1), cloned(r1, c1)]
                    {
                        &&& cloned(l, l1)
                        &&& cloned(b, b1)
                        &&& Self::folds_to(t, l1, leaf, b1, bin, art, r1)
                        &&& cloned(r1, c1)
                        &&& call_ensures(art, (Art { name: nm, value: Box::new(c1) }, r1), w)
                    },
    {
    }

    /// What the leaf transform of a monoid fold asks and gives, in terms of
    /// the operation; for a caller whose operation is a given function or
    /// closure.
    pub proof fn lemma_monoid_leaf<B: Clone, FB: Fn(B, X, X) -> X>(
        m: Monoid<B, FB, X>,
        v: Vec<X>,
        r: X,
    )
        ensures
            reduce_ok(m.bin, m.b, m.z, v@) ==> call_requires(Self::monoid_leaf::<B, FB>, (m, v)),
            call_ensures(Self::monoid_leaf::<B, FB>, (m, v), r) ==> reduces_to(
                m.bin,
                m.b,
                m.z,
                v@,
                r,
            ),
    {
    }

    /// What the branch transform of a monoid fold asks and gives, in terms
    /// of the operation; for the same callers as `lemma_monoid_leaf`.
    pub proof fn lemma_monoid_bin<B: Clone, FB: Fn(B, X, X) -> X>(
        m: Monoid<B, FB, X>,
        n: Option<Name>,
        lev: u32,
        x: X,
        y: X,
        r: X,
    )
        ensures
            call_requires(m.bin, (m.b, x, y)) ==> call_requires(
                Self::monoid_bin::<B, FB>,
                (m, n, lev, x, y),
            ),
            call_ensures(Self::monoid_bin::<B, FB>, (m, n, lev, x, y), r) ==> call_ensures(
                m.bin,
                (m.b, x, y),
                r,
            ),
    {
    }

    /// With an operation and a wrap transform that accept whatever they are
    /// handed, every tree can be folded with the operation.
    pub proof fn lemma_accept_all_monoid_ok<B, FB, FA>(
        t: Rec<X>,
        l: Monoid<B, FB, X>,
        m: Monoid<B, FB, X>,
        art: FA,
    ) where
        X: Clone,
        B: Clone,
        FB: Fn(B, X, X) -> X + Copy,
        FA: Fn(Art<X>, X) -> X,

        requires
            l.bin == m.bin,
            forall|bc: B, x: X, y: X| #[trigger] call_requires(m.bin, (bc, x, y)),
            forall|a: Art<X>, x: X| #[trigger] call_requires(art, (a, x)),
        ensures
            Self::fold_ok(t, l, Self::monoid_leaf::<B, FB>, m, Self::monoid_bin::<B, FB>, art),
        decreases t,
    {
        let leaf = Self::monoid_leaf::<B, FB>;
        let bin = Self::monoid_bin::<B, FB>;
        Self::lemma_fold_unfold(t, l, leaf, m, bin, art);
        match t {
            Rec::Art(a) => {
                Self::lemma_accept_all_monoid_ok(*a.value, l, m, art);
            },
            Rec::Leaf(lc) => {
                lemma_accept_all_reduce_ok(l.bin, l.b, l.z, lc.elms@);
                Self::lemma_monoid_leaf(l, lc.elms, l.z);
            },
            Rec::Bin(bc) => {
                assert forall|w1: X, w2: X| #[trigger]
                    call_requires(bin, (m, bc.name, bc.level, w1, w2)) by {
                    Self::lemma_monoid_bin(m, bc.name, bc.level, w1, w2, w1);
                }
                Self::lemma_wrap_unfold(*bc.recl, fork_spec(bc.name).0, l, leaf, m, bin, art);
                Self::lemma_wrap_unfold(*bc.recr, fork_spec(bc.name).1, l, leaf, m, bin, art);
                assert forall|l1: Monoid<B, FB, X>, m1: Monoid<B, FB, X>|
                    #![trigger cloned(l, l1), cloned(m, m1)]
                    cloned(l, l1) && cloned(m, m1) implies Self::fold_ok(
                    *bc.recl,
                    l1,
                    leaf,
                    m1,
                    bin,
                    art,
                ) && Self::fold_ok(*bc.recr, l1, leaf, m1, bin, art) by {
                    Self::lemma_accept_all_monoid_ok(*bc.recl, l1, m1, art);
                    Self::lemma_accept_all_monoid_ok(*bc.recr, l1, m1, art);
                }
            },
        }
    }

    /// Folds the tree with a binary operation: a leaf gives its elements
    /// reduced from the left, starting from a clone of `z`, and a branch
    /// gives the operation on the wrapped results of its two sub-trees. It
    /// is the fold with `monoid_leaf` and `monoid_bin` as the transforms.
    pub fn fold_monoid<B, FB, FA>(t: Rec<X>, z: X, b: B, bin: FB, art: FA) -> (r: X) where
        X: Clone,
        B: Clone,
        FB: Fn(B, X, X) -> X + Copy,
        FA: Fn(Art<X>, X) -> X + Copy,

        requires
            forall|bl: B, zl: X|
                #![trigger cloned(b, bl), cloned(z, zl)]
                cloned(b, bl) && cloned(z, zl) ==> Self::fold_ok(
                    t,
                    Monoid { b: bl, bin, z: zl },
                    Self::monoid_leaf::<B, FB>,
                    Monoid { b, bin, z },
                    Self::monoid_bin::<B, FB>,
                    art,
                ),
        ensures
            exists|bl: B, zl: X|
                #![trigger cloned(b, bl), cloned(z, zl)]
                {
                    &&& cloned(b, bl)
                    &&& cloned(z, zl)
                    &&& Self::folds_to(
                        t,
                        Monoid { b: bl, bin, z: zl },
                        Self::monoid_leaf::<B, FB>,
                        Monoid { b, bin, z },
                        Self::monoid_bin::<B, FB>,
                        art,
                        r,
                    )
                },
    {
        let bl = b.clone();
        let zl = z.clone();
        assert(cloned(b, bl) && cloned(z, zl));
        Self::fold_up(
            t,
            Monoid { b: bl, bin, z: zl },
            Self::monoid_leaf::<B, FB>,
            Monoid { b, bin, z },
            Self::monoid_bin::<B, FB>,
            art,
        )
    }

    /// Folds the tree from the leaves up. A leaf gives `leaf(l, elements)`.
    /// A branch folds its two sub-trees, each with clones of `l` and `b`,
    /// hands each result to `art` beside a clone of it published under one
    /// of the two names forked from the name of the branch, and gives `bin`
    /// of `b`, its name, its level and the two wrapped results. A published
    /// tree is folded as the tree itself.
    pub fn fold_up<L, B, R, FL, FB, FA>(t: Rec<X>, l: L, leaf: FL, b: B, bin: FB, art: FA) -> (r: R) where
        L: Clone,
        B: Clone,
        R: Clone,
        FL: Fn(L, Vec<X>) -> R + Copy,
        FB: Fn(B, Option<Name>, u32, R, R) -> R + Copy,
        FA: Fn(Art<R>, R) -> R + Copy,

        requires
            Self::fold_ok(t, l, leaf, b, bin, art),
        ensures
            Self::folds_to(t, l, leaf, b, bin, art, r),
        decreases t,
    {
        match t {
            Rec::Art(a) => Self::fold_up(a.force(), l, leaf, b, bin, art),
            Rec::Leaf(leafcons) => leaf(l, leafcons.elms),
            Rec::Bin(bincons) => {
                let ghost nm = fork_spec(bincons.name);
                let ghost tl = *bincons.recl;
                let ghost tr = *bincons.recr;
                proof {
                    Self::lemma_fold_unfold(t, l, leaf, b, bin, art);
                    Self::lemma_wrap_unfold(tl, nm.0, l, leaf, b, bin, art);
                    Self::lemma_wrap_unfold(tr, nm.1, l, leaf, b, bin, art);
                }
                let (n1, n2) = fork(clone_name(&bincons.name));
                let l1 = l.clone();
                let b1 = b.clone();
                assert(cloned(l, l1) && cloned(b, b1));
                let r1 = Self::fold_up(*bincons.recl, l1, leaf, b1, bin, art);
                let l2 = l.clone();
                let b2 = b.clone();
                assert(cloned(l, l2) && cloned(b, b2));
                let r2 = Self::fold_up(*bincons.recr, l2, leaf, b2, bin, art);
                let c1 = r1.clone();
                let c2 = r2.clone();
                assert(cloned(r1, c1) && cloned(r2, c2));
                let w1 = art(Art::cell(n1, c1), r1);
                let w2 = art(Art::cell(n2, c2), r2);
                bin(b, bincons.name, bincons.level, w1, w2)
            },
        }
    }
}

/// With an operation that accepts whatever it is handed, every sequence
/// can be reduced.
pub proof fn lemma_accept_all_reduce_ok<B: Clone, FB: Fn(B, X, X) -> X, X>(
    bin: FB,
    b: B,
    x0: X,
    elms: Seq<X>,
)
    requires
        forall|bc: B, x: X, y: X| #[trigger] call_requires(bin, (bc, x, y)),
    ensures
        reduce_ok(bin, b, x0, elms),
    decreases elms.len(),
{
    lemma_reduce_unfold(bin, b, x0, elms);
    if elms.len() > 0 {
        lemma_accept_all_reduce_ok(bin, b, x0, elms.drop_last());
    }
}

/// What `reduce_ok` and `reduces_to` say of a sequence, by its last
/// element; for a caller whose operation is a given function or closure.
pub proof fn lemma_reduce_unfold<B: Clone, FB: Fn(B, X, X) -> X, X>(
    bin: FB,
    b: B,
    x0: X,
    elms: Seq<X>,
)
    ensures
        reduce_ok(bin, b, x0, elms) <==> (elms.len() == 0 || {
            &&& reduce_ok(bin, b, x0, elms.drop_last())
            &&& forall|bc: B, x: X|
                cloned(b, bc) && reduces_to(bin, b, x0, elms.drop_last(), x)
                    ==> #[trigger] call_requires(bin, (bc, x, elms.last()))
        }),
        forall|r: X| #[trigger]
            reduces_to(bin, b, x0, elms, r) <==> if elms.len() == 0 {
                r == x0
            } else {
                exists|bc: B, x: X|
                    {
                        &&& cloned(b, bc)
                        &&& reduces_to(bin, b, x0, elms.drop_last(), x)
                        &&& #[trigger] call_ensures(bin, (bc, x, elms.last()), r)
                    }
            },
{
}

/// Where a sequence can be reduced, each of its prefixes can.
pub proof fn lemma_reduce_ok_prefix<B: Clone, FB: Fn(B, X, X) -> X, X>(
    bin: FB,
    b: B,
    x0: X,
    elms: Seq<X>,
    n: int,
)
    requires
        reduce_ok(bin, b, x0, elms),
        0 <= n <= elms.len(),
    ensures
        reduce_ok(bin, b, x0, elms.take(n)),
    decreases elms.len(),
{
    if n == elms.len() {
        assert(elms.take(n) =~= elms);
    } else {
        assert(elms.drop_last().take(n) =~= elms.take(n));
        lemma_reduce_ok_prefix(bin, b, x0, elms.drop_last(), n);
    }
}

} // verus!
