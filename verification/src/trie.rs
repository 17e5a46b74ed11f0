//! Binary hash tries, for sets and finite maps.

use crate::art::Art;
use crate::bits::{lemma_root_routes, Bits, HashVal, HASH_BITS};
use crate::key::Key;
use crate::laws::{
    lemma_cloned_node, lemma_hashed_lookup, lemma_join_map, lemma_join_wf, lemma_keyed_lookup,
    lemma_part_concat, lemma_part_routes,
};
use crate::model::{
    all_route, assoc_last, bucket_cloned, bucket_lookup, clone_of, hashed, keyed, leaf_or_empty,
    part, Node,
};
use crate::names::{clone_name, fork};
use adapton::engine::Name;
use vstd::prelude::*;

verus! {

/// What a trie records beside its nodes.
#[derive(Clone, Debug, PartialEq, Eq, Hash)]
pub struct TrieMeta {
    gauge: usize,
}

/// A bucket of entries.
#[derive(Debug, PartialEq, Eq, Hash)]
pub struct TrieLeaf<K, V> {
    kvs: Vec<(K, HashVal, V)>,
}

/// Two published sub-nodes, with the prefix and the name of their parent.
#[derive(Debug, PartialEq, Eq, Hash)]
pub struct TrieBin<K, V> {
    name: Option<Name>,
    bits: Bits,
    left: Art<TrieRec<K, V>>,
    right: Art<TrieRec<K, V>>,
}

/// A node of a trie.
#[derive(Debug, PartialEq, Eq, Hash)]
pub enum TrieRec<K, V> {
    Empty,
    Leaf(TrieLeaf<K, V>),
    Bin(TrieBin<K, V>),
}

/// A trie: its nodes, and the gauge that bounds a bucket in a join.
#[derive(Debug, PartialEq, Eq, Hash)]
pub struct Trie<K, V> {
    meta: TrieMeta,
    rec: TrieRec<K, V>,
}

impl<K, V> TrieRec<K, V> {
    /// The node that this value stands for.
    pub closed spec fn node(self) -> Node<K, V>
        decreases self,
    {
        match self {
            TrieRec::Empty => Node::Empty,
            TrieRec::Leaf(l) => Node::Leaf { bucket: l.kvs@ },
            TrieRec::Bin(b) => Node::Branch {
                left: Art { name: b.left.name, value: Box::new(b.left.value.node()) },
                right: Art { name: b.right.name, value: Box::new(b.right.value.node()) },
                prefix: b.bits,
                name: b.name,
            },
        }
    }
}

impl<K, V> View for TrieRec<K, V> {
    type V = Node<K, V>;

    open spec fn view(&self) -> Node<K, V> {
        self.node()
    }
}

impl<K, V> Trie<K, V> {
    /// The root node.
    pub closed spec fn root(&self) -> Node<K, V> {
        self.rec.node()
    }

    /// The gauge: from how many entries on a join splits a bucket.
    pub closed spec fn spec_gauge(&self) -> usize {
        self.meta.gauge
    }

    /// The gauge of the trie.
    #[verifier::when_used_as_spec(spec_gauge)]
    pub fn gauge(&self) -> (g: usize)
        ensures
            g == self.gauge(),
    {
        self.meta.gauge
    }

    /// Whether a branch occurs in the trie.
    pub fn has_branch(&self) -> (r: bool)
        ensures
            r == self.root().has_branch(),
    {
        match &self.rec {
            TrieRec::Bin(_) => true,
            _ => false,
        }
    }

    /// The number of entries of the bucket, where the trie is one leaf.
    pub fn leaf_len(&self) -> (r: Option<usize>)
        ensures
            match r {
                Some(n) => self.root() matches Node::Leaf { bucket } && bucket.len() == n,
                None => !(self.root() is Leaf),
            },
    {
        match &self.rec {
            TrieRec::Leaf(l) => Some(l.kvs.len()),
            _ => None,
        }
    }

    /// Whether the trie is well formed: its root is, at the empty prefix.
    pub open spec fn wf(&self) -> bool {
        self.root().wf_at(Bits::root())
    }

    #[verifier::type_invariant]
    spec fn inv(&self) -> bool {
        self.rec.node().wf_at(Bits::root())
    }
}

impl<K: Key, V> View for Trie<K, V> {
    type V = Map<K, V>;

    /// The map that the trie holds: each key that a lookup finds, with the
    /// value found.
    open spec fn view(&self) -> Map<K, V> {
        self.root().as_map()
    }
}

impl<K: Key, V: Clone> Trie<K, V> {
    /// Looks the key `k` up from the node `r`, where `h_rest` holds the bits
    /// of the hash `h` that are not yet consumed.
    fn find_rec(r: &TrieRec<K, V>, h: HashVal, h_rest: HashVal, k: &K) -> (ans: Option<V>)
        ensures
            clone_of(ans, r@.lookup(h_rest.0, h, *k)),
        decreases r,
    {
        match r {
            TrieRec::Empty => None,
            TrieRec::Leaf(l) => {
                let mut ans: Option<V> = None;
                let n = l.kvs.len();
                for i in 0..n
                    invariant
                        n == l.kvs.len(),
                        clone_of(ans, bucket_lookup(l.kvs@.take(i as int), h, *k)),
                {
                    let e = &l.kvs[i];
                    proof {
                        assert(l.kvs@.take(i + 1).drop_last() =~= l.kvs@.take(i as int));
                    }
                    if e.1 == h && e.0.key_eq(k) {
                        ans = Some(e.2.clone());
                    }
                }
                proof {
                    assert(l.kvs@.take(n as int) =~= l.kvs@);
                }
                ans
            },
            TrieRec::Bin(b) => {
                if h_rest.0 & 1 == 0 {
                    Self::find_rec(b.left.get(), h, HashVal(h_rest.0 >> 1), k)
                } else {
                    Self::find_rec(b.right.get(), h, HashVal(h_rest.0 >> 1), k)
                }
            },
        }
    }
}

impl<K, V> Trie<K, V> {
    /// Moves the entries of `vec` behind those of `vec0` or of `vec1`, by
    /// bit `bits_len` of their hash: clear to `vec0`, set to `vec1`.
    fn split_vec(
        vec: Vec<(K, HashVal, V)>,
        bits_len: u32,
        vec0: Vec<(K, HashVal, V)>,
        vec1: Vec<(K, HashVal, V)>,
    ) -> (r: (Vec<(K, HashVal, V)>, Vec<(K, HashVal, V)>))
        ensures
            r.0@ == vec0@ + part(vec@, bits_len, false),
            r.1@ == vec1@ + part(vec@, bits_len, true),
    {
        let mut out0 = vec0;
        let mut out1 = vec1;
        let ghost all = vec@;
        for e in it: vec.into_iter()
            invariant
                it.seq() == all,
                out0@ == vec0@ + part(all.take(it.index() as int), bits_len, false),
                out1@ == vec1@ + part(all.take(it.index() as int), bits_len, true),
        {
            proof {
                reveal(Seq::filter);
                let i = it.index() as int;
                assert(all.take(i + 1).drop_last() =~= all.take(i));
                assert(all.take(i + 1).last() == e);
            }
            if !e.1.bit(bits_len) {
                out0.push(e);
            } else {
                out1.push(e);
            }
        }
        proof {
            assert(all.take(all.len() as int) =~= all);
        }
        (out0, out1)
    }

    /// The node that holds `kvs`: a leaf, or `Empty` for no entries.
    fn leaf_or_empty(kvs: Vec<(K, HashVal, V)>) -> (r: TrieRec<K, V>)
        ensures
            r@ == leaf_or_empty(kvs@),
    {
        if kvs.len() == 0 {
            TrieRec::Empty
        } else {
            TrieRec::Leaf(TrieLeaf { kvs })
        }
    }

    /// Joins two nodes that are well formed at the prefix `bits`. The empty
    /// node joined with a node is that node. Two leaves become one leaf of
    /// the entries of both while these are fewer than the gauge, or where
    /// the hash has no bit left to split by; from the gauge on they become a
    /// branch over the two parts of the entries by bit `bits.len` of their
    /// hash. A leaf and a branch become a branch: each part of the leaf is
    /// joined with the sub-node of the branch on its side. Two branches
    /// become a branch: left is joined with left and right with right. The
    /// new branch has the name `n`, and its two sub-nodes are published
    /// under the two names forked from `n`.
    fn join_rec(
        meta: &TrieMeta,
        n: Option<Name>,
        lt: TrieRec<K, V>,
        rt: TrieRec<K, V>,
        bits: Bits,
    ) -> (res: TrieRec<K, V>)
        requires
            lt@.wf_at(bits),
            rt@.wf_at(bits),
        ensures
            res@ == Node::join(meta.gauge as nat, n, lt@, rt@, bits),
        decreases lt@.height() + rt@.height(),
    {
        match (lt, rt) {
            (TrieRec::Empty, rt) => rt,
            (lt, TrieRec::Empty) => lt,
            (TrieRec::Leaf(l), TrieRec::Leaf(r)) => {
                let below = l.kvs.len() < meta.gauge && r.kvs.len() < meta.gauge - l.kvs.len();
                if below || bits.len >= HASH_BITS {
                    let mut vec = l.kvs;
                    let mut more = r.kvs;
                    vec.append(&mut more);
                    Self::leaf_or_empty(vec)
                } else {
                    let ghost a = l.kvs@;
                    let ghost b = r.kvs@;
                    let (l0, l1) = Self::split_vec(l.kvs, bits.len, Vec::new(), Vec::new());
                    let (r0, r1) = Self::split_vec(r.kvs, bits.len, l0, l1);
                    proof {
                        lemma_part_concat(a, b, bits.len, false);
                        lemma_part_concat(a, b, bits.len, true);
                        assert(r0@ =~= part(a + b, bits.len, false));
                        assert(r1@ =~= part(a + b, bits.len, true));
                    }
                    let (n1, n2) = fork(clone_name(&n));
                    let t0 = Art::cell(n1, Self::leaf_or_empty(r0));
                    let t1 = Art::cell(n2, Self::leaf_or_empty(r1));
                    TrieRec::Bin(TrieBin { left: t0, right: t1, bits, name: n })
                }
            },
            (TrieRec::Leaf(l), TrieRec::Bin(r)) => {
                let ghost a = l.kvs@;
                let (l0, l1) = Self::split_vec(l.kvs, bits.len, Vec::new(), Vec::new());
                let (b0, b1) = bits.split();
                let (n0, n1) = fork(clone_name(&n));
                let (m0, m1) = fork(r.name);
                proof {
                    assert(l0@ =~= part(a, bits.len, false));
                    assert(l1@ =~= part(a, bits.len, true));
                    lemma_part_routes(a, bits, false);
                    lemma_part_routes(a, bits, true);
                }
                let o0 = Self::join_rec(meta, m0, Self::leaf_or_empty(l0), r.left.force(), b0);
                let o1 = Self::join_rec(meta, m1, Self::leaf_or_empty(l1), r.right.force(), b1);
                TrieRec::Bin(
                    TrieBin { left: Art::cell(n0, o0), right: Art::cell(n1, o1), name: n, bits },
                )
            },
            (TrieRec::Bin(l), TrieRec::Leaf(r)) => {
                let ghost b = r.kvs@;
                let (r0, r1) = Self::split_vec(r.kvs, bits.len, Vec::new(), Vec::new());
                let (b0, b1) = bits.split();
                let (n0, n1) = fork(clone_name(&n));
                let (m0, m1) = fork(l.name);
                proof {
                    assert(r0@ =~= part(b, bits.len, false));
                    assert(r1@ =~= part(b, bits.len, true));
                    lemma_part_routes(b, bits, false);
                    lemma_part_routes(b, bits, true);
                }
                let o0 = Self::join_rec(meta, m0, l.left.force(), Self::leaf_or_empty(r0), b0);
                let o1 = Self::join_rec(meta, m1, l.right.force(), Self::leaf_or_empty(r1), b1);
                TrieRec::Bin(
                    TrieBin { left: Art::cell(n0, o0), right: Art::cell(n1, o1), name: n, bits },
                )
            },
            (TrieRec::Bin(l), TrieRec::Bin(r)) => {
                let (n1, n2) = fork(clone_name(&n));
                let (b0, b1) = bits.split();
                let o0 = Self::join_rec(meta, l.name, l.left.force(), r.left.force(), b0);
                let o1 = Self::join_rec(meta, r.name, l.right.force(), r.right.force(), b1);
                TrieRec::Bin(
                    TrieBin { left: Art::cell(n1, o0), right: Art::cell(n2, o1), name: n, bits },
                )
            },
        }
    }
}

impl<K: Key, V: Clone> Trie<K, V> {
    /// Looks the key `k` up: a clone of its value, or `None` where the trie
    /// does not hold the key.
    pub fn find(&self, k: &K) -> (r: Option<V>)
        ensures
            clone_of(r, self.root().get(*k)),
            match r {
                Some(v) => self@.contains_key(*k) && cloned(self@[*k], v),
                None => !self@.contains_key(*k),
            },
    {
        Self::find_hash(self, k.key_hash(), k)
    }

    /// Looks the key `k` up along the bits of the hash `h`.
    pub fn find_hash(t: &Trie<K, V>, h: HashVal, k: &K) -> (r: Option<V>)
        ensures
            clone_of(r, t.root().lookup(h.0, h, *k)),
    {
        Self::find_rec(&t.rec, h, h, k)
    }

    fn meta(gauge: usize) -> (m: TrieMeta)
        ensures
            m.gauge == gauge,
    {
        TrieMeta { gauge }
    }

    /// The trie without entries, with the given gauge, which is positive.
    pub fn empty(gauge: usize) -> (t: Self)
        requires
            gauge > 0,
        ensures
            t.gauge() == gauge,
            t.root() == Node::<K, V>::Empty,
            t.wf(),
            t@ == Map::<K, V>::empty(),
    {
        let t = Trie { meta: Self::meta(gauge), rec: TrieRec::Empty };
        proof {
            assert(t@ =~= Map::<K, V>::empty());
        }
        t
    }

    /// The trie of one leaf that holds the given entries in their order,
    /// with their number as its gauge. Of two entries with one key, a lookup
    /// finds the later.
    pub fn from_vec(vec_in: &Vec<(K, V)>) -> (t: Self)
        ensures
            t.gauge() == vec_in.len(),
            t.root() matches Node::Leaf { bucket } && hashed(vec_in@, bucket),
            t.wf(),
            forall|k: K| clone_of(#[trigger] t.root().get(k), assoc_last(vec_in@, k)),
    {
        let mut vec: Vec<(K, HashVal, V)> = Vec::new();
        let n = vec_in.len();
        for i in 0..n
            invariant
                n == vec_in.len(),
                hashed(vec_in@.take(i as int), vec@),
        {
            let e = &vec_in[i];
            let k_hash = e.0.key_hash();
            vec.push((e.0.key_clone(), k_hash, e.1.clone()));
        }
        proof {
            assert(vec_in@.take(n as int) =~= vec_in@);
            assert(all_route(vec@, Bits::root())) by {
                assert forall|i: int| 0 <= i < vec@.len() implies (#[trigger] vec@[i]).1.routes_to(
                    Bits::root(),
                ) by {
                    lemma_root_routes(vec@[i].1);
                }
            }
            assert forall|k: K|
                clone_of(
                    #[trigger] (Node::Leaf { bucket: vec@ }).get(k),
                    assoc_last(vec_in@, k),
                ) by {
                lemma_hashed_lookup(vec_in@, vec@, k);
            }
        }
        Trie { meta: Self::meta(vec.len()), rec: TrieRec::Leaf(TrieLeaf { kvs: vec }) }
    }

    /// The set of the given keys, as a trie of one leaf with the number of
    /// keys as its gauge.
    pub fn from_key_vec_ref(vec_in: &Vec<K>) -> (t: Trie<K, ()>)
        ensures
            t.gauge() == vec_in.len(),
            t.root() matches Node::Leaf { bucket } && keyed(vec_in@, bucket),
            t.wf(),
            forall|k: K| #[trigger] t@.contains_key(k) <==> vec_in@.contains(k),
    {
        let mut vec: Vec<(K, HashVal, ())> = Vec::new();
        let n = vec_in.len();
        for i in 0..n
            invariant
                n == vec_in.len(),
                keyed(vec_in@.take(i as int), vec@),
        {
            let k = &vec_in[i];
            let k_hash = k.key_hash();
            vec.push((k.key_clone(), k_hash, ()));
        }
        proof {
            assert(vec_in@.take(n as int) =~= vec_in@);
        }
        Self::set_of_bucket(Ghost(vec_in@), vec)
    }

    /// The set of the given keys, as a trie of one leaf with the number of
    /// keys as its gauge.
    pub fn from_key_vec(vec_in: Vec<K>) -> (t: Trie<K, ()>)
        ensures
            t.gauge() == vec_in.len(),
            t.root() matches Node::Leaf { bucket } && keyed(vec_in@, bucket),
            t.wf(),
            forall|k: K| #[trigger] t@.contains_key(k) <==> vec_in@.contains(k),
    {
        let mut vec: Vec<(K, HashVal, ())> = Vec::new();
        let ghost all = vec_in@;
        for k in it: vec_in.into_iter()
            invariant
                it.seq() == all,
                keyed(all.take(it.index() as int), vec@),
        {
            let k_hash = k.key_hash();
            vec.push((k, k_hash, ()));
        }
        proof {
            assert(all.take(all.len() as int) =~= all);
        }
        Self::set_of_bucket(Ghost(all), vec)
    }

    fn set_of_bucket(Ghost(keys): Ghost<Seq<K>>, vec: Vec<(K, HashVal, ())>) -> (t: Trie<K, ()>)
        requires
            keyed(keys, vec@),
        ensures
            t.gauge() == keys.len(),
            t.root() == (Node::Leaf { bucket: vec@ }),
            t.wf(),
            forall|k: K| #[trigger] t@.contains_key(k) <==> keys.contains(k),
    {
        proof {
            assert(all_route(vec@, Bits::root())) by {
                assert forall|i: int| 0 <= i < vec@.len() implies (#[trigger] vec@[i]).1.routes_to(
                    Bits::root(),
                ) by {
                    lemma_root_routes(vec@[i].1);
                }
            }
            assert forall|k: K| #[trigger]
                (Node::Leaf { bucket: vec@ }).as_map().contains_key(k) <==> keys.contains(k) by {
                lemma_keyed_lookup(keys, vec@, k);
            }
        }
        Trie { meta: TrieMeta { gauge: vec.len() }, rec: TrieRec::Leaf(TrieLeaf { kvs: vec }) }
    }

    /// Whether the trie is well formed. Every trie is.
    pub fn is_wf(&self) -> (r: bool)
        ensures
            r == self.wf(),
            r,
    {
        proof {
            use_type_invariant(self);
        }
        Self::is_wf_rec(&self.rec, Bits { bits: 0, len: 0 })
    }

    /// Joins two tries into one that holds the entries of both; for a key
    /// of both, a lookup finds the value of `rt`. The gauge is the larger
    /// of the two.
    pub fn join(n: Option<Name>, lt: Self, rt: Self) -> (t: Self)
        ensures
            t.gauge() == if lt.gauge() > rt.gauge() {
                lt.gauge()
            } else {
                rt.gauge()
            },
            t.root() == Node::join(t.gauge() as nat, n, lt.root(), rt.root(), Bits::root()),
            t.wf(),
            t@ == lt@.union_prefer_right(rt@),
    {
        proof {
            use_type_invariant(&lt);
            use_type_invariant(&rt);
        }
        let gauge = if lt.meta.gauge > rt.meta.gauge {
            lt.meta.gauge
        } else {
            rt.meta.gauge
        };
        let meta = Self::meta(gauge);
        proof {
            lemma_join_wf(gauge as nat, n, lt.rec@, rt.rec@, Bits::root());
            lemma_join_map(gauge as nat, n, lt.rec@, rt.rec@);
        }
        let rec = Self::join_rec(&meta, n, lt.rec, rt.rec, Bits { len: 0, bits: 0 });
        Trie { meta, rec }
    }
}

impl<K: Key, V: Clone> TrieRec<K, V> {
    /// A second copy of the node, with each value cloned.
    fn clone_rec(&self) -> (r: Self)
        ensures
            self@.cloned_to(r@),
        decreases self,
    {
        match self {
            TrieRec::Empty => TrieRec::Empty,
            TrieRec::Leaf(l) => {
                let mut kvs: Vec<(K, HashVal, V)> = Vec::new();
                let n = l.kvs.len();
                for i in 0..n
                    invariant
                        n == l.kvs.len(),
                        bucket_cloned(l.kvs@.take(i as int), kvs@),
                {
                    let e = &l.kvs[i];
                    kvs.push((e.0.key_clone(), e.1, e.2.clone()));
                }
                proof {
                    assert(l.kvs@.take(n as int) =~= l.kvs@);
                }
                TrieRec::Leaf(TrieLeaf { kvs })
            },
            TrieRec::Bin(b) => {
                let left = Art::cell(clone_name(&b.left.name), b.left.get().clone_rec());
                let right = Art::cell(clone_name(&b.right.name), b.right.get().clone_rec());
                TrieRec::Bin(TrieBin { name: clone_name(&b.name), bits: b.bits, left, right })
            },
        }
    }
}

impl<K: Key, V: Clone> Clone for Trie<K, V> {
    /// A second copy of the trie, with each value cloned.
    fn clone(&self) -> (r: Self)
        ensures
            r.gauge() == self.gauge(),
            self.root().cloned_to(r.root()),
            r.wf(),
            forall|k: K| clone_of(#[trigger] r.root().get(k), self.root().get(k)),
    {
        proof {
            use_type_invariant(self);
        }
        let rec = self.rec.clone_rec();
        proof {
            assert forall|k: K| clone_of(#[trigger] rec@.get(k), self.rec@.get(k)) by {
                lemma_cloned_node(
                    self.rec@,
                    rec@,
                    Bits::root(),
                    k.hash_spec().0,
                    k.hash_spec(),
                    k,
                );
            }
            let k0 = arbitrary::<K>();
            lemma_cloned_node(self.rec@, rec@, Bits::root(), 0, k0.hash_spec(), k0);
        }
        Trie { meta: Self::meta(self.meta.gauge), rec }
    }
}

impl<K, V> Trie<K, V> {
    /// Whether the node is well formed at the prefix `bits`.
    fn is_wf_rec(t: &TrieRec<K, V>, bits: Bits) -> (r: bool)
        ensures
            r == t@.wf_at(bits),
        decreases t,
    {
        match t {
            TrieRec::Empty => true,
            TrieRec::Leaf(leaf) => {
                let n = leaf.kvs.len();
                for i in 0..n
                    invariant
                        n == leaf.kvs.len(),
                        t@.wf_at(bits) == all_route(leaf.kvs@, bits),
                        forall|j: int| 0 <= j < i ==> (#[trigger] leaf.kvs@[j]).1.routes_to(bits),
                {
                    if !leaf.kvs[i].1.has_prefix(&bits) {
                        assert(!leaf.kvs@[i as int].1.routes_to(bits));
                        return false;
                    }
                }
                true
            },
            TrieRec::Bin(b) => {
                if bits.len >= HASH_BITS {
                    return false;
                }
                let (b0, b1) = bits.split();
                let lwf = Self::is_wf_rec(b.left.get(), b0);
                let rwf = Self::is_wf_rec(b.right.get(), b1);
                b.bits == bits && lwf && rwf
            },
        }
    }
}

} // verus!
