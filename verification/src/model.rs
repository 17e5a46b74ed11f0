//! The mathematical model of a trie: what a node holds, how a lookup walks
//! it, when it is well formed, and what the join of two nodes is.

use crate::art::Art;
use crate::bits::{bit_at, Bits, HashVal};
use crate::key::Key;
use crate::names::fork_spec;
use adapton::engine::Name;
use vstd::prelude::*;

verus! {

/// A node of a trie.
pub enum Node<K, V> {
    /// No entries.
    Empty,
    /// A bucket of entries, each a key, its hash and its value.
    Leaf { bucket: Seq<(K, HashVal, V)> },
    /// Two published sub-nodes, this node's prefix and its name.
    Branch { left: Art<Node<K, V>>, right: Art<Node<K, V>>, prefix: Bits, name: Option<Name> },
}

/// The value that a scan of `bucket` for the key `k` with hash `h` ends
/// with: that of the last entry whose hash and key both match.
pub open spec fn bucket_lookup<K, V>(bucket: Seq<(K, HashVal, V)>, h: HashVal, k: K) -> Option<V>
    decreases bucket.len(),
{
    if bucket.len() == 0 {
        None
    } else {
        let e = bucket.last();
        if e.1 == h && e.0 == k {
            Some(e.2)
        } else {
            bucket_lookup(bucket.drop_last(), h, k)
        }
    }
}

/// The entries of `bucket` whose hash has bit `i` set (`side`) or clear
/// (`!side`), in their order in `bucket`.
pub open spec fn part<K, V>(bucket: Seq<(K, HashVal, V)>, i: u32, side: bool) -> Seq<
    (K, HashVal, V),
> {
    bucket.filter(|e: (K, HashVal, V)| bit_at(e.1.0, i) == side)
}

/// The node that holds `bucket`: a leaf, or `Empty` for an empty bucket.
pub open spec fn leaf_or_empty<K, V>(bucket: Seq<(K, HashVal, V)>) -> Node<K, V> {
    if bucket.len() == 0 {
        Node::Empty
    } else {
        Node::Leaf { bucket }
    }
}

/// Whether every hash in `bucket` has the bits of `p` as its low bits.
pub open spec fn all_route<K, V>(bucket: Seq<(K, HashVal, V)>, p: Bits) -> bool {
    forall|i: int| 0 <= i < bucket.len() ==> (#[trigger] bucket[i]).1.routes_to(p)
}

/// Whether `bucket` is `entries` with the hash of each key put beside it:
/// the keys as they are, the values as clones.
pub open spec fn hashed<K: Key, V: Clone>(entries: Seq<(K, V)>, bucket: Seq<(K, HashVal, V)>) -> bool {
    &&& bucket.len() == entries.len()
    &&& forall|i: int|
        0 <= i < entries.len() ==> {
            &&& (#[trigger] bucket[i]).0 == entries[i].0
            &&& bucket[i].1 == entries[i].0.hash_spec()
            &&& cloned(entries[i].1, bucket[i].2)
        }
}

/// Whether `bucket` is `keys` with the hash of each key put beside it, and
/// the unit value.
pub open spec fn keyed<K: Key>(keys: Seq<K>, bucket: Seq<(K, HashVal, ())>) -> bool {
    &&& bucket.len() == keys.len()
    &&& forall|i: int| 0 <= i < keys.len() ==> #[trigger] bucket[i] == (keys[i], keys[i].hash_spec(), ())
}

/// The value of the last entry of `entries` whose key is `k`.
pub open spec fn assoc_last<K, V>(entries: Seq<(K, V)>, k: K) -> Option<V>
    decreases entries.len(),
{
    if entries.len() == 0 {
        None
    } else if entries.last().0 == k {
        Some(entries.last().1)
    } else {
        assoc_last(entries.drop_last(), k)
    }
}

/// Whether `r` is what a lookup that found `m` may hand out: a clone of the
/// value found, or nothing where nothing was found.
pub open spec fn clone_of<V: Clone>(r: Option<V>, m: Option<V>) -> bool {
    match (r, m) {
        (Some(v), Some(w)) => cloned(w, v),
        (None, None) => true,
        _ => false,
    }
}

/// Whether `b` is `a` with each value cloned: the keys and the hashes are
/// those of `a`.
pub open spec fn bucket_cloned<K, V: Clone>(a: Seq<(K, HashVal, V)>, b: Seq<(K, HashVal, V)>) -> bool {
    &&& a.len() == b.len()
    &&& forall|i: int|
        0 <= i < a.len() ==> {
            &&& (#[trigger] b[i]).0 == a[i].0
            &&& b[i].1 == a[i].1
            &&& cloned(a[i].2, b[i].2)
        }
}

/// The first result, or the second where the first is none.
pub open spec fn prefer<V>(first: Option<V>, second: Option<V>) -> Option<V> {
    match first {
        Some(_) => first,
        None => second,
    }
}

impl<K, V> Node<K, V> {
    /// The number of branches on the longest path down from this node.
    pub open spec fn height(self) -> nat
        decreases self,
    {
        match self {
            Node::Empty => 0,
            Node::Leaf { .. } => 0,
            Node::Branch { left, right, .. } => {
                let l = left.value.height();
                let r = right.value.height();
                1 + if l >= r {
                    l
                } else {
                    r
                }
            },
        }
    }

    /// Whether a branch occurs anywhere in this node.
    pub open spec fn has_branch(self) -> bool {
        self is Branch
    }

    /// The result of looking up the key `k` with hash `h` from this node,
    /// where `cursor` holds the bits of the hash not yet consumed.
    pub open spec fn lookup(self, cursor: u64, h: HashVal, k: K) -> Option<V>
        decreases self,
    {
        match self {
            Node::Empty => None,
            Node::Leaf { bucket } => bucket_lookup(bucket, h, k),
            Node::Branch { left, right, .. } => {
                if cursor & 1 == 0 {
                    left.value.lookup(cursor >> 1, h, k)
                } else {
                    right.value.lookup(cursor >> 1, h, k)
                }
            },
        }
    }

    /// Whether this node is well formed at the prefix `p`: the hashes of a
    /// leaf have `p` as their low bits; a branch records `p` as its prefix,
    /// lies above the last bit of the hash, and its children are well formed
    /// at the two children of `p`.
    pub open spec fn wf_at(self, p: Bits) -> bool
        decreases self,
    {
        match self {
            Node::Empty => true,
            Node::Leaf { bucket } => all_route(bucket, p),
            Node::Branch { left, right, prefix, .. } => {
                &&& prefix == p
                &&& p.len < 64
                &&& left.value.wf_at(p.left())
                &&& right.value.wf_at(p.right())
            },
        }
    }

    /// The join of `l` and `r` at the prefix `p`, under the name `name` and
    /// with buckets split from `gauge` entries on.
    pub open spec fn join(gauge: nat, name: Option<Name>, l: Self, r: Self, p: Bits) -> Self
        decreases l.height() + r.height(),
    {
        match (l, r) {
            (Node::Empty, _) => r,
            (_, Node::Empty) => l,
            (Node::Leaf { bucket: a }, Node::Leaf { bucket: b }) => {
                if a.len() + b.len() < gauge || p.len >= 64 {
                    leaf_or_empty(a + b)
                } else {
                    let n = fork_spec(name);
                    Node::Branch {
                        left: Art { name: n.0, value: Box::new(leaf_or_empty(part(a + b, p.len, false))) },
                        right: Art { name: n.1, value: Box::new(leaf_or_empty(part(a + b, p.len, true))) },
                        prefix: p,
                        name,
                    }
                }
            },
            (Node::Leaf { bucket: a }, Node::Branch { left, right, name: rn, .. }) => {
                let n = fork_spec(name);
                let m = fork_spec(rn);
                Node::Branch {
                    left: Art {
                        name: n.0,
                        value: Box::new(
                            Self::join(gauge, m.0, leaf_or_empty(part(a, p.len, false)), *left.value, p.left()),
                        ),
                    },
                    right: Art {
                        name: n.1,
                        value: Box::new(
                            Self::join(gauge, m.1, leaf_or_empty(part(a, p.len, true)), *right.value, p.right()),
                        ),
                    },
                    prefix: p,
                    name,
                }
            },
            (Node::Branch { left, right, name: ln, .. }, Node::Leaf { bucket: b }) => {
                let n = fork_spec(name);
                let m = fork_spec(ln);
                Node::Branch {
                    left: Art {
                        name: n.0,
                        value: Box::new(
                            Self::join(gauge, m.0, *left.value, leaf_or_empty(part(b, p.len, false)), p.left()),
                        ),
                    },
                    right: Art {
                        name: n.1,
                        value: Box::new(
                            Self::join(gauge, m.1, *right.value, leaf_or_empty(part(b, p.len, true)), p.right()),
                        ),
                    },
                    prefix: p,
                    name,
                }
            },
            (
                Node::Branch { left: ll, right: lr, name: ln, .. },
                Node::Branch { left: rl, right: rr, name: rn, .. },
            ) => {
                let n = fork_spec(name);
                Node::Branch {
                    left: Art { name: n.0, value: Box::new(Self::join(gauge, ln, *ll.value, *rl.value, p.left())) },
                    right: Art { name: n.1, value: Box::new(Self::join(gauge, rn, *lr.value, *rr.value, p.right())) },
                    prefix: p,
                    name,
                }
            },
        }
    }
}

impl<K, V: Clone> Node<K, V> {
    /// Whether `other` is this node with each value cloned: the shape, the
    /// names, the prefixes, the keys and the hashes are those of this node.
    pub open spec fn cloned_to(self, other: Self) -> bool
        decreases self,
    {
        match (self, other) {
            (Node::Empty, Node::Empty) => true,
            (Node::Leaf { bucket: a }, Node::Leaf { bucket: b }) => bucket_cloned(a, b),
            (
                Node::Branch { left: sl, right: sr, prefix: sp, name: sn },
                Node::Branch { left: ol, right: or, prefix: op, name: on },
            ) => {
                &&& sp == op
                &&& sn == on
                &&& sl.name == ol.name
                &&& sr.name == or.name
                &&& sl.value.cloned_to(*ol.value)
                &&& sr.value.cloned_to(*or.value)
            },
            _ => false,
        }
    }
}

/// A way to join given roots into one: which two are joined first, and
/// under which name and gauge each join is made.
pub enum Plan<K, V> {
    /// A root as it is given.
    Given { node: Node<K, V> },
    /// The join of what two plans give.
    Join { gauge: nat, name: Option<Name>, left: Box<Plan<K, V>>, right: Box<Plan<K, V>> },
}

impl<K, V> Plan<K, V> {
    /// The root that the plan ends with.
    pub open spec fn result(self) -> Node<K, V>
        decreases self,
    {
        match self {
            Plan::Given { node } => node,
            Plan::Join { gauge, name, left, right } => Node::join(
                gauge,
                name,
                left.result(),
                right.result(),
                Bits::root(),
            ),
        }
    }

    /// The given roots, from left to right.
    pub open spec fn given(self) -> Seq<Node<K, V>>
        decreases self,
    {
        match self {
            Plan::Given { node } => seq![node],
            Plan::Join { left, right, .. } => left.given() + right.given(),
        }
    }
}

/// Whether each of the roots is well formed.
pub open spec fn all_wf<K, V>(roots: Seq<Node<K, V>>) -> bool {
    forall|i: int| 0 <= i < roots.len() ==> (#[trigger] roots[i]).wf_at(Bits::root())
}

/// Whether no key is held by two of the roots.
pub open spec fn no_key_twice<K: Key, V>(roots: Seq<Node<K, V>>) -> bool {
    forall|i: int, j: int, k: K|
        0 <= i < roots.len() && 0 <= j < roots.len() && i != j ==> !((#[trigger] roots[i].get(k))
            is Some && (#[trigger] roots[j].get(k)) is Some)
}

/// The value that the last of the roots that hold the key `k` has for it.
pub open spec fn last_found<K: Key, V>(roots: Seq<Node<K, V>>, k: K) -> Option<V>
    decreases roots.len(),
{
    if roots.len() == 0 {
        None
    } else {
        prefer(roots.last().get(k), last_found(roots.drop_last(), k))
    }
}

impl<K: Key, V> Node<K, V> {
    /// The value found for the key `k` from this node as the root.
    pub open spec fn get(self, k: K) -> Option<V> {
        self.lookup(k.hash_spec().0, k.hash_spec(), k)
    }

    /// The map that this node is as the root of a trie: each key that a
    /// lookup finds, with the value found.
    pub open spec fn as_map(self) -> Map<K, V> {
        Map::new(|k: K| self.get(k) is Some, |k: K| self.get(k)->0)
    }
}

} // verus!
