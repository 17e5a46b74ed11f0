//! What holds of lookups, of well-formedness and of joins, proved of the
//! model.

use crate::bits::{
    bit_at, lemma_rest_step, lemma_root_routes, lemma_routes_to_child, rest, Bits, HashVal,
};
use crate::key::Key;
use crate::model::{
    all_route, all_wf, assoc_last, bucket_cloned, bucket_lookup, clone_of, hashed, keyed,
    last_found, leaf_or_empty, no_key_twice, part, prefer, Node, Plan,
};
use adapton::engine::Name;
use vstd::prelude::*;

verus! {

/// A scan of two buckets laid end to end finds what a scan of the second
/// finds, and otherwise what a scan of the first finds.
pub proof fn lemma_bucket_lookup_concat<K, V>(
    a: Seq<(K, HashVal, V)>,
    b: Seq<(K, HashVal, V)>,
    h: HashVal,
    k: K,
)
    ensures
        bucket_lookup(a + b, h, k) == prefer(bucket_lookup(b, h, k), bucket_lookup(a, h, k)),
    decreases b.len(),
{
    if b.len() == 0 {
        assert(a + b =~= a);
    } else {
        assert((a + b).last() == b.last());
        assert((a + b).drop_last() =~= a + b.drop_last());
        lemma_bucket_lookup_concat(a, b.drop_last(), h, k);
    }
}

/// Splitting a bucket by a bit of the hash keeps, on the side that the bit
/// of `h` names, every entry that a scan for `h` can match.
pub proof fn lemma_bucket_lookup_part<K, V>(
    b: Seq<(K, HashVal, V)>,
    i: u32,
    h: HashVal,
    k: K,
)
    ensures
        bucket_lookup(part(b, i, bit_at(h.0, i)), h, k) == bucket_lookup(b, h, k),
    decreases b.len(),
{
    reveal(Seq::filter);
    let side = bit_at(h.0, i);
    if b.len() == 0 {
    } else {
        let e = b.last();
        lemma_bucket_lookup_part(b.drop_last(), i, h, k);
        if bit_at(e.1.0, i) == side {
            let sub = part(b.drop_last(), i, side);
            assert(part(b, i, side) == sub.push(e));
            assert(sub.push(e).last() == e);
            assert(sub.push(e).drop_last() =~= sub);
        } else {
            assert(part(b, i, side) == part(b.drop_last(), i, side));
        }
    }
}

/// Splitting two buckets laid end to end gives the parts of the first
/// followed by the parts of the second.
pub proof fn lemma_part_concat<K, V>(
    a: Seq<(K, HashVal, V)>,
    b: Seq<(K, HashVal, V)>,
    i: u32,
    side: bool,
)
    ensures
        part(a + b, i, side) == part(a, i, side) + part(b, i, side),
{
    Seq::filter_distributes_over_add(a, b, |e: (K, HashVal, V)| bit_at(e.1.0, i) == side);
}

/// The entries that a split at the prefix `p` sends to one side route to
/// the child of `p` on that side.
pub proof fn lemma_part_routes<K, V>(b: Seq<(K, HashVal, V)>, p: Bits, side: bool)
    requires
        all_route(b, p),
        p.len < 64,
    ensures
        all_route(part(b, p.len, side), p.child(side)),
    decreases b.len(),
{
    reveal(Seq::filter);
    if b.len() == 0 {
    } else {
        let e = b.last();
        assert(e == b[b.len() - 1]);
        assert(all_route(b.drop_last(), p)) by {
            assert forall|i: int| 0 <= i < b.drop_last().len() implies (
            #[trigger] b.drop_last()[i]).1.routes_to(p) by {
                assert(b.drop_last()[i] == b[i]);
            }
        }
        lemma_part_routes(b.drop_last(), p, side);
        let sub = part(b.drop_last(), p.len, side);
        if bit_at(e.1.0, p.len) == side {
            lemma_routes_to_child(e.1, p);
            assert(part(b, p.len, side) == sub.push(e));
            assert forall|i: int| 0 <= i < sub.push(e).len() implies (#[trigger] sub.push(
                e,
            )[i]).1.routes_to(p.child(side)) by {
                if i < sub.len() {
                    assert(sub.push(e)[i] == sub[i]);
                }
            }
        } else {
            assert(part(b, p.len, side) == sub);
        }
    }
}

/// Two buckets whose hashes route to a prefix, laid end to end, still
/// route to it.
pub proof fn lemma_concat_routes<K, V>(a: Seq<(K, HashVal, V)>, b: Seq<(K, HashVal, V)>, p: Bits)
    requires
        all_route(a, p),
        all_route(b, p),
    ensures
        all_route(a + b, p),
{
    assert forall|i: int| 0 <= i < (a + b).len() implies (#[trigger] (a + b)[i]).1.routes_to(
        p,
    ) by {
        if i < a.len() {
            assert((a + b)[i] == a[i]);
        } else {
            assert((a + b)[i] == b[i - a.len()]);
        }
    }
}

/// The join of two nodes that are well formed at a prefix is well formed at
/// that prefix.
pub proof fn lemma_join_wf<K, V>(
    gauge: nat,
    name: Option<Name>,
    l: Node<K, V>,
    r: Node<K, V>,
    p: Bits,
)
    requires
        l.wf_at(p),
        r.wf_at(p),
    ensures
        Node::join(gauge, name, l, r, p).wf_at(p),
    decreases l.height() + r.height(),
{
    match (l, r) {
        (Node::Empty, _) => {},
        (_, Node::Empty) => {},
        (Node::Leaf { bucket: a }, Node::Leaf { bucket: b }) => {
            lemma_concat_routes(a, b, p);
            if a.len() + b.len() < gauge || p.len >= 64 {
                assert(leaf_or_empty(a + b).wf_at(p));
            } else {
                lemma_part_routes(a + b, p, false);
                lemma_part_routes(a + b, p, true);
                assert(leaf_or_empty(part(a + b, p.len, false)).wf_at(p.left()));
                assert(leaf_or_empty(part(a + b, p.len, true)).wf_at(p.right()));
            }
        },
        (Node::Leaf { bucket: a }, Node::Branch { left, right, name: rn, .. }) => {
            lemma_part_routes(a, p, false);
            lemma_part_routes(a, p, true);
            assert(leaf_or_empty(part(a, p.len, false)).wf_at(p.left()));
            assert(leaf_or_empty(part(a, p.len, true)).wf_at(p.right()));
            let m = crate::names::fork_spec(rn);
            lemma_join_wf(gauge, m.0, leaf_or_empty(part(a, p.len, false)), *left.value, p.left());
            lemma_join_wf(gauge, m.1, leaf_or_empty(part(a, p.len, true)), *right.value, p.right());
        },
        (Node::Branch { left, right, name: ln, .. }, Node::Leaf { bucket: b }) => {
            lemma_part_routes(b, p, false);
            lemma_part_routes(b, p, true);
            assert(leaf_or_empty(part(b, p.len, false)).wf_at(p.left()));
            assert(leaf_or_empty(part(b, p.len, true)).wf_at(p.right()));
            let m = crate::names::fork_spec(ln);
            lemma_join_wf(gauge, m.0, *left.value, leaf_or_empty(part(b, p.len, false)), p.left());
            lemma_join_wf(gauge, m.1, *right.value, leaf_or_empty(part(b, p.len, true)), p.right());
        },
        (
            Node::Branch { left: ll, right: lr, name: ln, .. },
            Node::Branch { left: rl, right: rr, name: rn, .. },
        ) => {
            lemma_join_wf(gauge, ln, *ll.value, *rl.value, p.left());
            lemma_join_wf(gauge, rn, *lr.value, *rr.value, p.right());
        },
    }
}

/// A lookup in the join of two well-formed nodes finds what the lookup
/// finds in the right node, and otherwise what it finds in the left one.
pub proof fn lemma_join_lookup<K, V>(
    gauge: nat,
    name: Option<Name>,
    l: Node<K, V>,
    r: Node<K, V>,
    p: Bits,
    h: HashVal,
    k: K,
)
    requires
        l.wf_at(p),
        r.wf_at(p),
        h.routes_to(p),
    ensures
        Node::join(gauge, name, l, r, p).lookup(rest(h.0, p.len), h, k) == prefer(
            r.lookup(rest(h.0, p.len), h, k),
            l.lookup(rest(h.0, p.len), h, k),
        ),
    decreases l.height() + r.height(),
{
    let c = rest(h.0, p.len);
    let side = bit_at(h.0, p.len);
    match (l, r) {
        (Node::Empty, _) => {},
        (_, Node::Empty) => {},
        (Node::Leaf { bucket: a }, Node::Leaf { bucket: b }) => {
            lemma_bucket_lookup_concat(a, b, h, k);
            if a.len() + b.len() < gauge || p.len >= 64 {
                assert(leaf_or_empty(a + b).lookup(c, h, k) == bucket_lookup(a + b, h, k));
            } else {
                lemma_rest_step(h.0, p.len);
                lemma_bucket_lookup_part(a + b, p.len, h, k);
                assert(leaf_or_empty(part(a + b, p.len, side)).lookup(c >> 1, h, k)
                    == bucket_lookup(part(a + b, p.len, side), h, k));
            }
        },
        (Node::Leaf { bucket: a }, Node::Branch { left, right, name: rn, .. }) => {
            lemma_rest_step(h.0, p.len);
            lemma_routes_to_child(h, p);
            lemma_part_routes(a, p, side);
            lemma_bucket_lookup_part(a, p.len, h, k);
            assert(leaf_or_empty(part(a, p.len, side)).wf_at(p.child(side)));
            assert(leaf_or_empty(part(a, p.len, side)).lookup(c >> 1, h, k) == bucket_lookup(
                part(a, p.len, side),
                h,
                k,
            ));
            let m = crate::names::fork_spec(rn);
            if side {
                lemma_join_lookup(gauge, m.1, leaf_or_empty(part(a, p.len, true)), *right.value, p.right(), h, k);
            } else {
                lemma_join_lookup(gauge, m.0, leaf_or_empty(part(a, p.len, false)), *left.value, p.left(), h, k);
            }
        },
        (Node::Branch { left, right, name: ln, .. }, Node::Leaf { bucket: b }) => {
            lemma_rest_step(h.0, p.len);
            lemma_routes_to_child(h, p);
            lemma_part_routes(b, p, side);
            lemma_bucket_lookup_part(b, p.len, h, k);
            assert(leaf_or_empty(part(b, p.len, side)).wf_at(p.child(side)));
            assert(leaf_or_empty(part(b, p.len, side)).lookup(c >> 1, h, k) == bucket_lookup(
                part(b, p.len, side),
                h,
                k,
            ));
            let m = crate::names::fork_spec(ln);
            if side {
                lemma_join_lookup(gauge, m.1, *right.value, leaf_or_empty(part(b, p.len, true)), p.right(), h, k);
            } else {
                lemma_join_lookup(gauge, m.0, *left.value, leaf_or_empty(part(b, p.len, false)), p.left(), h, k);
            }
        },
        (
            Node::Branch { left: ll, right: lr, name: ln, .. },
            Node::Branch { left: rl, right: rr, name: rn, .. },
        ) => {
            lemma_rest_step(h.0, p.len);
            lemma_routes_to_child(h, p);
            if side {
                lemma_join_lookup(gauge, rn, *lr.value, *rr.value, p.right(), h, k);
            } else {
                lemma_join_lookup(gauge, ln, *ll.value, *rl.value, p.left(), h, k);
            }
        },
    }
}

/// The map of the join of two well-formed roots holds the entries of both,
/// and for a key of both the value of the right one.
pub proof fn lemma_join_map<K: Key, V>(gauge: nat, name: Option<Name>, l: Node<K, V>, r: Node<K, V>)
    requires
        l.wf_at(Bits::root()),
        r.wf_at(Bits::root()),
    ensures
        Node::join(gauge, name, l, r, Bits::root()).as_map() == l.as_map().union_prefer_right(
            r.as_map(),
        ),
{
    let j = Node::join(gauge, name, l, r, Bits::root());
    assert forall|k: K| #[trigger] j.get(k) == prefer(r.get(k), l.get(k)) by {
        lemma_root_routes(k.hash_spec());
        lemma_join_lookup(gauge, name, l, r, Bits::root(), k.hash_spec(), k);
    }
    assert(j.as_map() =~= l.as_map().union_prefer_right(r.as_map()));
}

/// A scan of a hashed bucket for a key finds a clone of the value that the
/// last entry with that key has.
pub proof fn lemma_hashed_lookup<K: Key, V: Clone>(
    entries: Seq<(K, V)>,
    bucket: Seq<(K, HashVal, V)>,
    k: K,
)
    requires
        hashed(entries, bucket),
    ensures
        clone_of(bucket_lookup(bucket, k.hash_spec(), k), assoc_last(entries, k)),
    decreases entries.len(),
{
    if entries.len() == 0 {
    } else {
        let n = entries.len() - 1;
        assert(bucket.last() == bucket[n]);
        assert(entries.last() == entries[n]);
        assert(hashed(entries.drop_last(), bucket.drop_last())) by {
            assert forall|i: int| 0 <= i < entries.drop_last().len() implies {
                &&& (#[trigger] bucket.drop_last()[i]).0 == entries.drop_last()[i].0
                &&& bucket.drop_last()[i].1 == entries.drop_last()[i].0.hash_spec()
                &&& cloned(entries.drop_last()[i].1, bucket.drop_last()[i].2)
            } by {
                assert(bucket.drop_last()[i] == bucket[i]);
            }
        }
        lemma_hashed_lookup(entries.drop_last(), bucket.drop_last(), k);
    }
}

/// A scan of a keyed bucket finds a key exactly where the key is among the
/// keys.
pub proof fn lemma_keyed_lookup<K: Key>(keys: Seq<K>, bucket: Seq<(K, HashVal, ())>, k: K)
    requires
        keyed(keys, bucket),
    ensures
        bucket_lookup(bucket, k.hash_spec(), k) is Some <==> keys.contains(k),
    decreases keys.len(),
{
    if keys.len() == 0 {
    } else {
        let n = keys.len() - 1;
        assert(bucket.last() == bucket[n]);
        assert(keyed(keys.drop_last(), bucket.drop_last())) by {
            assert forall|i: int| 0 <= i < keys.drop_last().len() implies #[trigger] bucket.drop_last()[i]
                == (keys.drop_last()[i], keys.drop_last()[i].hash_spec(), ()) by {
                assert(bucket.drop_last()[i] == bucket[i]);
            }
        }
        lemma_keyed_lookup(keys.drop_last(), bucket.drop_last(), k);
        if keys[n] == k {
            assert(keys.contains(k));
        } else {
            if keys.contains(k) {
                let i = choose|i: int| 0 <= i < keys.len() && keys[i] == k;
                assert(keys.drop_last()[i] == k);
            }
            if keys.drop_last().contains(k) {
                let i = choose|i: int| 0 <= i < keys.drop_last().len() && keys.drop_last()[i] == k;
                assert(keys[i] == k);
            }
        }
    }
}

/// With no key twice among the entries, the last entry with a key is the
/// entry with that key.
pub proof fn lemma_assoc_last_unique<K, V>(entries: Seq<(K, V)>, i: int)
    requires
        0 <= i < entries.len(),
        forall|a: int, b: int| 0 <= a < b < entries.len() ==> entries[a].0 != entries[b].0,
    ensures
        assoc_last(entries, entries[i].0) == Some(entries[i].1),
    decreases entries.len(),
{
    let n = entries.len() - 1;
    if i == n {
    } else {
        assert(entries.last().0 != entries[i].0);
        assert(entries.drop_last()[i] == entries[i]);
        lemma_assoc_last_unique(entries.drop_last(), i);
    }
}

/// A key that no entry has is associated with nothing.
pub proof fn lemma_assoc_last_absent<K, V>(entries: Seq<(K, V)>, k: K)
    requires
        forall|i: int| 0 <= i < entries.len() ==> entries[i].0 != k,
    ensures
        assoc_last(entries, k) is None,
    decreases entries.len(),
{
    if entries.len() > 0 {
        assert(entries.last() == entries[entries.len() - 1]);
        assert forall|i: int| 0 <= i < entries.drop_last().len() implies entries.drop_last()[i].0
            != k by {
            assert(entries.drop_last()[i] == entries[i]);
        }
        lemma_assoc_last_absent(entries.drop_last(), k);
    }
}

/// A scan of a bucket with cloned values finds a clone of what a scan of
/// the bucket itself finds.
pub proof fn lemma_bucket_cloned_lookup<K, V: Clone>(
    a: Seq<(K, HashVal, V)>,
    b: Seq<(K, HashVal, V)>,
    h: HashVal,
    k: K,
)
    requires
        bucket_cloned(a, b),
    ensures
        clone_of(bucket_lookup(b, h, k), bucket_lookup(a, h, k)),
    decreases a.len(),
{
    if a.len() > 0 {
        let n = a.len() - 1;
        assert(a.last() == a[n]);
        assert(b.last() == b[n]);
        assert(bucket_cloned(a.drop_last(), b.drop_last())) by {
            assert forall|i: int| 0 <= i < a.drop_last().len() implies {
                &&& (#[trigger] b.drop_last()[i]).0 == a.drop_last()[i].0
                &&& b.drop_last()[i].1 == a.drop_last()[i].1
                &&& cloned(a.drop_last()[i].2, b.drop_last()[i].2)
            } by {
                assert(b.drop_last()[i] == b[i]);
            }
        }
        lemma_bucket_cloned_lookup(a.drop_last(), b.drop_last(), h, k);
    }
}

/// A node with cloned values is well formed where the node itself is, and
/// a lookup in it finds a clone of what the lookup finds in the node.
pub proof fn lemma_cloned_node<K, V: Clone>(
    a: Node<K, V>,
    b: Node<K, V>,
    p: Bits,
    cursor: u64,
    h: HashVal,
    k: K,
)
    requires
        a.cloned_to(b),
    ensures
        a.wf_at(p) ==> b.wf_at(p),
        clone_of(b.lookup(cursor, h, k), a.lookup(cursor, h, k)),
    decreases a,
{
    match (a, b) {
        (Node::Leaf { bucket: x }, Node::Leaf { bucket: y }) => {
            lemma_bucket_cloned_lookup(x, y, h, k);
            if a.wf_at(p) {
                assert forall|i: int| 0 <= i < y.len() implies (#[trigger] y[i]).1.routes_to(
                    p,
                ) by {
                    assert(x[i].1.routes_to(p));
                }
            }
        },
        (
            Node::Branch { left: sl, right: sr, .. },
            Node::Branch { left: ol, right: or, .. },
        ) => {
            lemma_cloned_node(*sl.value, *ol.value, p.left(), cursor >> 1, h, k);
            lemma_cloned_node(*sr.value, *or.value, p.right(), cursor >> 1, h, k);
        },
        _ => {},
    }
}

/// Round trip. In the trie built from entries with no key twice, a lookup
/// of the key of an entry finds a clone of the value of that entry, and a
/// lookup of any other key finds nothing.
pub proof fn lemma_round_trip<K: Key, V: Clone>(entries: Seq<(K, V)>, root: Node<K, V>, k: K)
    requires
        root matches Node::Leaf { bucket } && hashed(entries, bucket),
        forall|a: int, b: int| 0 <= a < b < entries.len() ==> entries[a].0 != entries[b].0,
    ensures
        forall|i: int|
            0 <= i < entries.len() && entries[i].0 == k ==> (root.get(k) matches Some(v) && cloned(
                entries[i].1,
                v,
            )),
        (forall|i: int| 0 <= i < entries.len() ==> entries[i].0 != k) ==> root.get(k) is None,
{
    let bucket = root->bucket;
    lemma_hashed_lookup(entries, bucket, k);
    assert forall|i: int| 0 <= i < entries.len() && entries[i].0 == k implies (root.get(
        k,
    ) matches Some(v) && cloned(entries[i].1, v)) by {
        lemma_assoc_last_unique(entries, i);
    }
    if forall|i: int| 0 <= i < entries.len() ==> entries[i].0 != k {
        lemma_assoc_last_absent(entries, k);
    }
}

/// Join identity. The join of a node with the empty node, on either side,
/// is that node.
pub proof fn lemma_join_empty<K, V>(gauge: nat, name: Option<Name>, t: Node<K, V>, p: Bits)
    ensures
        Node::join(gauge, name, t, Node::Empty, p) == t,
        Node::join(gauge, name, Node::Empty, t, p) == t,
{
}

/// Joins of well-formed roots associate: whichever two of three are joined
/// first, under whatever names and gauges, the joined trie holds one map.
pub proof fn lemma_join_assoc<K: Key, V>(
    gauges: (nat, nat, nat, nat),
    names: (Option<Name>, Option<Name>, Option<Name>, Option<Name>),
    a: Node<K, V>,
    b: Node<K, V>,
    c: Node<K, V>,
)
    requires
        a.wf_at(Bits::root()),
        b.wf_at(Bits::root()),
        c.wf_at(Bits::root()),
    ensures
        Node::join(
            gauges.1,
            names.1,
            Node::join(gauges.0, names.0, a, b, Bits::root()),
            c,
            Bits::root(),
        ).as_map() == Node::join(
            gauges.3,
            names.3,
            a,
            Node::join(gauges.2, names.2, b, c, Bits::root()),
            Bits::root(),
        ).as_map(),
{
    let ab = Node::join(gauges.0, names.0, a, b, Bits::root());
    let bc = Node::join(gauges.2, names.2, b, c, Bits::root());
    lemma_join_wf(gauges.0, names.0, a, b, Bits::root());
    lemma_join_wf(gauges.2, names.2, b, c, Bits::root());
    lemma_join_map(gauges.0, names.0, a, b);
    lemma_join_map(gauges.2, names.2, b, c);
    lemma_join_map(gauges.1, names.1, ab, c);
    lemma_join_map(gauges.3, names.3, a, bc);
    assert(a.as_map().union_prefer_right(b.as_map()).union_prefer_right(c.as_map())
        =~= a.as_map().union_prefer_right(b.as_map().union_prefer_right(c.as_map())));
}

/// Joins of well-formed roots with no key in common commute: in either
/// order, under whatever names and gauges, the joined trie holds one map.
pub proof fn lemma_join_comm<K: Key, V>(
    gauges: (nat, nat),
    names: (Option<Name>, Option<Name>),
    a: Node<K, V>,
    b: Node<K, V>,
)
    requires
        a.wf_at(Bits::root()),
        b.wf_at(Bits::root()),
        a.as_map().dom().disjoint(b.as_map().dom()),
    ensures
        Node::join(gauges.0, names.0, a, b, Bits::root()).as_map() == Node::join(
            gauges.1,
            names.1,
            b,
            a,
            Bits::root(),
        ).as_map(),
{
    lemma_join_map(gauges.0, names.0, a, b);
    lemma_join_map(gauges.1, names.1, b, a);
    assert(a.as_map().union_prefer_right(b.as_map()) =~= b.as_map().union_prefer_right(
        a.as_map(),
    ));
}

/// Among roots laid end to end, the last that holds a key is the last of
/// the second run that holds it, and otherwise the last of the first run.
pub proof fn lemma_last_found_concat<K: Key, V>(a: Seq<Node<K, V>>, b: Seq<Node<K, V>>, k: K)
    ensures
        last_found(a + b, k) == prefer(last_found(b, k), last_found(a, k)),
    decreases b.len(),
{
    if b.len() == 0 {
        assert(a + b =~= a);
    } else {
        assert((a + b).last() == b.last());
        assert((a + b).drop_last() =~= a + b.drop_last());
        lemma_last_found_concat(a, b.drop_last(), k);
    }
}

/// What is found last among roots is found in one of them; and among roots
/// that share no key, what one of them holds is what is found last.
pub proof fn lemma_last_found<K: Key, V>(roots: Seq<Node<K, V>>, k: K)
    ensures
        last_found(roots, k) is Some ==> exists|i: int|
            0 <= i < roots.len() && (#[trigger] roots[i]).get(k) == last_found(roots, k),
        no_key_twice(roots) ==> forall|i: int|
            0 <= i < roots.len() && (#[trigger] roots[i]).get(k) is Some ==> last_found(roots, k)
                == roots[i].get(k),
    decreases roots.len(),
{
    if roots.len() > 0 {
        let n = roots.len() - 1;
        let front = roots.drop_last();
        lemma_last_found(front, k);
        assert(roots.last() == roots[n]);
        if last_found(roots, k) is Some {
            if roots[n].get(k) is Some {
                assert(roots[n].get(k) == last_found(roots, k));
            } else {
                let i = choose|i: int|
                    0 <= i < front.len() && (#[trigger] front[i]).get(k) == last_found(front, k);
                assert(roots[i] == front[i]);
            }
        }
        if no_key_twice(roots) {
            assert(no_key_twice(front)) by {
                assert forall|i: int, j: int, q: K|
                    0 <= i < front.len() && 0 <= j < front.len() && i != j implies !((
                #[trigger] front[i].get(q)) is Some && (#[trigger] front[j].get(q)) is Some) by {
                    assert(front[i] == roots[i]);
                    assert(front[j] == roots[j]);
                    assert(!(roots[i].get(q) is Some && roots[j].get(q) is Some));
                }
            }
            assert forall|i: int|
                0 <= i < roots.len() && (#[trigger] roots[i]).get(k) is Some implies last_found(
                roots,
                k,
            ) == roots[i].get(k) by {
                if i < n {
                    assert(front[i] == roots[i]);
                    assert(!(roots[i].get(k) is Some && roots[n].get(k) is Some));
                }
            }
        }
    }
}

/// Whatever the plan, the root it ends with is well formed, and a lookup in
/// it finds what the last of the given roots that holds the key has.
pub proof fn lemma_plan_lookup<K: Key, V>(plan: Plan<K, V>, k: K)
    requires
        all_wf(plan.given()),
    ensures
        plan.result().wf_at(Bits::root()),
        plan.result().get(k) == last_found(plan.given(), k),
    decreases plan,
{
    match plan {
        Plan::Given { node } => {
            assert(plan.given()[0] == node);
            assert(plan.given().drop_last() =~= Seq::<Node<K, V>>::empty());
            reveal_with_fuel(last_found, 2);
        },
        Plan::Join { gauge, name, left, right } => {
            let a = left.given();
            let b = right.given();
            assert(all_wf(a)) by {
                assert forall|i: int| 0 <= i < a.len() implies (#[trigger] a[i]).wf_at(
                    Bits::root(),
                ) by {
                    assert((a + b)[i] == a[i]);
                }
            }
            assert(all_wf(b)) by {
                assert forall|i: int| 0 <= i < b.len() implies (#[trigger] b[i]).wf_at(
                    Bits::root(),
                ) by {
                    assert((a + b)[a.len() + i] == b[i]);
                }
            }
            lemma_plan_lookup(*left, k);
            lemma_plan_lookup(*right, k);
            lemma_join_wf(gauge, name, left.result(), right.result(), Bits::root());
            lemma_root_routes(k.hash_spec());
            lemma_join_lookup(
                gauge,
                name,
                left.result(),
                right.result(),
                Bits::root(),
                k.hash_spec(),
                k,
            );
            lemma_last_found_concat(a, b, k);
        },
    }
}

/// Joins over groups that share no key. Two plans that join the same
/// well-formed roots, no key held by two of them, end with tries that hold
/// one map: whichever roots are joined first, in whichever order, under
/// whatever names and gauges.
pub proof fn lemma_plans_agree<K: Key, V>(p: Plan<K, V>, q: Plan<K, V>)
    requires
        all_wf(p.given()),
        all_wf(q.given()),
        no_key_twice(p.given()),
        no_key_twice(q.given()),
        forall|x: Node<K, V>| p.given().contains(x) <==> q.given().contains(x),
    ensures
        p.result().as_map() == q.result().as_map(),
{
    assert forall|k: K| #[trigger] p.result().get(k) == q.result().get(k) by {
        lemma_plan_lookup(p, k);
        lemma_plan_lookup(q, k);
        lemma_last_found(p.given(), k);
        lemma_last_found(q.given(), k);
        let a = p.given();
        let b = q.given();
        if last_found(a, k) is Some {
            let i = choose|i: int| 0 <= i < a.len() && (#[trigger] a[i]).get(k) == last_found(a, k);
            assert(a.contains(a[i]));
            assert(b.contains(a[i]));
            let j = choose|j: int| 0 <= j < b.len() && b[j] == a[i];
            assert(b[j].get(k) is Some);
        }
        if last_found(b, k) is Some {
            let i = choose|i: int| 0 <= i < b.len() && (#[trigger] b[i]).get(k) == last_found(b, k);
            assert(b.contains(b[i]));
            assert(a.contains(b[i]));
            let j = choose|j: int| 0 <= j < a.len() && a[j] == b[i];
            assert(a[j].get(k) is Some);
        }
    }
    assert(p.result().as_map() =~= q.result().as_map());
}

/// Gauge-driven branching. Above the last bit of the hash, the join of two
/// leaves is a branch exactly when the two hold at least `gauge` entries;
/// the children of that branch are the two parts of the entries by the bit
/// at the depth of the join.
pub proof fn lemma_join_leaves<K, V>(
    gauge: nat,
    name: Option<Name>,
    a: Seq<(K, HashVal, V)>,
    b: Seq<(K, HashVal, V)>,
    p: Bits,
)
    requires
        p.len < 64,
    ensures
        Node::join(gauge, name, Node::Leaf { bucket: a }, Node::Leaf { bucket: b }, p).has_branch()
            <==> a.len() + b.len() >= gauge,
        a.len() + b.len() >= gauge ==> (Node::join(
            gauge,
            name,
            Node::Leaf { bucket: a },
            Node::Leaf { bucket: b },
            p,
        ) matches Node::Branch { left, right, .. } && *left.value == leaf_or_empty(
            part(a + b, p.len, false),
        ) && *right.value == leaf_or_empty(part(a + b, p.len, true))),
        a.len() + b.len() < gauge ==> Node::join(
            gauge,
            name,
            Node::Leaf { bucket: a },
            Node::Leaf { bucket: b },
            p,
        ) == leaf_or_empty(a + b),
{
}

/// A leaf joined with the empty node stays a leaf, however many entries it
/// holds: no branch comes of such a join.
pub proof fn lemma_join_leaf_with_empty<K, V>(
    gauge: nat,
    name: Option<Name>,
    bucket: Seq<(K, HashVal, V)>,
    p: Bits,
)
    ensures
        !Node::join(gauge, name, Node::Leaf { bucket }, Node::Empty, p).has_branch(),
        !Node::join(gauge, name, Node::Empty, Node::Leaf { bucket }, p).has_branch(),
{
}

} // verus!
