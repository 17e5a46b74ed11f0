//! Hash values and bit prefixes: the path of a node from the root, and the
//! routing of a hash along it, least significant bit first.

use vstd::prelude::*;

verus! {

/// The number of bits of a hash value; no branch lies deeper than this.
pub const HASH_BITS: u32 = 64;

/// The hash of a key.
#[derive(Clone, Copy, Debug, PartialEq, Eq, Structural, Hash)]
pub struct HashVal(pub u64);

/// The path from the root to a node: `len` is the node's depth, and the low
/// `len` bits of `bits` are the turns taken, 0 for left and 1 for right.
#[derive(Clone, Copy, Debug, PartialEq, Eq, Structural, Hash)]
pub struct Bits {
    pub bits: u64,
    pub len: u32,
}

/// The low `len` bits of `h`.
pub open spec fn low_bits(h: u64, len: u32) -> u64 {
    if len >= 64 {
        h
    } else {
        h & (((1u64 << len) - 1) as u64)
    }
}

/// Bit `i` of `h`; a hash has no bits from 64 on.
pub open spec fn bit_at(h: u64, i: u32) -> bool {
    i < 64 && h & (1u64 << i) != 0
}

/// What is left of `h` once `depth` bits are consumed.
pub open spec fn rest(h: u64, depth: u32) -> u64 {
    if depth >= 64 {
        0
    } else {
        h >> depth
    }
}

impl Bits {
    /// The prefix of the root.
    pub open spec fn root() -> Bits {
        Bits { bits: 0, len: 0 }
    }

    /// The prefix of the left child: the same bits, one longer.
    pub open spec fn left(self) -> Bits {
        Bits { bits: self.bits, len: (self.len + 1) as u32 }
    }

    /// The prefix of the right child: bit `len` set, one longer.
    pub open spec fn right(self) -> Bits {
        Bits { bits: self.bits | (1u64 << self.len), len: (self.len + 1) as u32 }
    }

    /// The prefix of the child on the given side, `true` for right.
    pub open spec fn child(self, side: bool) -> Bits {
        if side {
            self.right()
        } else {
            self.left()
        }
    }

    /// The prefixes of the two children.
    pub fn split(&self) -> (r: (Bits, Bits))
        requires
            self.len < HASH_BITS,
        ensures
            r.0 == self.left(),
            r.1 == self.right(),
    {
        let lbits = Bits { len: self.len + 1, bits: self.bits };
        let rbits = Bits { len: self.len + 1, bits: self.bits | (1u64 << self.len) };
        (lbits, rbits)
    }
}

impl HashVal {
    /// Whether the low bits of this hash are those of the prefix `p`.
    pub open spec fn routes_to(self, p: Bits) -> bool {
        low_bits(self.0, p.len) == p.bits
    }

    /// Whether bit `i` of the hash is set.
    pub fn bit(&self, i: u32) -> (r: bool)
        ensures
            r == bit_at(self.0, i),
    {
        i < HASH_BITS && self.0 & (1u64 << i) != 0
    }

    /// Whether the low bits of this hash are those of the prefix `p`.
    pub fn has_prefix(&self, p: &Bits) -> (r: bool)
        ensures
            r == self.routes_to(*p),
    {
        if p.len >= HASH_BITS {
            self.0 == p.bits
        } else {
            let n: u32 = p.len;
            assert((1u64 << n) >= 1) by (bit_vector)
                requires
                    n < 64,
            ;
            self.0 & ((1u64 << n) - 1) == p.bits
        }
    }
}

/// A hash that routes to a prefix routes to the child of that prefix on the
/// side its next bit names.
pub proof fn lemma_routes_to_child(h: HashVal, p: Bits)
    requires
        p.len < 64,
        h.routes_to(p),
    ensures
        h.routes_to(p.child(bit_at(h.0, p.len))),
        !h.routes_to(p.child(!bit_at(h.0, p.len))),
{
    let x = h.0;
    let n = p.len;
    let b = p.bits;
    if n == 63 {
        assert(x & (1u64 << 63) != 0 ==> x == (x & (((1u64 << 63) - 1) as u64)) | (1u64 << 63))
            by (bit_vector);
        assert(x & (1u64 << 63) == 0 ==> x == (x & (((1u64 << 63) - 1) as u64))) by (bit_vector);
        assert(x & (1u64 << 63) == 0 ==> x != (x & (((1u64 << 63) - 1) as u64)) | (1u64 << 63))
            by (bit_vector);
        assert(x & (1u64 << 63) != 0 ==> x != (x & (((1u64 << 63) - 1) as u64))) by (bit_vector);
    } else {
        let m = (n + 1) as u32;
        assert(x & (1u64 << n) != 0 ==> x & (((1u64 << m) - 1) as u64) == (x & (((1u64 << n)
            - 1) as u64)) | (1u64 << n)) by (bit_vector)
            requires
                n < 63,
                m == n + 1,
        ;
        assert(x & (1u64 << n) == 0 ==> x & (((1u64 << m) - 1) as u64) == (x & (((1u64 << n)
            - 1) as u64))) by (bit_vector)
            requires
                n < 63,
                m == n + 1,
        ;
        assert((x & (((1u64 << n) - 1) as u64)) | (1u64 << n) != (x & (((1u64 << n) - 1) as u64)))
            by (bit_vector)
            requires
                n < 63,
        ;
    }
}

/// The cursor of a lookup: its lowest bit is the next bit of the hash, and
/// shifting it by one consumes that bit.
pub proof fn lemma_rest_step(h: u64, depth: u32)
    requires
        depth < 64,
    ensures
        (rest(h, depth) & 1 == 0) == !bit_at(h, depth),
        rest(h, depth) >> 1 == rest(h, (depth + 1) as u32),
{
    assert(((h >> depth) & 1 == 0) == (h & (1u64 << depth) == 0)) by (bit_vector)
        requires
            depth < 64,
    ;
    if depth == 63 {
        assert((h >> 63u32) >> 1 == 0) by (bit_vector);
    } else {
        let m = (depth + 1) as u32;
        assert((h >> depth) >> 1 == h >> m) by (bit_vector)
            requires
                depth < 63,
                m == depth + 1,
        ;
    }
}

/// Every hash routes to the root, and the cursor there is the hash itself.
pub proof fn lemma_root_routes(h: HashVal)
    ensures
        h.routes_to(Bits::root()),
        rest(h.0, 0) == h.0,
{
    let x = h.0;
    assert(x & (((1u64 << 0u32) - 1) as u64) == 0) by (bit_vector);
    assert(x >> 0u32 == x) by (bit_vector);
}

} // verus!
