//! Binary prefixes of the 64-bit name space.
//!
//! A `Prefix` stands for the set of all 64-bit names that begin with its
//! bits. Prefixes identify sections; the section keys of a well-formed
//! network partition the whole name space.

use vstd::prelude::*;

verus! {

/// A leading bit-string of a 64-bit name.
///
/// The bits are held right-aligned: `bits` is the value of the first `len`
/// bits of any matching name, shifted down to the low end of the word.
#[derive(Clone, Copy, PartialEq, Eq, Structural, Debug, Hash)]
pub struct Prefix {
    /// The prefix bits, right-aligned.
    pub bits: u64,
    /// How many bits of a name the prefix constrains (0..=64).
    pub len: u64,
}

impl Prefix {
    /// Well-formed: the length fits the name width and no bit above the
    /// length is set.
    pub open spec fn wf(self) -> bool {
        &&& self.len <= 64
        &&& (self.len == 64 || self.bits >> self.len == 0)
    }

    /// Whether `name`'s top `len` bits equal the prefix bits.
    /// The empty prefix matches every name.
    pub open spec fn spec_matches(self, name: u64) -> bool {
        self.len == 0 || name >> ((64 - self.len) as u64) == self.bits
    }

    /// The child prefix: one bit longer, with `bit` appended.
    pub open spec fn spec_extend(self, bit: bool) -> Prefix {
        Prefix {
            bits: (self.bits * 2 + if bit { 1int } else { 0int }) as u64,
            len: (self.len + 1) as u64,
        }
    }

    /// The parent prefix: one bit shorter.
    pub open spec fn spec_shorten(self) -> Prefix {
        Prefix { bits: self.bits / 2, len: (self.len - 1) as u64 }
    }

    /// The sibling prefix: same length, last bit flipped.
    pub open spec fn spec_sibling(self) -> Prefix {
        Prefix { bits: self.bits ^ 1, len: self.len }
    }

    /// Whether `self` is a (proper or improper) leading prefix of `other`.
    pub open spec fn spec_is_ancestor(self, other: Prefix) -> bool {
        &&& self.len <= other.len
        &&& (self.len == 0 || other.bits >> ((other.len - self.len) as u64) == self.bits)
    }

    /// Whether either prefix is an ancestor of the other.
    pub open spec fn spec_is_compatible_with(self, other: Prefix) -> bool {
        self.spec_is_ancestor(other) || other.spec_is_ancestor(self)
    }

    /// Whether the two prefixes have the same length and differ only in
    /// their last bit, i.e. share a parent.
    pub open spec fn spec_is_neighbour(self, other: Prefix) -> bool {
        &&& self.len == other.len
        &&& self.len >= 1
        &&& self.bits ^ other.bits == 1
    }

    /// The total order used for map keys: by bits, then by length.
    pub open spec fn spec_lt(self, other: Prefix) -> bool {
        self.bits < other.bits || (self.bits == other.bits && self.len < other.len)
    }

    /// One name that the prefix matches: the prefix bits padded with zeros.
    pub open spec fn spec_base_name(self) -> u64 {
        if self.len == 0 {
            0u64
        } else {
            self.bits << ((64 - self.len) as u64)
        }
    }

    /// The prefix of length 0, which matches every name.
    pub fn empty() -> (r: Prefix)
        ensures
            r == (Prefix { bits: 0u64, len: 0u64 }),
            r.wf(),
    {
        proof {
            assert(0u64 >> 0u64 == 0u64) by (bit_vector);
        }
        Prefix { bits: 0, len: 0 }
    }

    pub fn matches(&self, name: u64) -> (r: bool)
        requires
            self.wf(),
        ensures
            r == self.spec_matches(name),
    {
        if self.len == 0 {
            true
        } else {
            (name >> ((64 - self.len) as u64)) == self.bits
        }
    }

    /// Append one bit, producing a child prefix of length `len + 1`.
    pub fn extend(&self, bit: bool) -> (r: Prefix)
        requires
            self.wf(),
            self.len < 64,
        ensures
            r == self.spec_extend(bit),
            r.wf(),
            r.len == self.len + 1,
    {
        proof {
            lemma_extend_bits(self.bits, self.len, bit);
        }
        Prefix { bits: (self.bits << 1u64) | (if bit { 1 } else { 0 }), len: self.len + 1 }
    }

    /// Drop the last bit, producing the parent prefix of length `len - 1`.
    pub fn shorten(&self) -> (r: Prefix)
        requires
            self.wf(),
            self.len >= 1,
        ensures
            r == self.spec_shorten(),
            r.wf(),
            r.len == self.len - 1,
    {
        proof {
            lemma_shorten_bits(self.bits, self.len);
        }
        Prefix { bits: self.bits >> 1u64, len: self.len - 1 }
    }

    /// Flip the last bit, producing the sibling prefix of the same length.
    pub fn sibling(&self) -> (r: Prefix)
        requires
            self.wf(),
            self.len >= 1,
        ensures
            r == self.spec_sibling(),
            r.wf(),
    {
        proof {
            lemma_sibling_bits(self.bits, self.len);
        }
        Prefix { bits: self.bits ^ 1, len: self.len }
    }

    pub fn is_ancestor(&self, other: &Prefix) -> (r: bool)
        requires
            self.wf(),
            other.wf(),
        ensures
            r == self.spec_is_ancestor(*other),
    {
        if self.len > other.len {
            false
        } else if self.len == 0 {
            true
        } else {
            (other.bits >> ((other.len - self.len) as u64)) == self.bits
        }
    }

    pub fn is_compatible_with(&self, other: &Prefix) -> (r: bool)
        requires
            self.wf(),
            other.wf(),
        ensures
            r == self.spec_is_compatible_with(*other),
    {
        self.is_ancestor(other) || other.is_ancestor(self)
    }

    pub fn is_neighbour(&self, other: &Prefix) -> (r: bool)
        requires
            self.wf(),
            other.wf(),
        ensures
            r == self.spec_is_neighbour(*other),
    {
        self.len == other.len && self.len >= 1 && (self.bits ^ other.bits) == 1
    }

    /// Strict key order: by bits, then by length.
    pub fn lt(&self, other: &Prefix) -> (r: bool)
        ensures
            r == self.spec_lt(*other),
    {
        self.bits < other.bits || (self.bits == other.bits && self.len < other.len)
    }
}

/// Appending a bit to well-formed prefix bits doubles them and adds the bit.
proof fn lemma_extend_bits(bits: u64, len: u64, bit: bool)
    requires
        len < 64,
        bits >> len == 0,
    ensures
        (bits << 1u64) | (if bit { 1u64 } else { 0u64 }) == bits * 2 + if bit { 1int } else { 0int },
        len + 1 == 64 || (bits * 2 + if bit { 1int } else { 0int }) as u64 >> ((len + 1) as u64) == 0,
{
    let b: u64 = if bit { 1 } else { 0 };
    assert((bits << 1u64) | b == bits * 2 + b && (len + 1 == 64
        || ((bits << 1u64) | b) >> (((len + 1)) as u64) == 0)) by (bit_vector)
        requires
            len < 64,
            bits >> len == 0,
            b == 1 || b == 0,
    ;
}

/// Dropping the last bit of well-formed prefix bits halves them.
proof fn lemma_shorten_bits(bits: u64, len: u64)
    requires
        1 <= len <= 64,
        len == 64 || bits >> len == 0,
    ensures
        bits >> 1u64 == bits / 2,
        (bits / 2) >> ((len - 1) as u64) == 0,
{
    assert(bits >> 1u64 == bits / 2 && (bits >> 1u64) >> ((len - 1) as u64) == 0)
        by (bit_vector)
        requires
            1 <= len <= 64,
            len == 64 || bits >> len == 0,
    ;
}

/// Flipping the last bit keeps the bits below the prefix length.
proof fn lemma_sibling_bits(bits: u64, len: u64)
    requires
        1 <= len <= 64,
        len == 64 || bits >> len == 0,
    ensures
        len == 64 || (bits ^ 1) >> len == 0,
{
    assert(len == 64 || (bits ^ 1) >> len == 0) by (bit_vector)
        requires
            1 <= len <= 64,
            len == 64 || bits >> len == 0,
    ;
}

/// The sibling of the sibling is the original prefix.
pub proof fn lemma_sibling_involution(p: Prefix)
    requires
        p.len >= 1,
    ensures
        p.spec_sibling().spec_sibling() == p,
{
    let bits = p.bits;
    assert((bits ^ 1) ^ 1 == bits) by (bit_vector);
}

/// Extending by either bit and then shortening restores the prefix.
pub proof fn lemma_extend_then_shorten(p: Prefix, bit: bool)
    requires
        p.wf(),
        p.len < 64,
    ensures
        p.spec_extend(bit).spec_shorten() == p,
{
    lemma_extend_bits(p.bits, p.len, bit);
}

/// The empty prefix matches every 64-bit name.
pub proof fn lemma_empty_matches_all()
    ensures
        forall|name: u64| (Prefix { bits: 0u64, len: 0u64 }).spec_matches(name),
{
}

/// A name matches a prefix exactly when it matches exactly one of its
/// two children.
pub proof fn lemma_child_matches(p: Prefix, name: u64)
    requires
        p.wf(),
        p.len < 64,
    ensures
        p.spec_matches(name) <==> (p.spec_extend(false).spec_matches(name)
            || p.spec_extend(true).spec_matches(name)),
        !(p.spec_extend(false).spec_matches(name) && p.spec_extend(true).spec_matches(name)),
{
    let bits = p.bits;
    let len = p.len;
    assert({
        let c0 = (bits * 2) as u64;
        let c1 = (bits * 2 + 1) as u64;
        let cl = (len + 1) as u64;
        &&& ((len == 0 || name >> ((64 - len) as u64) == bits) <==> (name >> ((64 - cl) as u64) == c0 || name
            >> ((64 - cl) as u64) == c1))
        &&& !(name >> ((64 - cl) as u64) == c0 && name >> ((64 - cl) as u64) == c1)
    }) by (bit_vector)
        requires
            len < 64,
            bits >> len == 0,
    ;
}

/// Two prefixes that match a common name are comparable: the shorter is an
/// ancestor of the longer.
pub proof fn lemma_common_name_comparable(a: Prefix, b: Prefix, name: u64)
    requires
        a.wf(),
        b.wf(),
        a.len <= b.len,
        a.spec_matches(name),
        b.spec_matches(name),
    ensures
        a.spec_is_ancestor(b),
{
    let (ab, al, bb, bl) = (a.bits, a.len, b.bits, b.len);
    if al >= 1 {
        lemma_shr_compose(name, (64 - bl) as u64, (bl - al) as u64);
        assert(bb >> ((bl - al) as u64) == ab);
    }
}

/// Every name matched by a descendant is matched by its ancestor.
pub proof fn lemma_ancestor_matches(a: Prefix, b: Prefix, name: u64)
    requires
        a.wf(),
        b.wf(),
        a.spec_is_ancestor(b),
        b.spec_matches(name),
    ensures
        a.spec_matches(name),
{
    let (ab, al, bb, bl) = (a.bits, a.len, b.bits, b.len);
    if al >= 1 {
        lemma_shr_compose(name, (64 - bl) as u64, (bl - al) as u64);
        assert(name >> ((64 - al) as u64) == ab);
    }
}

/// Ancestry is antisymmetric.
pub proof fn lemma_ancestor_antisymmetric(a: Prefix, b: Prefix)
    requires
        a.wf(),
        b.wf(),
        a.spec_is_ancestor(b),
        b.spec_is_ancestor(a),
    ensures
        a == b,
{
    let (ab, al, bb, bl) = (a.bits, a.len, b.bits, b.len);
    if al == 0 {
        lemma_shr_zero(ab);
        lemma_shr_zero(bb);
    } else {
        lemma_shr_zero(bb);
        assert(bb >> ((bl - al) as u64) == ab);
    }
}

/// Ancestry is transitive.
pub proof fn lemma_ancestor_transitive(a: Prefix, b: Prefix, c: Prefix)
    requires
        a.wf(),
        b.wf(),
        c.wf(),
        a.spec_is_ancestor(b),
        b.spec_is_ancestor(c),
    ensures
        a.spec_is_ancestor(c),
{
    let (ab, al, bb, bl, cb, cl) = (a.bits, a.len, b.bits, b.len, c.bits, c.len);
    if al >= 1 {
        lemma_shr_compose(cb, (cl - bl) as u64, (bl - al) as u64);
        assert(cb >> ((cl - al) as u64) == ab);
    }
}

/// Shifting right twice is shifting right by the sum of the amounts.
#[verifier::rlimit(100)]
proof fn lemma_shr_compose(x: u64, m: u64, n: u64)
    requires
        m <= 64,
        n <= 64,
        m + n <= 64,
    ensures
        (x >> m) >> n == x >> ((m + n) as u64),
{
    assert((x >> m) >> n == x >> ((m + n) as u64)) by (bit_vector)
        requires
            m <= 64,
            n <= 64,
            m + n <= 64,
    ;
}

/// Shifting right by zero changes nothing.
proof fn lemma_shr_zero(x: u64)
    ensures
        x >> 0u64 == x,
{
    assert(x >> 0u64 == x) by (bit_vector);
}

/// Every well-formed prefix matches its base name.
pub proof fn lemma_matches_base_name(p: Prefix)
    requires
        p.wf(),
    ensures
        p.spec_matches(p.spec_base_name()),
{
    let (bits, len) = (p.bits, p.len);
    assert(len == 0 || (bits << ((64 - len) as u64)) >> ((64 - len) as u64) == bits) by (bit_vector)
        requires
            len <= 64,
            len == 64 || bits >> len == 0,
    ;
}

/// Ancestry is reflexive.
pub proof fn lemma_ancestor_reflexive(p: Prefix)
    requires
        p.wf(),
    ensures
        p.spec_is_ancestor(p),
{
    lemma_shr_zero(p.bits);
}

/// An empty well-formed prefix has no bits set.
pub proof fn lemma_empty_bits_zero(p: Prefix)
    requires
        p.wf(),
    ensures
        p.len == 0 ==> p.bits == 0,
{
    lemma_shr_zero(p.bits);
}

/// The parent of a prefix is its ancestor.
pub proof fn lemma_shorten_is_ancestor(p: Prefix)
    requires
        p.wf(),
        p.len >= 1,
    ensures
        p.spec_shorten().wf(),
        p.spec_shorten().spec_is_ancestor(p),
{
    lemma_shorten_bits(p.bits, p.len);
}

/// An ancestor strictly above a prefix is an ancestor of its parent too.
pub proof fn lemma_strict_ancestor_shorten(t: Prefix, p: Prefix)
    requires
        t.wf(),
        p.wf(),
        t.spec_is_ancestor(p),
        t.len < p.len,
    ensures
        t.spec_is_ancestor(p.spec_shorten()),
{
    lemma_shorten_bits(p.bits, p.len);
    if t.len >= 1 {
        lemma_shr_compose(p.bits, 1u64, (p.len - 1 - t.len) as u64);
    }
}

/// A strict ancestor matches a name that its descendant misses: the
/// descendant's other side still lies under the ancestor.
pub proof fn lemma_strict_ancestor_gap(t: Prefix, p: Prefix)
    requires
        t.wf(),
        p.wf(),
        t.spec_is_ancestor(p),
        t.len < p.len,
    ensures
        exists|nm: u64| t.spec_matches(nm) && !p.spec_matches(nm),
{
    let pb = p.bits;
    let pl = p.len;
    let tb = t.bits;
    let tl = t.len;
    let s = (pl - tl - 1) as u64;
    let q = pb >> s;
    let f = q ^ 1;
    let nm = (f << ((63 - tl) as u64)) as u64;
    assert(q >> ((tl + 1) as u64) == 0) by (bit_vector)
        requires
            q == pb >> ((pl - tl - 1) as u64),
            tl < pl,
            pl <= 64u64,
            pl == 64 || pb >> pl == 0,
    ;
    assert(f >> ((tl + 1) as u64) == 0) by (bit_vector)
        requires
            f == q ^ 1,
            q >> ((tl + 1) as u64) == 0,
            tl < 64u64,
    ;
    assert(nm >> ((64 - tl) as u64) == f >> 1u64) by (bit_vector)
        requires
            nm == (f << ((63 - tl) as u64)) as u64,
            f >> ((tl + 1) as u64) == 0,
            tl < 64u64,
    ;
    assert(f >> 1u64 == q >> 1u64) by (bit_vector)
        requires
            f == q ^ 1,
    ;
    assert(tl == 0 || q >> 1u64 == tb) by (bit_vector)
        requires
            q == pb >> ((pl - tl - 1) as u64),
            tl == 0 || pb >> ((pl - tl) as u64) == tb,
            tl < pl,
            pl <= 64u64,
    ;
    let g = (f << ((pl - tl - 1) as u64)) as u64;
    assert(nm == (g << ((64 - pl) as u64)) as u64) by (bit_vector)
        requires
            nm == (f << ((63 - tl) as u64)) as u64,
            g == (f << ((pl - tl - 1) as u64)) as u64,
            tl < pl,
            pl <= 64u64,
    ;
    assert(pl == 64 || g >> pl == 0) by (bit_vector)
        requires
            g == (f << ((pl - tl - 1) as u64)) as u64,
            f >> ((tl + 1) as u64) == 0,
            tl < pl,
            pl <= 64u64,
    ;
    assert(((g << ((64 - pl) as u64)) as u64) >> ((64 - pl) as u64) == g) by (bit_vector)
        requires
            pl == 64 || g >> pl == 0,
            1 <= pl <= 64u64,
    ;
    assert(nm >> ((64 - pl) as u64) == g);
    assert(g >> ((pl - tl - 1) as u64) == f) by (bit_vector)
        requires
            g == (f << ((pl - tl - 1) as u64)) as u64,
            f >> ((tl + 1) as u64) == 0,
            tl < pl,
            pl <= 64u64,
    ;
    assert(f != q) by (bit_vector)
        requires
            f == q ^ 1,
    ;
    assert(t.spec_matches(nm));
    assert(!p.spec_matches(nm)) by {
        if nm >> ((64 - pl) as u64) == pb {
            assert(pb == g);
            assert(pb >> ((pl - tl - 1) as u64) == f);
        }
    }
}

/// A descendant that matches every name of an ancestor is the ancestor.
pub proof fn lemma_matches_all_equal(t: Prefix, p: Prefix)
    requires
        t.wf(),
        p.wf(),
        t.spec_is_ancestor(p),
        forall|nm: u64| #[trigger] t.spec_matches(nm) ==> p.spec_matches(nm),
    ensures
        p == t,
{
    if t.len < p.len {
        lemma_strict_ancestor_gap(t, p);
        let nm = choose|nm: u64| t.spec_matches(nm) && !p.spec_matches(nm);
        assert(p.spec_matches(nm));
    } else {
        lemma_shr_zero(p.bits);
        lemma_shr_zero(t.bits);
        assert(p == t);
    }
}

/// Neighbouring prefixes share their parent.
pub proof fn lemma_neighbour_same_parent(a: Prefix, b: Prefix)
    requires
        a.wf(),
        b.wf(),
        a.spec_is_neighbour(b),
    ensures
        a.spec_shorten() == b.spec_shorten(),
{
    let (ab, bb) = (a.bits, b.bits);
    assert(ab ^ bb == 1 ==> ab / 2 == bb / 2) by (bit_vector);
}

/// Neighbouring prefixes are distinct and neither contains the other.
pub proof fn lemma_neighbour_not_compatible(a: Prefix, b: Prefix)
    requires
        a.wf(),
        b.wf(),
        a.spec_is_neighbour(b),
    ensures
        a != b,
        !a.spec_is_ancestor(b),
        !b.spec_is_ancestor(a),
{
    let (ab, bb) = (a.bits, b.bits);
    assert(ab ^ bb == 1 ==> ab != bb) by (bit_vector);
    lemma_shr_zero(ab);
    lemma_shr_zero(bb);
}

/// Whether every prefix in the set is well formed.
pub open spec fn all_wf(s: Set<Prefix>) -> bool {
    forall|p: Prefix| s.contains(p) ==> (#[trigger] p.wf())
}

/// Whether some prefix in the set matches the name.
pub open spec fn covered(s: Set<Prefix>, name: u64) -> bool {
    exists|p: Prefix| #[trigger] s.contains(p) && p.spec_matches(name)
}

/// Whether every 64-bit name is matched by some prefix in the set.
pub open spec fn covers(s: Set<Prefix>) -> bool {
    forall|name: u64| #[trigger] covered(s, name)
}

/// Whether no two distinct prefixes in the set match a common name.
pub open spec fn disjoint(s: Set<Prefix>) -> bool {
    forall|p: Prefix, q: Prefix, name: u64|
        s.contains(p) && s.contains(q) && #[trigger] p.spec_matches(name)
            && #[trigger] q.spec_matches(name) ==> p == q
}

/// Whether the set of prefixes partitions the 64-bit name space:
/// no gaps and no overlaps.
pub open spec fn partitions(s: Set<Prefix>) -> bool {
    covers(s) && disjoint(s)
}

/// The singleton set holding the empty prefix partitions the name space.
pub proof fn lemma_initial_partition()
    ensures
        partitions(set![Prefix { bits: 0u64, len: 0u64 }]),
{
    let e = Prefix { bits: 0u64, len: 0u64 };
    let s = set![e];
    assert forall|name: u64| #[trigger] covered(s, name) by {
        assert(s.contains(e) && e.spec_matches(name));
    }
}

/// Replacing a prefix with its two children preserves the partition.
pub proof fn lemma_split_preserves_partition(s: Set<Prefix>, p: Prefix)
    requires
        all_wf(s),
        partitions(s),
        s.contains(p),
        p.len < 64,
    ensures
        all_wf(s.remove(p).insert(p.spec_extend(false)).insert(p.spec_extend(true))),
        partitions(s.remove(p).insert(p.spec_extend(false)).insert(p.spec_extend(true))),
{
    let c0 = p.spec_extend(false);
    let c1 = p.spec_extend(true);
    let s2 = s.remove(p).insert(c0).insert(c1);
    lemma_extend_then_shorten(p, false);
    lemma_extend_then_shorten(p, true);
    assert(c0.wf() && c1.wf()) by {
        lemma_child_wf(p);
    }
    assert(c0.len == p.len + 1 && c1.len == p.len + 1);
    assert(c0 != p && c1 != p);
    assert(c0 != c1);

    // Coverage: a name matched by p is matched by one child; a name matched
    // by another member is still matched by it.
    assert forall|name: u64| #[trigger] covered(s2, name) by {
        assert(covered(s, name));
        let q0 = choose|q: Prefix| #[trigger] s.contains(q) && q.spec_matches(name);
        if q0 == p {
            lemma_child_matches(p, name);
            if c0.spec_matches(name) {
                assert(s2.contains(c0) && c0.spec_matches(name));
            } else {
                assert(s2.contains(c1) && c1.spec_matches(name));
            }
        } else {
            assert(s2.contains(q0) && q0.spec_matches(name));
        }
    }

    // Disjointness.
    assert forall|a: Prefix, b: Prefix, name: u64|
        s2.contains(a) && s2.contains(b) && #[trigger] a.spec_matches(name)
            && #[trigger] b.spec_matches(name) implies a == b by {
        lemma_child_matches(p, name);
        let a0 = if a == c0 || a == c1 { p } else { a };
        let b0 = if b == c0 || b == c1 { p } else { b };
        assert(s.contains(a0) && a0.spec_matches(name));
        assert(s.contains(b0) && b0.spec_matches(name));
        assert(a0 == b0);
        if a0 == p && a != p && b != p && (a == c0 || a == c1) && (b == c0 || b == c1) {
            assert(a == b);
        }
    }
}

/// Both children of a well-formed prefix are well formed.
proof fn lemma_child_wf(p: Prefix)
    requires
        p.wf(),
        p.len < 64,
    ensures
        p.spec_extend(false).wf(),
        p.spec_extend(true).wf(),
{
    lemma_extend_bits(p.bits, p.len, false);
    lemma_extend_bits(p.bits, p.len, true);
}

/// Replacing all descendants of a target prefix (of which there is at
/// least one) with the target itself preserves the partition.
pub proof fn lemma_merge_preserves_partition(s: Set<Prefix>, t: Prefix)
    requires
        all_wf(s),
        partitions(s),
        t.wf(),
        exists|d: Prefix| #[trigger] s.contains(d) && t.spec_is_ancestor(d),
    ensures
        all_wf(Set::new(|p: Prefix| s.contains(p) && !t.spec_is_ancestor(p)).insert(t)),
        partitions(Set::new(|p: Prefix| s.contains(p) && !t.spec_is_ancestor(p)).insert(t)),
{
    let s2 = Set::new(|p: Prefix| s.contains(p) && !t.spec_is_ancestor(p)).insert(t);
    let d = choose|d: Prefix| #[trigger] s.contains(d) && t.spec_is_ancestor(d);

    // No member of s is a strict ancestor of t.
    assert forall|k: Prefix| s.contains(k) && #[trigger] k.spec_is_ancestor(t) implies k == t by {
        lemma_ancestor_transitive(k, t, d);
        lemma_matches_base_name(d);
        lemma_ancestor_matches(k, d, d.spec_base_name());
        lemma_ancestor_matches(t, d, d.spec_base_name());
        assert(k == d);
        lemma_ancestor_antisymmetric(t, d);
    }

    // Coverage.
    assert forall|name: u64| #[trigger] covered(s2, name) by {
        if t.spec_matches(name) {
            assert(s2.contains(t) && t.spec_matches(name));
        } else {
            assert(covered(s, name));
            let q0 = choose|q: Prefix| #[trigger] s.contains(q) && q.spec_matches(name);
            if t.spec_is_ancestor(q0) {
                lemma_ancestor_matches(t, q0, name);
                assert(false);
            }
            assert(s2.contains(q0) && q0.spec_matches(name));
        }
    }

    // Disjointness.
    assert forall|a: Prefix, b: Prefix, name: u64|
        s2.contains(a) && s2.contains(b) && #[trigger] a.spec_matches(name)
            && #[trigger] b.spec_matches(name) implies a == b by {
        if a != t && b != t {
            assert(s.contains(a) && s.contains(b));
        } else if a == t && b != t {
            lemma_merge_overlap_impossible(s, t, b, name);
        } else if b == t && a != t {
            lemma_merge_overlap_impossible(s, t, a, name);
        }
    }
}

/// A member of the old partition that shares a name with the merge target
/// is related to it: the target's descendant, or the target itself.
proof fn lemma_merge_overlap_impossible(s: Set<Prefix>, t: Prefix, b: Prefix, name: u64)
    requires
        all_wf(s),
        t.wf(),
        s.contains(b),
        t.spec_matches(name),
        b.spec_matches(name),
    ensures
        t.spec_is_ancestor(b) || b.spec_is_ancestor(t),
{
    if t.len <= b.len {
        lemma_common_name_comparable(t, b, name);
    } else {
        lemma_common_name_comparable(b, t, name);
    }
}

} // verus!
