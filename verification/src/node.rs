//! Nodes: a 64-bit name and an age.

use vstd::prelude::*;
use crate::prefix::Prefix;
use crate::params::DropDist;

verus! {

/// A simulated peer: its current name and its age.
#[derive(Clone, Copy, PartialEq, Eq, Structural, Debug, Hash)]
pub struct Node {
    /// The node's 64-bit name, random at creation.
    pub name: u64,
    /// The node's age; grows by one on each relocation.
    pub age: u8,
}

impl Node {
    /// Adult means age at least 4.
    pub open spec fn spec_is_adult(self) -> bool {
        self.age >= 4
    }

    /// The acceptance modulus of the drop scan: a candidate is dropped
    /// when a fresh random number is divisible by this, so a larger
    /// modulus means a smaller drop probability.
    pub open spec fn spec_drop_modulus(self, dist: DropDist) -> u64 {
        match dist {
            DropDist::Exponential => if self.age < 64 {
                (1u64 << (self.age as u64))
            } else {
                u64::MAX
            },
            DropDist::ReverseProportional => if self.age >= 1 {
                self.age as u64
            } else {
                1u64
            },
        }
    }

    pub fn new(name: u64, age: u8) -> (r: Node)
        ensures
            r == (Node { name, age }),
    {
        Node { name, age }
    }

    pub fn name(&self) -> (r: u64)
        ensures
            r == self.name,
    {
        self.name
    }

    pub fn age(&self) -> (r: u8)
        ensures
            r == self.age,
    {
        self.age
    }

    pub fn is_adult(&self) -> (r: bool)
        ensures
            r == self.spec_is_adult(),
    {
        self.age >= 4
    }

    /// The node comes back after having left: the name is kept, the age
    /// is reset to the configured initial age.
    pub fn rejoined(&mut self, init_age: u8)
        ensures
            final(self).name == old(self).name,
            final(self).age == init_age,
    {
        self.age = init_age;
    }

    /// The name a node relocated under `target` with random bits `r`
    /// receives: the target's bits on top, `r`'s bits below.
    pub open spec fn spec_relocated_name(target: Prefix, r: u64) -> u64 {
        if target.len == 0 {
            r
        } else {
            (target.bits << ((64 - target.len) as u64)) | (r & (if target.len == 64 {
                0u64
            } else {
                u64::MAX >> target.len
            }))
        }
    }

    /// Move the node under `target`: the name is rebuilt from the target's
    /// bits and the random bits `r`, and the age grows by one (saturating).
    pub fn relocate(&mut self, target: &Prefix, r: u64)
        requires
            target.wf(),
        ensures
            final(self).name == Node::spec_relocated_name(*target, r),
            target.spec_matches(final(self).name),
            final(self).age == (if old(self).age < 255 {
                old(self).age + 1
            } else {
                255int
            }),
    {
        if target.len == 0 {
            self.name = r;
        } else {
            let mask: u64 = if target.len == 64 {
                0
            } else {
                u64::MAX >> target.len
            };
            let name = (target.bits << ((64 - target.len) as u64)) | (r & mask);
            proof {
                lemma_relocated_name_matches(target.bits, target.len, r, mask);
            }
            self.name = name;
        }
        self.age = if self.age < 255 {
            self.age + 1
        } else {
            255
        };
    }

    /// The drop-scan acceptance modulus, per the configured distribution.
    pub fn drop_modulus(&self, dist: DropDist) -> (m: u64)
        ensures
            m == self.spec_drop_modulus(dist),
            m >= 1,
    {
        match dist {
            DropDist::Exponential => {
                if self.age < 64 {
                    proof {
                        lemma_shl_positive(self.age as u64);
                    }
                    1u64 << (self.age as u64)
                } else {
                    u64::MAX
                }
            },
            DropDist::ReverseProportional => {
                if self.age >= 1 {
                    self.age as u64
                } else {
                    1
                }
            },
        }
    }

    /// The drop scan's acceptance rule: a fresh draw accepts this node
    /// as the drop victim exactly when the draw is divisible by the
    /// node's age-dependent modulus, so the per-scan acceptance chance
    /// is the reciprocal of the modulus.
    pub fn drop_accepts(&self, roll: u64, dist: DropDist) -> (r: bool)
        ensures
            r == (roll % self.spec_drop_modulus(dist) == 0),
    {
        let m = self.drop_modulus(dist);
        roll % m == 0
    }
}

/// A name rebuilt from a target prefix and random low bits matches the
/// target prefix.
proof fn lemma_relocated_name_matches(bits: u64, len: u64, r: u64, mask: u64)
    requires
        1 <= len <= 64,
        len == 64 || bits >> len == 0,
        len == 64 ==> mask == 0,
        len < 64 ==> mask == u64::MAX >> len,
    ensures
        ((bits << ((64 - len) as u64)) | (r & mask)) >> ((64 - len) as u64) == bits,
{
    assert(((bits << ((64 - len) as u64)) | (r & mask)) >> ((64 - len) as u64) == bits)
        by (bit_vector)
        requires
            1 <= len <= 64,
            len == 64 || bits >> len == 0,
            len == 64 ==> mask == 0,
            len < 64 ==> mask == u64::MAX >> len,
    ;
}

/// A power of two below the word width is positive.
proof fn lemma_shl_positive(e: u64)
    requires
        e < 64,
    ensures
        1u64 << e >= 1,
{
    assert(e < 64 ==> 1u64 << e >= 1) by (bit_vector);
}

/// With the exponential distribution, equal ages weigh equally, and a
/// strictly greater age has a strictly greater acceptance modulus, hence
/// a strictly smaller chance of being dropped on each scan step. The
/// strict claim stops where the modulus saturates the word: from age 64
/// up, all moduli equal `u64::MAX`.
pub proof fn lemma_drop_weighting(a: Node, b: Node)
    ensures
        a.age == b.age ==> a.spec_drop_modulus(DropDist::Exponential) == b.spec_drop_modulus(
            DropDist::Exponential,
        ),
        a.age < b.age && a.age < 64 ==> a.spec_drop_modulus(DropDist::Exponential)
            < b.spec_drop_modulus(DropDist::Exponential),
{
    let (x, y) = (a.age as u64, b.age as u64);
    assert(x < y && y < 64 ==> (1u64 << x) < (1u64 << y)) by (bit_vector);
    assert(x < 64 ==> (1u64 << x) < u64::MAX) by (bit_vector);
}

} // verus!
