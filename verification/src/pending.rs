//! The pending-merge coordinator: which participant sections have
//! finished preparing to collapse into a target prefix.

use vstd::prelude::*;
use crate::prefix::Prefix;

verus! {

/// A merge in progress: for every participating section prefix, whether
/// it has processed its prefix change and is ready to be combined.
pub struct PendingMerge {
    /// Participant prefixes, strictly sorted, each with its done flag.
    pub complete: Vec<(Prefix, bool)>,
}

impl PendingMerge {
    /// Well-formed: participant prefixes strictly sorted, hence unique.
    pub open spec fn wf(self) -> bool {
        forall|i: int, j: int|
            0 <= i < j < self.complete@.len() ==> self.complete@[i].0.spec_lt(
                self.complete@[j].0,
            )
    }

    /// Whether every participant has signalled completion.
    pub open spec fn spec_is_done(self) -> bool {
        forall|i: int| 0 <= i < self.complete@.len() ==> self.complete@[i].1
    }

    /// A fresh pending merge over the given participant prefixes, none of
    /// them done yet.
    pub fn from_prefixes(pfxs: &Vec<Prefix>) -> (r: PendingMerge)
        requires
            forall|i: int, j: int| 0 <= i < j < pfxs@.len() ==> pfxs@[i].spec_lt(pfxs@[j]),
        ensures
            r.wf(),
            r.complete@.len() == pfxs@.len(),
            forall|i: int| 0 <= i < pfxs@.len() ==> r.complete@[i] == (pfxs@[i], false),
    {
        let mut complete: Vec<(Prefix, bool)> = Vec::new();
        let mut i: usize = 0;
        while i < pfxs.len()
            invariant
                0 <= i <= pfxs@.len(),
                complete@.len() == i,
                forall|k: int| 0 <= k < i ==> complete@[k] == (pfxs@[k], false),
            decreases pfxs@.len() - i,
        {
            complete.push((pfxs[i], false));
            i += 1;
        }
        PendingMerge { complete }
    }

    /// Mark a participant as having completed its prefix change. A prefix
    /// that is no participant changes nothing.
    pub fn completed(&mut self, pfx: Prefix)
        ensures
            final(self).complete@.len() == old(self).complete@.len(),
            forall|i: int|
                0 <= i < old(self).complete@.len() ==> final(self).complete@[i] == (
                old(self).complete@[i].0,
                old(self).complete@[i].1 || old(self).complete@[i].0 == pfx,
                ),
    {
        let mut i: usize = 0;
        while i < self.complete.len()
            invariant
                0 <= i <= self.complete@.len(),
                self.complete@.len() == old(self).complete@.len(),
                forall|k: int|
                    0 <= k < i ==> self.complete@[k] == (
                    old(self).complete@[k].0,
                    old(self).complete@[k].1 || old(self).complete@[k].0 == pfx,
                    ),
                forall|k: int|
                    i <= k < self.complete@.len() ==> self.complete@[k] == old(self).complete@[k],
            decreases self.complete@.len() - i,
        {
            let (k, done) = self.complete[i];
            if k.bits == pfx.bits && k.len == pfx.len {
                self.complete.set(i, (k, true));
            } else {
                self.complete.set(i, (k, done));
            }
            i += 1;
        }
    }

    /// Whether all participants are done and the merge can be finalised.
    pub fn is_done(&self) -> (r: bool)
        ensures
            r == self.spec_is_done(),
    {
        let mut i: usize = 0;
        while i < self.complete.len()
            invariant
                0 <= i <= self.complete@.len(),
                forall|k: int| 0 <= k < i ==> self.complete@[k].1,
            decreases self.complete@.len() - i,
        {
            if !self.complete[i].1 {
                return false;
            }
            i += 1;
        }
        true
    }

    /// Throw the wrapper away and hand out the raw participant map.
    pub fn into_map(self) -> (r: Vec<(Prefix, bool)>)
        ensures
            r@ == self.complete@,
    {
        self.complete
    }
}

} // verus!
