//! Sections: the per-prefix node sets and their event state machine.

use vstd::prelude::*;
use crate::churn::{NetworkEvent, SectionEvent};
use crate::node::Node;
use crate::params::{Params, SplitStrategy};
use crate::prefix::Prefix;

verus! {

/// Whether the nodes are strictly sorted by name (so names are unique).
pub open spec fn sorted_by_name(s: Seq<Node>) -> bool {
    forall|i: int, j: int| 0 <= i < j < s.len() ==> s[i].name < s[j].name
}

/// Whether some node in the sequence carries this name.
pub open spec fn has_name(s: Seq<Node>, name: u64) -> bool {
    exists|i: int| 0 <= i < s.len() && s[i].name == name
}

/// How many nodes of the sequence satisfy the predicate.
pub open spec fn count_nodes(s: Seq<Node>, pred: spec_fn(Node) -> bool) -> nat
    decreases s.len(),
{
    if s.len() == 0 {
        0
    } else {
        count_nodes(s.drop_last(), pred) + if pred(s.last()) {
            1nat
        } else {
            0nat
        }
    }
}

/// Counting a prefix of the sequence, one element further.
pub proof fn lemma_count_take_step(s: Seq<Node>, pred: spec_fn(Node) -> bool, i: int)
    requires
        0 <= i < s.len(),
    ensures
        count_nodes(s.take(i + 1), pred) == count_nodes(s.take(i), pred) + if pred(s[i]) {
            1int
        } else {
            0int
        },
{
    assert(s.take(i + 1).drop_last() =~= s.take(i));
    assert(s.take(i + 1).last() == s[i]);
}

/// Counting the whole sequence is counting its full prefix.
pub proof fn lemma_count_take_full(s: Seq<Node>, pred: spec_fn(Node) -> bool)
    ensures
        count_nodes(s.take(s.len() as int), pred) == count_nodes(s, pred),
{
    assert(s.take(s.len() as int) =~= s);
}

/// The count never exceeds the length.
pub proof fn lemma_count_le_len(s: Seq<Node>, pred: spec_fn(Node) -> bool)
    ensures
        count_nodes(s, pred) <= s.len(),
    decreases s.len(),
{
    if s.len() > 0 {
        lemma_count_le_len(s.drop_last(), pred);
    }
}

/// Whether `a` takes elder precedence over `b`: higher age first, then
/// smaller name.
pub open spec fn outranks(a: Node, b: Node) -> bool {
    a.age > b.age || (a.age == b.age && a.name < b.name)
}

/// The new member set after inserting a node, replacing any node of the
/// same name.
pub open spec fn spec_inserted(pre: Seq<Node>, node: Node, post: Seq<Node>) -> bool {
    &&& sorted_by_name(post)
    &&& forall|m: Node|
        post.contains(m) <==> (m == node || (pre.contains(m) && m.name != node.name))
}

/// The new member set after removing the node of the given name, if any.
pub open spec fn spec_removed(pre: Seq<Node>, name: u64, post: Seq<Node>) -> bool {
    &&& sorted_by_name(post)
    &&& forall|m: Node| post.contains(m) <==> (pre.contains(m) && m.name != name)
}


/// Whether a node of this age is due for relocation at this counter
/// value: the counter is exactly two to the power of one less than the
/// age.
pub open spec fn spec_due(age: u8, c: u64) -> bool {
    1 <= age <= 64 && (1u64 << ((age - 1) as u64)) == c
}

/// The first node, in name order, whose age is due at this counter.
pub open spec fn first_due(s: Seq<Node>, c: u64) -> Option<Node>
    decreases s.len(),
{
    if s.len() == 0 {
        None
    } else if spec_due(s[0].age, c) {
        Some(s[0])
    } else {
        first_due(s.subrange(1, s.len() as int), c)
    }
}

/// Skipping a not-due head leaves the first due node unchanged.
proof fn lemma_first_due_from(s: Seq<Node>, c: u64, i: int)
    requires
        0 <= i <= s.len(),
        forall|k: int| 0 <= k < i ==> !spec_due(s[k].age, c),
    ensures
        first_due(s, c) == first_due(s.subrange(i, s.len() as int), c),
    decreases i,
{
    if i > 0 {
        let s1 = s.subrange(1, s.len() as int);
        assert(s.subrange(0, s.len() as int) =~= s);
        lemma_first_due_from(s1, c, i - 1);
        assert(s1.subrange(i - 1, s1.len() as int) =~= s.subrange(i, s.len() as int));
    } else {
        assert(s.subrange(0, s.len() as int) =~= s);
    }
}

/// Whether the counter value triggers a relocation check: it is a power
/// of two.
pub open spec fn spec_tick(c: u64) -> bool {
    c >= 1 && c & ((c - 1) as u64) == 0
}

/// The ageing counter after one counting event: grows by one, saturating.
pub open spec fn spec_bump(c: u64) -> u64 {
    if c < u64::MAX {
        (c + 1) as u64
    } else {
        c
    }
}


/// The node one relocation older: same name, age grown by one, saturating.
pub open spec fn spec_aged(n: Node) -> Node {
    Node { name: n.name, age: if n.age < 255 { (n.age + 1) as u8 } else { n.age } }
}

/// Every node of the sequence, one year older.
pub open spec fn aged_all(s: Seq<Node>) -> Seq<Node> {
    s.map_values(|n: Node| spec_aged(n))
}

/// The sequence with ages grown when the flag is set.
pub open spec fn maybe_aged(s: Seq<Node>, inc: bool) -> Seq<Node> {
    if inc {
        aged_all(s)
    } else {
        s
    }
}

/// The subsequence of nodes whose names match the prefix, in order.
pub open spec fn filter_matching(s: Seq<Node>, p: Prefix) -> Seq<Node>
    decreases s.len(),
{
    if s.len() == 0 {
        Seq::<Node>::empty()
    } else {
        let rest = filter_matching(s.drop_last(), p);
        if p.spec_matches(s.last().name) {
            rest.push(s.last())
        } else {
            rest
        }
    }
}

/// Filtering keeps exactly the matching nodes and keeps the name order.
pub proof fn lemma_filter_matching_props(s: Seq<Node>, p: Prefix)
    ensures
        forall|m: Node|
            #[trigger] filter_matching(s, p).contains(m) <==> (s.contains(m) && p.spec_matches(
                m.name,
            )),
        sorted_by_name(s) ==> sorted_by_name(filter_matching(s, p)),
        filter_matching(s, p).len() <= s.len(),
    decreases s.len(),
{
    if s.len() > 0 {
        let s0 = s.drop_last();
        lemma_filter_matching_props(s0, p);
        let f0 = filter_matching(s0, p);
        let f = filter_matching(s, p);
        assert forall|m: Node| #[trigger] f.contains(m) implies (s.contains(m) && p.spec_matches(
            m.name,
        )) by {
            let k = choose|k: int| 0 <= k < f.len() && f[k] == m;
            if p.spec_matches(s.last().name) && k == f.len() - 1 {
                assert(m == s.last());
                assert(s[s.len() - 1] == m);
            } else {
                assert(f0[k] == m);
                assert(f0.contains(m));
                let j = choose|j: int| 0 <= j < s0.len() && s0[j] == m;
                assert(s[j] == m);
            }
        }
        assert forall|m: Node| (s.contains(m) && p.spec_matches(m.name)) implies #[trigger] f
            .contains(m) by {
            let k = choose|k: int| 0 <= k < s.len() && s[k] == m;
            if k == s.len() - 1 {
                assert(f[f.len() - 1] == m);
            } else {
                assert(s0[k] == m);
                assert(s0.contains(m));
                assert(f0.contains(m));
                let j = choose|j: int| 0 <= j < f0.len() && f0[j] == m;
                assert(f[j] == m);
            }
        }
        if sorted_by_name(s) {
            assert(sorted_by_name(s0));
            if p.spec_matches(s.last().name) {
                assert forall|a: int, b: int| 0 <= a < b < f.len() implies f[a].name
                    < f[b].name by {
                    if b == f.len() - 1 {
                        assert(f0.contains(f[a]));
                        let j = choose|j: int| 0 <= j < s0.len() && s0[j] == f[a];
                        assert(s[j].name < s.last().name);
                    }
                }
            }
        }
    }
}

/// The members due for relocation at the section's own counter and not
/// sheltered by an elder seat, in name order.
pub open spec fn filter_due(sec: Section, s: Seq<Node>) -> Seq<Node>
    decreases s.len(),
{
    if s.len() == 0 {
        Seq::<Node>::empty()
    } else {
        let rest = filter_due(sec, s.drop_last());
        if spec_due(s.last().age, sec.counter) && !sec.spec_is_elder(s.last()) {
            rest.push(s.last())
        } else {
            rest
        }
    }
}

/// The subsequence of nodes that are elders of the section, in order.
pub open spec fn filter_elders(sec: Section, s: Seq<Node>) -> Seq<Node>
    decreases s.len(),
{
    if s.len() == 0 {
        Seq::<Node>::empty()
    } else {
        let rest = filter_elders(sec, s.drop_last());
        if sec.spec_is_elder(s.last()) {
            rest.push(s.last())
        } else {
            rest
        }
    }
}

/// Ageing a sequence of nodes keeps exactly the names it had.
pub proof fn lemma_aged_has_name(s: Seq<Node>)
    ensures
        forall|nm: u64| #[trigger] has_name(aged_all(s), nm) <==> has_name(s, nm),
{
    assert forall|nm: u64| #[trigger] has_name(aged_all(s), nm) implies has_name(s, nm) by {
        let i = choose|i: int| 0 <= i < aged_all(s).len() && aged_all(s)[i].name == nm;
        assert(s[i].name == nm);
    }
    assert forall|nm: u64| has_name(s, nm) implies #[trigger] has_name(aged_all(s), nm) by {
        let i = choose|i: int| 0 <= i < s.len() && s[i].name == nm;
        assert(aged_all(s)[i].name == nm);
    }
}

/// A section: one prefix's slice of the network and the nodes that live
/// in it.
pub struct Section {
    /// The prefix identifying the section's slice of the name space.
    pub prefix: Prefix,
    /// The member nodes, strictly sorted by name.
    pub members: Vec<Node>,
    /// The ageing counter, incremented on counting events.
    pub counter: u64,
    /// Whether the section is in the middle of a merge.
    pub merging: bool,
}

impl Section {
    /// Well-formed: the prefix is well formed and the members are strictly
    /// sorted by name.
    pub open spec fn wf(self) -> bool {
        &&& self.prefix.wf()
        &&& sorted_by_name(self.members@)
    }

    /// A fresh, empty section for the given prefix.
    pub fn new(prefix: Prefix) -> (r: Section)
        requires
            prefix.wf(),
        ensures
            r.wf(),
            r.prefix == prefix,
            r.members@ =~= Seq::<Node>::empty(),
            r.counter == 0u64,
            !r.merging,
    {
        Section { prefix, members: Vec::new(), counter: 0, merging: false }
    }

    pub fn len(&self) -> (r: usize)
        ensures
            r == self.members@.len(),
    {
        self.members.len()
    }

    pub fn prefix(&self) -> (r: Prefix)
        ensures
            r == self.prefix,
    {
        self.prefix
    }

    /// The members, in name order.
    pub fn nodes(&self) -> (r: &Vec<Node>)
        ensures
            r@ == self.members@,
    {
        &self.members
    }

    /// Insert a node, replacing any member of the same name.
    pub fn add_node(&mut self, node: Node)
        requires
            old(self).wf(),
        ensures
            final(self).wf(),
            final(self).prefix == old(self).prefix,
            final(self).counter == old(self).counter,
            final(self).merging == old(self).merging,
            spec_inserted(old(self).members@, node, final(self).members@),
    {
        let ghost pre = self.members@;
        let mut i: usize = 0;
        while i < self.members.len() && self.members[i].name < node.name
            invariant
                0 <= i <= pre.len(),
                self.members@ == pre,
                sorted_by_name(pre),
                forall|k: int| 0 <= k < i ==> pre[k].name < node.name,
            decreases pre.len() - i,
        {
            i += 1;
        }
        if i < self.members.len() && self.members[i].name == node.name {
            self.members.set(i, node);
            proof {
                let post = self.members@;
                assert forall|m: Node| post.contains(m) implies (m == node || (pre.contains(m)
                    && m.name != node.name)) by {
                    let k = choose|k: int| 0 <= k < post.len() && post[k] == m;
                    if k != i {
                        assert(pre[k] == m);
                    }
                }
                assert forall|m: Node| (m == node || (pre.contains(m) && m.name != node.name))
                    implies post.contains(m) by {
                    if m == node {
                        assert(post[i as int] == m);
                    } else {
                        let k = choose|k: int| 0 <= k < pre.len() && pre[k] == m;
                        assert(k != i);
                        assert(post[k] == m);
                    }
                }
            }
        } else {
            self.members.insert(i, node);
            proof {
                let post = self.members@;
                assert(post == pre.insert(i as int, node));
                assert forall|a: int, b: int| 0 <= a < b < post.len() implies post[a].name
                    < post[b].name by {
                    if a < i && b > i {
                        assert(post[a] == pre[a] && post[b] == pre[b - 1]);
                        if !(pre[a].name < node.name) {
                        }
                    }
                }
                assert forall|m: Node| post.contains(m) implies (m == node || (pre.contains(m)
                    && m.name != node.name)) by {
                    let k = choose|k: int| 0 <= k < post.len() && post[k] == m;
                    if k < i {
                        assert(pre[k] == m);
                        assert(pre[k].name < node.name);
                    } else if k > i {
                        assert(pre[k - 1] == m);
                        assert(pre[k - 1].name >= node.name);
                        assert(pre[k - 1].name != node.name);
                    }
                }
                assert forall|m: Node| (m == node || (pre.contains(m) && m.name != node.name))
                    implies post.contains(m) by {
                    if m == node {
                        assert(post[i as int] == m);
                    } else {
                        let k = choose|k: int| 0 <= k < pre.len() && pre[k] == m;
                        if k < i {
                            assert(post[k] == m);
                        } else {
                            assert(post[k + 1] == m);
                        }
                    }
                }
            }
        }
    }

    /// Remove and return the member of the given name, if present.
    pub fn remove_by_name(&mut self, name: u64) -> (r: Option<Node>)
        requires
            old(self).wf(),
        ensures
            final(self).wf(),
            final(self).prefix == old(self).prefix,
            final(self).counter == old(self).counter,
            final(self).merging == old(self).merging,
            match r {
                Some(n) => {
                    &&& old(self).members@.contains(n)
                    &&& n.name == name
                    &&& spec_removed(old(self).members@, name, final(self).members@)
                },
                None => {
                    &&& !has_name(old(self).members@, name)
                    &&& final(self).members@ == old(self).members@
                },
            },
    {
        let ghost pre = self.members@;
        let mut i: usize = 0;
        while i < self.members.len() && self.members[i].name != name
            invariant
                0 <= i <= pre.len(),
                self.members@ == pre,
                forall|k: int| 0 <= k < i ==> pre[k].name != name,
            decreases pre.len() - i,
        {
            i += 1;
        }
        if i < self.members.len() {
            let n = self.members.remove(i);
            proof {
                let post = self.members@;
                assert(post == pre.remove(i as int));
                assert forall|m: Node| post.contains(m) implies (pre.contains(m) && m.name
                    != name) by {
                    let k = choose|k: int| 0 <= k < post.len() && post[k] == m;
                    if k < i {
                        assert(pre[k] == m);
                    } else {
                        assert(pre[k + 1] == m);
                        assert(pre[k + 1].name > pre[i as int].name);
                    }
                }
                assert forall|m: Node| (pre.contains(m) && m.name != name) implies post.contains(
                    m,
                ) by {
                    let k = choose|k: int| 0 <= k < pre.len() && pre[k] == m;
                    assert(k != i);
                    if k < i {
                        assert(post[k] == m);
                    } else {
                        assert(post[k - 1] == m);
                    }
                }
            }
            Some(n)
        } else {
            None
        }
    }

    /// How many members outrank the node in the elder order.
    pub open spec fn spec_num_outranking(self, n: Node) -> nat {
        count_nodes(self.members@, |m: Node| outranks(m, n))
    }

    /// An elder: a member with fewer than `GROUP_SIZE` members outranking
    /// it, i.e. one of the eight eldest, ties broken by smaller name.
    pub open spec fn spec_is_elder(self, n: Node) -> bool {
        self.members@.contains(n) && self.spec_num_outranking(n) < 8
    }

    /// How many members are elders.
    pub open spec fn spec_elder_count(self) -> nat {
        count_nodes(self.members@, |m: Node| self.spec_is_elder(m))
    }

    /// How many members are young elders (elders below the adult age).
    pub open spec fn spec_young_elder_count(self) -> nat {
        count_nodes(self.members@, |m: Node| self.spec_is_elder(m) && m.age < 4)
    }

    /// Complete: at least a full group of elders, all adults.
    pub open spec fn spec_is_complete(self) -> bool {
        &&& self.spec_elder_count() >= 8
        &&& forall|m: Node| self.spec_is_elder(m) ==> m.age >= 4
    }

    /// Count the members that outrank `n` in the elder order.
    pub fn count_outranking(&self, n: &Node) -> (c: usize)
        ensures
            c == self.spec_num_outranking(*n),
    {
        let ghost pred = |m: Node| outranks(m, *n);
        let mut c: usize = 0;
        let mut i: usize = 0;
        proof {
            lemma_count_le_len(self.members@, pred);
        }
        while i < self.members.len()
            invariant
                0 <= i <= self.members@.len(),
                c == count_nodes(self.members@.take(i as int), pred),
                c <= i,
                pred == (|m: Node| outranks(m, *n)),
            decreases self.members@.len() - i,
        {
            proof {
                lemma_count_take_step(self.members@, pred, i as int);
            }
            let m = self.members[i];
            if m.age > n.age || (m.age == n.age && m.name < n.name) {
                c += 1;
            }
            i += 1;
        }
        proof {
            lemma_count_take_full(self.members@, pred);
        }
        c
    }

    /// Whether the node is one of the section's elders.
    pub fn is_elder_node(&self, n: &Node) -> (r: bool)
        ensures
            r == self.spec_is_elder(*n),
    {
        let mut found = false;
        let mut i: usize = 0;
        while i < self.members.len()
            invariant
                0 <= i <= self.members@.len(),
                found == exists|k: int| 0 <= k < i && self.members@[k] == *n,
            decreases self.members@.len() - i,
        {
            if self.members[i].name == n.name && self.members[i].age == n.age {
                found = true;
            }
            i += 1;
        }
        if !found {
            return false;
        }
        self.count_outranking(n) < 8
    }

    /// The elders, in name order.
    pub fn elders(&self) -> (r: Vec<Node>)
        requires
            self.wf(),
        ensures
            sorted_by_name(r@),
            forall|m: Node| #[trigger] r@.contains(m) <==> self.spec_is_elder(m),
            r@ == filter_elders(*self, self.members@),
    {
        let mut r: Vec<Node> = Vec::new();
        let mut i: usize = 0;
        while i < self.members.len()
            invariant
                self.wf(),
                0 <= i <= self.members@.len(),
                forall|m: Node|
                    #[trigger] r@.contains(m) <==> (self.members@.take(i as int).contains(m)
                        && self.spec_num_outranking(m) < 8),
                sorted_by_name(r@),
                r@ == filter_elders(*self, self.members@.take(i as int)),
            decreases self.members@.len() - i,
        {
            let ghost pre_r = r@;
            let ghost t0 = self.members@.take(i as int);
            let ghost t1 = self.members@.take(i as int + 1);
            proof {
                assert(t1 =~= t0.push(self.members@[i as int]));
                assert(t1.drop_last() =~= t0);
                assert(self.members@.contains(self.members@[i as int]));
            }
            let m = self.members[i];
            let is_el = self.count_outranking(&m) < 8;
            if is_el {
                proof {
                    assert forall|j: int| 0 <= j < pre_r.len() implies pre_r[j].name
                        < m.name by {
                        assert(pre_r.contains(pre_r[j]));
                        assert(t0.contains(pre_r[j]));
                        let k = choose|k: int| 0 <= k < t0.len() && t0[k] == pre_r[j];
                        assert(self.members@[k] == pre_r[j]);
                    }
                }
                r.push(m);
            }
            proof {
                assert forall|m2: Node| #[trigger] r@.contains(m2) implies (t1.contains(m2)
                    && self.spec_num_outranking(m2) < 8) by {
                    if pre_r.contains(m2) {
                        let k = choose|k: int| 0 <= k < t0.len() && t0[k] == m2;
                        assert(t1[k] == m2);
                    } else {
                        assert(is_el);
                        assert(r@ == pre_r.push(m));
                        let k = choose|k: int| 0 <= k < r@.len() && r@[k] == m2;
                        if k < pre_r.len() {
                            assert(pre_r[k] == m2);
                        }
                        assert(m2 == m);
                        assert(t1[t1.len() - 1] == m2);
                    }
                }
                assert forall|m2: Node| (t1.contains(m2) && self.spec_num_outranking(m2) < 8)
                    implies #[trigger] r@.contains(m2) by {
                    let k = choose|k: int| 0 <= k < t1.len() && t1[k] == m2;
                    if k < t0.len() {
                        assert(t0[k] == m2);
                        assert(t0.contains(m2));
                        assert(pre_r.contains(m2));
                        if is_el {
                            assert(r@ == pre_r.push(m));
                            let j = choose|j: int| 0 <= j < pre_r.len() && pre_r[j] == m2;
                            assert(r@[j] == m2);
                        }
                    } else {
                        assert(m2 == self.members@[i as int]);
                        assert(is_el);
                        assert(r@[r@.len() - 1] == m2);
                    }
                }
            }
            i += 1;
        }
        proof {
            assert(self.members@.take(self.members@.len() as int) =~= self.members@);
        }
        r
    }

    /// Whether the section is complete: a full group of elders, all of
    /// adult age.
    pub fn is_complete(&self) -> (r: bool)
        requires
            self.wf(),
        ensures
            r == self.spec_is_complete(),
    {
        let ghost pred = |m: Node| self.spec_is_elder(m);
        let mut c: usize = 0;
        let mut all_adult = true;
        let mut i: usize = 0;
        proof {
            lemma_count_le_len(self.members@, pred);
        }
        while i < self.members.len()
            invariant
                self.wf(),
                0 <= i <= self.members@.len(),
                c == count_nodes(self.members@.take(i as int), pred),
                c <= i,
                pred == (|m: Node| self.spec_is_elder(m)),
                all_adult == forall|k: int|
                    0 <= k < i && self.spec_is_elder(self.members@[k]) ==> self.members@[k].age
                        >= 4,
            decreases self.members@.len() - i,
        {
            proof {
                lemma_count_take_step(self.members@, pred, i as int);
                assert(self.members@.contains(self.members@[i as int]));
            }
            let m = self.members[i];
            if self.count_outranking(&m) < 8 {
                c += 1;
                if m.age < 4 {
                    all_adult = false;
                }
            }
            i += 1;
        }
        proof {
            lemma_count_take_full(self.members@, pred);
            if c >= 8 && all_adult {
                assert forall|m: Node| self.spec_is_elder(m) implies m.age >= 4 by {
                    let k = choose|k: int|
                        0 <= k < self.members@.len() && self.members@[k] == m;
                }
            }
            if !all_adult {
                let k = choose|k: int|
                    0 <= k < self.members@.len() && self.spec_is_elder(self.members@[k])
                        && self.members@[k].age < 4;
            }
        }
        c >= 8 && all_adult
    }


    /// Find the first member, in name order, due for relocation at this
    /// counter value.
    pub fn find_due(&self, c: u64) -> (r: Option<Node>)
        ensures
            r == first_due(self.members@, c),
    {
        let ghost sq = self.members@;
        let mut i: usize = 0;
        while i < self.members.len()
            invariant
                0 <= i <= sq.len(),
                self.members@ == sq,
                forall|k: int| 0 <= k < i ==> !spec_due(sq[k].age, c),
            decreases sq.len() - i,
        {
            let m = self.members[i];
            if 1 <= m.age && m.age <= 64 && (1u64 << ((m.age - 1) as u64)) == c {
                proof {
                    lemma_first_due_from(sq, c, i as int);
                    assert(sq.subrange(i as int, sq.len() as int)[0] == sq[i as int]);
                }
                return Some(m);
            }
            i += 1;
        }
        proof {
            lemma_first_due_from(sq, c, sq.len() as int);
            assert(sq.subrange(sq.len() as int, sq.len() as int) =~= Seq::<Node>::empty());
        }
        None
    }

    /// The members whose age is due at the section's counter and who
    /// hold no elder seat: the ones a split must relocate.
    pub fn due_members(&self) -> (r: Vec<Node>)
        requires
            self.wf(),
        ensures
            r@ == filter_due(*self, self.members@),
    {
        let mut r: Vec<Node> = Vec::new();
        let mut i: usize = 0;
        while i < self.members.len()
            invariant
                self.wf(),
                0 <= i <= self.members@.len(),
                r@ == filter_due(*self, self.members@.take(i as int)),
            decreases self.members@.len() - i,
        {
            proof {
                assert(self.members@.take(i + 1).drop_last() =~= self.members@.take(i as int));
                assert(self.members@.take(i + 1).last() == self.members@[i as int]);
                assert(self.members@.contains(self.members@[i as int]));
            }
            let m = self.members[i];
            if 1 <= m.age && m.age <= 64 && (1u64 << ((m.age - 1) as u64)) == self.counter
                && !(self.count_outranking(&m) < 8) {
                r.push(m);
            }
            i += 1;
        }
        proof {
            assert(self.members@.take(self.members@.len() as int) =~= self.members@);
        }
        r
    }

    /// Whether the section has reached its split threshold.
    pub open spec fn spec_split_due(self, params: Params) -> bool {
        &&& self.prefix.len < 64
        &&& match params.split_strategy {
            SplitStrategy::Always => self.members@.len() >= 16,
            SplitStrategy::Complete => {
                &&& count_nodes(
                    self.members@,
                    |m: Node| m.age >= 4 && self.prefix.spec_extend(false).spec_matches(m.name),
                ) >= 8
                &&& count_nodes(
                    self.members@,
                    |m: Node| m.age >= 4 && self.prefix.spec_extend(true).spec_matches(m.name),
                ) >= 8
            },
        }
    }

    /// Whether the section should split: under the `Always` strategy,
    /// whenever it holds two groups' worth of nodes; under `Complete`,
    /// when both prospective children would hold a full group of adults.
    pub fn split_due(&self, params: &Params) -> (r: bool)
        requires
            self.wf(),
        ensures
            r == self.spec_split_due(*params),
    {
        if self.prefix.len >= 64 {
            return false;
        }
        match params.split_strategy {
            SplitStrategy::Always => self.members.len() >= 16,
            SplitStrategy::Complete => {
                let c0 = self.prefix.extend(false);
                let c1 = self.prefix.extend(true);
                let ghost p0 = |m: Node| m.age >= 4 && self.prefix.spec_extend(false).spec_matches(
                    m.name,
                );
                let ghost p1 = |m: Node| m.age >= 4 && self.prefix.spec_extend(true).spec_matches(
                    m.name,
                );
                let mut n0: usize = 0;
                let mut n1: usize = 0;
                let mut i: usize = 0;
                proof {
                    lemma_count_le_len(self.members@, p0);
                    lemma_count_le_len(self.members@, p1);
                }
                while i < self.members.len()
                    invariant
                        self.wf(),
                        0 <= i <= self.members@.len(),
                        c0 == self.prefix.spec_extend(false),
                        c1 == self.prefix.spec_extend(true),
                        c0.wf(),
                        c1.wf(),
                        n0 == count_nodes(self.members@.take(i as int), p0),
                        n1 == count_nodes(self.members@.take(i as int), p1),
                        n0 <= i,
                        n1 <= i,
                        p0 == (|m: Node| m.age >= 4 && self.prefix.spec_extend(
                            false,
                        ).spec_matches(m.name)),
                        p1 == (|m: Node| m.age >= 4 && self.prefix.spec_extend(
                            true,
                        ).spec_matches(m.name)),
                    decreases self.members@.len() - i,
                {
                    proof {
                        lemma_count_take_step(self.members@, p0, i as int);
                        lemma_count_take_step(self.members@, p1, i as int);
                    }
                    let m = self.members[i];
                    if m.age >= 4 && c0.matches(m.name) {
                        n0 += 1;
                    }
                    if m.age >= 4 && c1.matches(m.name) {
                        n1 += 1;
                    }
                    i += 1;
                }
                proof {
                    lemma_count_take_full(self.members@, p0);
                    lemma_count_take_full(self.members@, p1);
                }
                n0 >= 8 && n1 >= 8
            },
        }
    }


    /// Whether the section turns this join away: it is merging, or the
    /// young-elder cap is on and a young node finds it already full.
    pub open spec fn spec_rejects(self, node: Node, params: Params) -> bool {
        self.merging || (params.max_young > 0 && node.age < 4 && self.spec_young_elder_count()
            >= params.max_young)
    }

    /// The events an accepted counting join provokes, computed on the
    /// state after the insertion: a relocation candidate when the ageing
    /// counter lands on a power of two, and a split request when the
    /// threshold is reached.
    pub open spec fn spec_live_followup(post: Section, counts: bool, params: Params) -> Seq<
        SectionEvent,
    > {
        let reloc = if counts && spec_tick(post.counter) {
            match first_due(post.members@, post.counter) {
                Some(cand) => if !post.spec_is_elder(cand) {
                    seq![SectionEvent::NeedRelocate(cand)]
                } else {
                    Seq::<SectionEvent>::empty()
                },
                None => Seq::<SectionEvent>::empty(),
            }
        } else {
            Seq::<SectionEvent>::empty()
        };
        let split = if post.spec_split_due(params) {
            seq![SectionEvent::RequestSplit]
        } else {
            Seq::<SectionEvent>::empty()
        };
        reloc + split
    }

    /// The section's event state machine: consume one network event,
    /// update the membership, counter, prefix and merging flag, and
    /// report the section events the network must act on.
    pub fn handle_event(&mut self, event: NetworkEvent, params: &Params) -> (r: Vec<SectionEvent>)
        requires
            old(self).wf(),
            event matches NetworkEvent::PrefixChange(p) ==> p.wf(),
        ensures
            final(self).wf(),
            // The prefix changes only on PrefixChange.
            event matches NetworkEvent::PrefixChange(p) ==> final(self).prefix == p,
            !(event is PrefixChange) ==> final(self).prefix == old(self).prefix,
            // The merging flag is raised by StartMerge, cleared by
            // PrefixChange, and otherwise untouched.
            final(self).merging == (match event {
                NetworkEvent::StartMerge(_) => true,
                NetworkEvent::PrefixChange(_) => false,
                _ => old(self).merging,
            }),
            // The ageing counter grows on every counting event that is
            // not a rejected join.
            final(self).counter == (match event {
                NetworkEvent::Live(n, counts) => if counts && !old(self).spec_rejects(
                    n,
                    *params,
                ) {
                    spec_bump(old(self).counter)
                } else {
                    old(self).counter
                },
                NetworkEvent::Lost(_) => spec_bump(old(self).counter),
                NetworkEvent::Relocated(_) => spec_bump(old(self).counter),
                NetworkEvent::PrefixChange(_) => spec_bump(old(self).counter),
                _ => old(self).counter,
            }),
            // A rejected join leaves the section unchanged and reports
            // the rejection; an accepted join inserts the node and
            // reports relocation and split work.
            event matches NetworkEvent::Live(n, counts) ==> {
                &&& (old(self).spec_rejects(n, *params) ==> {
                    &&& final(self).members@ == old(self).members@
                    &&& r@ =~= seq![SectionEvent::NodeRejected(n)]
                })
                &&& (!old(self).spec_rejects(n, *params) ==> {
                    &&& spec_inserted(old(self).members@, n, final(self).members@)
                    &&& r@ =~= Section::spec_live_followup(*final(self), counts, *params)
                })
            },
            // A loss removes the named node, asks to merge when the
            // section fell below a group and is not the root, and
            // reports the drop.
            event matches NetworkEvent::Lost(name) ==> {
                &&& (has_name(old(self).members@, name) ==> {
                    &&& spec_removed(old(self).members@, name, final(self).members@)
                    &&& forall|n: Node|
                        old(self).members@.contains(n) && n.name == name ==> r@ =~= (if final(self).members@.len() < 8 && old(self).prefix.len >= 1 {
                            seq![SectionEvent::RequestMerge]
                        } else {
                            Seq::<SectionEvent>::empty()
                        }) + seq![SectionEvent::NodeDropped(n)]
                })
                &&& (!has_name(old(self).members@, name) ==> final(self).members@ == old(self).members@
                        && r@ =~= Seq::<SectionEvent>::empty())
            },
            // Gone and Relocated remove the node silently.
            event matches NetworkEvent::Gone(n) ==> r@ =~= Seq::<SectionEvent>::empty() && (if has_name(
                old(self).members@, n.name) {
                spec_removed(old(self).members@, n.name, final(self).members@)
            } else {
                final(self).members@ == old(self).members@
            }),
            event matches NetworkEvent::Relocated(n) ==> r@ =~= Seq::<SectionEvent>::empty() && (if has_name(
                old(self).members@, n.name) {
                spec_removed(old(self).members@, n.name, final(self).members@)
            } else {
                final(self).members@ == old(self).members@
            }),
            // StartMerge and PrefixChange leave the membership alone and
            // report nothing.
            event matches NetworkEvent::StartMerge(t) ==> final(self).members@ == old(self).members@
                && r@ =~= Seq::<SectionEvent>::empty(),
            event matches NetworkEvent::PrefixChange(p) ==> final(self).members@ == old(self).members@
                && r@ =~= Seq::<SectionEvent>::empty(),
            // The root section never asks to merge.
            old(self).prefix.len == 0 ==> !r@.contains(SectionEvent::RequestMerge),
            // With the young cap disabled, a section that is not merging
            // turns nobody away.
            params.max_young == 0 && !old(self).merging ==> (forall|n: Node|
                !r@.contains(SectionEvent::NodeRejected(n))),
    {
        match event {
            NetworkEvent::Live(node, counts) => {
                let reject = self.merging || (params.max_young > 0 && node.age < 4
                    && self.young_elder_count() >= params.max_young);
                if reject {
                    let mut r: Vec<SectionEvent> = Vec::new();
                    r.push(SectionEvent::NodeRejected(node));
                    return r;
                }
                self.add_node(node);
                if counts {
                    self.counter = if self.counter < u64::MAX {
                        self.counter + 1
                    } else {
                        self.counter
                    };
                }
                let mut r: Vec<SectionEvent> = Vec::new();
                if counts && self.counter >= 1 && (self.counter & (self.counter - 1)) == 0 {
                    match self.find_due(self.counter) {
                        Some(cand) => {
                            if !self.is_elder_node(&cand) {
                                r.push(SectionEvent::NeedRelocate(cand));
                            }
                        },
                        None => {},
                    }
                }
                if self.split_due(params) {
                    r.push(SectionEvent::RequestSplit);
                }
                r
            },
            NetworkEvent::Lost(name) => {
                let removed = self.remove_by_name(name);
                self.counter = if self.counter < u64::MAX {
                    self.counter + 1
                } else {
                    self.counter
                };
                let mut r: Vec<SectionEvent> = Vec::new();
                match removed {
                    Some(n) => {
                        if self.members.len() < 8 && self.prefix.len >= 1 {
                            r.push(SectionEvent::RequestMerge);
                        }
                        r.push(SectionEvent::NodeDropped(n));
                    },
                    None => {},
                }
                r
            },
            NetworkEvent::Gone(n) => {
                let _removed = self.remove_by_name(n.name);
                Vec::new()
            },
            NetworkEvent::Relocated(n) => {
                let _removed = self.remove_by_name(n.name);
                self.counter = if self.counter < u64::MAX {
                    self.counter + 1
                } else {
                    self.counter
                };
                Vec::new()
            },
            NetworkEvent::StartMerge(_t) => {
                self.merging = true;
                Vec::new()
            },
            NetworkEvent::PrefixChange(p) => {
                self.prefix = p;
                self.merging = false;
                self.counter = if self.counter < u64::MAX {
                    self.counter + 1
                } else {
                    self.counter
                };
                Vec::new()
            },
        }
    }


    /// An identical copy of the section.
    pub fn duplicate(&self) -> (r: Section)
        ensures
            r.prefix == self.prefix,
            r.members@ == self.members@,
            r.counter == self.counter,
            r.merging == self.merging,
    {
        let mut members: Vec<Node> = Vec::new();
        let mut i: usize = 0;
        while i < self.members.len()
            invariant
                0 <= i <= self.members@.len(),
                members@ =~= self.members@.take(i as int),
            decreases self.members@.len() - i,
        {
            members.push(self.members[i]);
            i += 1;
        }
        proof {
            assert(self.members@.take(self.members@.len() as int) =~= self.members@);
        }
        Section { prefix: self.prefix, members, counter: self.counter, merging: self.merging }
    }

    /// Split the section into its two children: members are partitioned
    /// by the first bit past the prefix, the counter is carried into
    /// both, and ages grow by one when so configured.
    pub fn split(&self, params: &Params) -> (r: (Section, Section))
        requires
            self.wf(),
            self.prefix.len < 64,
        ensures
            r.0.wf(),
            r.1.wf(),
            r.0.prefix == self.prefix.spec_extend(false),
            r.1.prefix == self.prefix.spec_extend(true),
            r.0.counter == self.counter,
            r.1.counter == self.counter,
            !r.0.merging,
            !r.1.merging,
            r.0.members@ == maybe_aged(
                filter_matching(self.members@, self.prefix.spec_extend(false)),
                params.inc_age,
            ),
            r.1.members@ == maybe_aged(
                filter_matching(self.members@, self.prefix.spec_extend(true)),
                params.inc_age,
            ),
    {
        let c0 = self.prefix.extend(false);
        let c1 = self.prefix.extend(true);
        let mut v0: Vec<Node> = Vec::new();
        let mut v1: Vec<Node> = Vec::new();
        let mut i: usize = 0;
        while i < self.members.len()
            invariant
                self.wf(),
                self.prefix.len < 64,
                0 <= i <= self.members@.len(),
                c0 == self.prefix.spec_extend(false),
                c1 == self.prefix.spec_extend(true),
                c0.wf(),
                c1.wf(),
                v0@ == filter_matching(self.members@.take(i as int), c0),
                v1@ == filter_matching(self.members@.take(i as int), c1),
            decreases self.members@.len() - i,
        {
            proof {
                assert(self.members@.take(i + 1).drop_last() =~= self.members@.take(i as int));
                assert(self.members@.take(i + 1).last() == self.members@[i as int]);
            }
            let m = self.members[i];
            if c0.matches(m.name) {
                v0.push(m);
            }
            if c1.matches(m.name) {
                v1.push(m);
            }
            i += 1;
        }
        proof {
            assert(self.members@.take(self.members@.len() as int) =~= self.members@);
            lemma_filter_matching_props(self.members@, c0);
            lemma_filter_matching_props(self.members@, c1);
        }
        let m0 = if params.inc_age {
            Section::aged_members(&v0)
        } else {
            v0
        };
        let m1 = if params.inc_age {
            Section::aged_members(&v1)
        } else {
            v1
        };
        proof {
            lemma_aged_keeps_sorted(filter_matching(self.members@, c0));
            lemma_aged_keeps_sorted(filter_matching(self.members@, c1));
        }
        (
            Section { prefix: c0, members: m0, counter: self.counter, merging: false },
            Section { prefix: c1, members: m1, counter: self.counter, merging: false },
        )
    }

    /// A copy of the nodes with every age grown by one, saturating.
    fn aged_members(v: &Vec<Node>) -> (r: Vec<Node>)
        ensures
            r@ == aged_all(v@),
    {
        let mut r: Vec<Node> = Vec::new();
        let mut i: usize = 0;
        while i < v.len()
            invariant
                0 <= i <= v@.len(),
                r@ =~= v@.take(i as int).map_values(|n: Node| spec_aged(n)),
            decreases v@.len() - i,
        {
            proof {
                assert(v@.take(i + 1) =~= v@.take(i as int).push(v@[i as int]));
                assert(v@.take(i + 1).map_values(|n: Node| spec_aged(n)) =~= v@.take(
                    i as int,
                ).map_values(|n: Node| spec_aged(n)).push(spec_aged(v@[i as int])));
            }
            let m = v[i];
            let aged = Node {
                name: m.name,
                age: if m.age < 255 {
                    m.age + 1
                } else {
                    m.age
                },
            };
            r.push(aged);
            i += 1;
        }
        proof {
            assert(v@.take(v@.len() as int) =~= v@);
        }
        r
    }

    /// Merge this section with another: the prefix becomes the nearest
    /// common ancestor, the membership the union (the other section wins
    /// name collisions), the counters are summed, and ages grow by one
    /// when so configured.
    pub fn merge(self, other: Section, params: &Params) -> (r: Section)
        requires
            self.wf(),
            other.wf(),
        ensures
            r.wf(),
            r.prefix.spec_is_ancestor(self.prefix),
            r.prefix.spec_is_ancestor(other.prefix),
            self.prefix.spec_is_neighbour(other.prefix) ==> r.prefix
                == self.prefix.spec_shorten(),
            self.prefix == other.prefix ==> r.prefix == self.prefix,
            // The merged section sits at the nearest common ancestor of
            // the two prefixes.
            forall|t: Prefix|
                t.wf() && t.spec_is_ancestor(self.prefix) && t.spec_is_ancestor(other.prefix)
                    ==> #[trigger] t.spec_is_ancestor(r.prefix),
            r.counter == (if self.counter + other.counter <= u64::MAX {
                self.counter + other.counter
            } else {
                u64::MAX as int
            }),
            !r.merging,
            forall|m: Node|
                #[trigger] r.members@.contains(m) <==> (maybe_aged(
                    other.members@,
                    params.inc_age,
                ).contains(m) || (maybe_aged(self.members@, params.inc_age).contains(m)
                    && !has_name(maybe_aged(other.members@, params.inc_age), m.name))),
    {
        let target = merged_prefix(self.prefix, other.prefix);
        let counter: u64 = if other.counter <= u64::MAX - self.counter {
            self.counter + other.counter
        } else {
            u64::MAX
        };
        let a_vec = if params.inc_age {
            Section::aged_members(&self.members)
        } else {
            self.members
        };
        let b_vec = if params.inc_age {
            Section::aged_members(&other.members)
        } else {
            other.members
        };
        proof {
            lemma_aged_keeps_sorted(self.members@);
            lemma_aged_keeps_sorted(other.members@);
        }
        let ghost aseq = a_vec@;
        let ghost bseq = b_vec@;
        let mut merged = Section { prefix: target, members: a_vec, counter, merging: false };
        let mut i: usize = 0;
        while i < b_vec.len()
            invariant
                merged.wf(),
                merged.prefix == target,
                target.wf(),
                merged.counter == counter,
                !merged.merging,
                0 <= i <= bseq.len(),
                b_vec@ == bseq,
                sorted_by_name(bseq),
                forall|m: Node|
                    #[trigger] merged.members@.contains(m) <==> (bseq.take(i as int).contains(m)
                        || (aseq.contains(m) && !has_name(bseq.take(i as int), m.name))),
            decreases bseq.len() - i,
        {
            let ghost pre = merged.members@;
            let ghost t0 = bseq.take(i as int);
            let ghost t1 = bseq.take(i as int + 1);
            proof {
                assert(t1 =~= t0.push(bseq[i as int]));
            }
            let node = b_vec[i];
            merged.add_node(node);
            proof {
                let post = merged.members@;
                assert forall|m: Node| #[trigger] post.contains(m) implies (t1.contains(m) || (
                aseq.contains(m) && !has_name(t1, m.name))) by {
                    if m == node {
                        assert(t1[t1.len() - 1] == m);
                    } else {
                        assert(pre.contains(m) && m.name != node.name);
                        if t0.contains(m) {
                            let k = choose|k: int| 0 <= k < t0.len() && t0[k] == m;
                            assert(t1[k] == m);
                        } else {
                            assert(!has_name(t0, m.name));
                            assert forall|k: int| 0 <= k < t1.len() implies t1[k].name
                                != m.name by {
                                if k < t0.len() {
                                    assert(t0[k] == t1[k]);
                                }
                            }
                        }
                    }
                }
                assert forall|m: Node| (t1.contains(m) || (aseq.contains(m) && !has_name(
                    t1,
                    m.name,
                ))) implies #[trigger] post.contains(m) by {
                    if t1.contains(m) {
                        let k = choose|k: int| 0 <= k < t1.len() && t1[k] == m;
                        if k == t1.len() - 1 {
                            assert(m == node);
                        } else {
                            assert(t0[k] == m);
                            assert(t0.contains(m));
                            assert(pre.contains(m));
                            assert(k < i);
                            assert(bseq[k].name < bseq[i as int].name);
                            assert(m.name != node.name);
                        }
                    } else {
                        assert(!has_name(t1, m.name));
                        assert forall|k: int| 0 <= k < t0.len() implies t0[k].name != m.name by {
                            assert(t1[k] == t0[k]);
                        }
                        assert(pre.contains(m));
                        assert(t1[t1.len() - 1].name == node.name);
                        assert(m.name != node.name);
                    }
                }
            }
            i += 1;
        }
        proof {
            assert(bseq.take(bseq.len() as int) =~= bseq);
        }
        merged
    }

    /// Count the young elders: elders whose age is below the adult age.
    pub fn young_elder_count(&self) -> (c: usize)
        requires
            self.wf(),
        ensures
            c == self.spec_young_elder_count(),
    {
        let ghost pred = |m: Node| self.spec_is_elder(m) && m.age < 4;
        let mut c: usize = 0;
        let mut i: usize = 0;
        proof {
            lemma_count_le_len(self.members@, pred);
        }
        while i < self.members.len()
            invariant
                self.wf(),
                0 <= i <= self.members@.len(),
                c == count_nodes(self.members@.take(i as int), pred),
                c <= i,
                pred == (|m: Node| self.spec_is_elder(m) && m.age < 4),
            decreases self.members@.len() - i,
        {
            proof {
                lemma_count_take_step(self.members@, pred, i as int);
                assert(self.members@.contains(self.members@[i as int]));
            }
            let m = self.members[i];
            if m.age < 4 && self.count_outranking(&m) < 8 {
                c += 1;
            }
            i += 1;
        }
        proof {
            lemma_count_take_full(self.members@, pred);
        }
        c
    }
}

/// Splitting a membership between the two children of its prefix and
/// merging the children back restores the original membership. Stated
/// for unchanged ages; the optional ageing on split and merge renames
/// no node.
pub proof fn lemma_split_merge_round_trip(s: Seq<Node>, p: Prefix)
    requires
        sorted_by_name(s),
        p.wf(),
        p.len < 64,
        forall|i: int| 0 <= i < s.len() ==> p.spec_matches(#[trigger] s[i].name),
    ensures
        forall|m: Node|
            #[trigger] s.contains(m) <==> (filter_matching(s, p.spec_extend(true)).contains(m)
                || (filter_matching(s, p.spec_extend(false)).contains(m) && !has_name(
                filter_matching(s, p.spec_extend(true)),
                m.name,
            ))),
{
    let c0 = p.spec_extend(false);
    let c1 = p.spec_extend(true);
    let f0 = filter_matching(s, c0);
    let f1 = filter_matching(s, c1);
    lemma_filter_matching_props(s, c0);
    lemma_filter_matching_props(s, c1);
    assert forall|m: Node| #[trigger] s.contains(m) implies (f1.contains(m) || (f0.contains(m)
        && !has_name(f1, m.name))) by {
        let k = choose|k: int| 0 <= k < s.len() && s[k] == m;
        crate::prefix::lemma_child_matches(p, m.name);
        if c0.spec_matches(m.name) {
            if has_name(f1, m.name) {
                let j = choose|j: int| 0 <= j < f1.len() && f1[j].name == m.name;
                assert(f1.contains(f1[j]));
                assert(s.contains(f1[j]) && c1.spec_matches(f1[j].name));
                let k2 = choose|k2: int| 0 <= k2 < s.len() && s[k2] == f1[j];
                assert(k == k2);
            }
        }
    }
    assert forall|m: Node| (f1.contains(m) || (f0.contains(m) && !has_name(f1, m.name)))
        implies #[trigger] s.contains(m) by {}
}


/// Every node a split hands to a child matches the child's prefix: the
/// members of each new section live under its prefix.
pub proof fn lemma_split_members_match(s: Seq<Node>, p: Prefix)
    ensures
        forall|i: int|
            0 <= i < filter_matching(s, p).len() ==> p.spec_matches(
                (#[trigger] filter_matching(s, p)[i]).name,
            ),
{
    lemma_filter_matching_props(s, p);
    assert forall|i: int| 0 <= i < filter_matching(s, p).len() implies p.spec_matches(
        (#[trigger] filter_matching(s, p)[i]).name,
    ) by {
        assert(filter_matching(s, p).contains(filter_matching(s, p)[i]));
    }
}

/// Members that match prefixes under a common ancestor all match the
/// ancestor: a merged section's members live under the merged prefix.
pub proof fn lemma_merged_members_match(a: Section, pa: Prefix, b: Section, pb: Prefix, m: Section, t: Prefix, inc: bool)
    requires
        pa.wf(),
        pb.wf(),
        t.wf(),
        t.spec_is_ancestor(pa),
        t.spec_is_ancestor(pb),
        forall|i: int| 0 <= i < a.members@.len() ==> pa.spec_matches((#[trigger] a.members@[i]).name),
        forall|i: int| 0 <= i < b.members@.len() ==> pb.spec_matches((#[trigger] b.members@[i]).name),
        forall|n: Node|
            #[trigger] m.members@.contains(n) ==> (maybe_aged(b.members@, inc).contains(n) || maybe_aged(
                a.members@,
                inc,
            ).contains(n)),
    ensures
        forall|i: int| 0 <= i < m.members@.len() ==> t.spec_matches((#[trigger] m.members@[i]).name),
{
    assert forall|i: int| 0 <= i < m.members@.len() implies t.spec_matches(
        (#[trigger] m.members@[i]).name,
    ) by {
        let n = m.members@[i];
        assert(m.members@.contains(n));
        if maybe_aged(b.members@, inc).contains(n) {
            let j = choose|j: int|
                0 <= j < maybe_aged(b.members@, inc).len() && maybe_aged(b.members@, inc)[j]
                    == n;
            assert(n.name == b.members@[j].name);
            crate::prefix::lemma_ancestor_matches(t, pb, n.name);
        } else {
            let j = choose|j: int|
                0 <= j < maybe_aged(a.members@, inc).len() && maybe_aged(a.members@, inc)[j]
                    == n;
            assert(n.name == a.members@[j].name);
            crate::prefix::lemma_ancestor_matches(t, pa, n.name);
        }
    }
}


/// Ageing every node keeps the name order: names do not change.
proof fn lemma_aged_keeps_sorted(s: Seq<Node>)
    ensures
        sorted_by_name(s) ==> sorted_by_name(aged_all(s)),
        aged_all(s).len() == s.len(),
        forall|i: int| 0 <= i < s.len() ==> aged_all(s)[i].name == s[i].name,
{
}

/// The nearest common ancestor of two well-formed prefixes, exact for
/// equal prefixes, ancestor pairs, and siblings.
pub fn merged_prefix(a: Prefix, b: Prefix) -> (r: Prefix)
    requires
        a.wf(),
        b.wf(),
    ensures
        r.wf(),
        r.spec_is_ancestor(a),
        r.spec_is_ancestor(b),
        a.spec_is_neighbour(b) ==> r == a.spec_shorten(),
        a == b ==> r == a,
        // The result is the nearest common ancestor: every common
        // ancestor of the two prefixes lies at or above it.
        forall|t: Prefix|
            t.wf() && t.spec_is_ancestor(a) && t.spec_is_ancestor(b)
                ==> #[trigger] t.spec_is_ancestor(r),
{
    proof {
        crate::prefix::lemma_ancestor_reflexive(a);
        crate::prefix::lemma_ancestor_reflexive(b);
        if a.spec_is_neighbour(b) {
            crate::prefix::lemma_neighbour_not_compatible(a, b);
        }
        assert forall|t: Prefix|
            t.wf() && t.spec_is_ancestor(a) && t.spec_is_ancestor(b) && a.spec_is_neighbour(
                b,
            ) implies #[trigger] t.spec_is_ancestor(a.spec_shorten()) by {
            if t.len < a.len {
                crate::prefix::lemma_strict_ancestor_shorten(t, a);
            } else {
                let ab = a.bits;
                let bb = b.bits;
                assert(ab >> 0u64 == ab) by (bit_vector);
                assert(bb >> 0u64 == bb) by (bit_vector);
                assert(a == b);
            }
        }
    }
    if a.bits == b.bits && a.len == b.len {
        return a;
    }
    if a.is_ancestor(&b) {
        return a;
    }
    if b.is_ancestor(&a) {
        return b;
    }
    if a.is_neighbour(&b) {
        proof {
            crate::prefix::lemma_neighbour_same_parent(a, b);
            crate::prefix::lemma_shorten_is_ancestor(a);
            crate::prefix::lemma_shorten_is_ancestor(b);
        }
        return a.shorten();
    }
    let mut x = a;
    let mut y = b;
    while !(x.bits == y.bits && x.len == y.len)
        invariant
            a.wf(),
            b.wf(),
            x.wf(),
            y.wf(),
            x.spec_is_ancestor(a),
            y.spec_is_ancestor(b),
            forall|t: Prefix|
                t.wf() && t.spec_is_ancestor(a) && t.spec_is_ancestor(b)
                    ==> #[trigger] t.spec_is_ancestor(x),
            forall|t: Prefix|
                t.wf() && t.spec_is_ancestor(a) && t.spec_is_ancestor(b)
                    ==> #[trigger] t.spec_is_ancestor(y),
        decreases x.len + y.len,
    {
        proof {
            crate::prefix::lemma_empty_bits_zero(x);
            crate::prefix::lemma_empty_bits_zero(y);
        }
        if x.len >= y.len {
            proof {
                crate::prefix::lemma_shorten_is_ancestor(x);
                crate::prefix::lemma_ancestor_transitive(x.spec_shorten(), x, a);
                assert forall|t: Prefix|
                    t.wf() && t.spec_is_ancestor(a) && t.spec_is_ancestor(b) implies
                    #[trigger] t.spec_is_ancestor(x.spec_shorten()) by {
                    assert(t.spec_is_ancestor(x));
                    assert(t.spec_is_ancestor(y));
                    if t.len < x.len {
                        crate::prefix::lemma_strict_ancestor_shorten(t, x);
                    } else {
                        let xb = x.bits;
                        let yb = y.bits;
                        let tb = t.bits;
                        assert(xb >> 0u64 == xb) by (bit_vector);
                        assert(yb >> 0u64 == yb) by (bit_vector);
                        assert(tb >> 0u64 == tb) by (bit_vector);
                        assert(false);
                    }
                }
            }
            x = x.shorten();
        } else {
            proof {
                crate::prefix::lemma_shorten_is_ancestor(y);
                crate::prefix::lemma_ancestor_transitive(y.spec_shorten(), y, b);
                assert forall|t: Prefix|
                    t.wf() && t.spec_is_ancestor(a) && t.spec_is_ancestor(b) implies
                    #[trigger] t.spec_is_ancestor(y.spec_shorten()) by {
                    assert(t.spec_is_ancestor(x));
                    assert(t.spec_is_ancestor(y));
                    crate::prefix::lemma_strict_ancestor_shorten(t, y);
                }
            }
            y = y.shorten();
        }
    }
    proof {
        assert forall|t: Prefix|
            t.wf() && t.spec_is_ancestor(a) && t.spec_is_ancestor(b) implies
            #[trigger] t.spec_is_ancestor(x) by {}
    }
    x
}


} // verus!
