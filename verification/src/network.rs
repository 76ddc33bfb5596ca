//! The network: the global dispatcher over sections, queues and merges.

use vstd::prelude::*;
use crate::churn::{NetworkEvent, SectionEvent};
use crate::node::Node;
use crate::params::Params;
use crate::pending::PendingMerge;
use crate::prefix::Prefix;
use crate::rng;
use crate::section::{has_name, spec_bump, Section};

verus! {

/// One structural snapshot: total nodes, sections, complete sections.
#[derive(Clone, Copy, PartialEq, Eq, Structural, Debug)]
pub struct NetworkStructure {
    /// Total node count across all sections.
    pub size: usize,
    /// Number of sections.
    pub sections: usize,
    /// Number of complete sections.
    pub complete: usize,
}

/// The simulation's cumulative counters and time series.
pub struct Output {
    /// The number of add churn events.
    pub adds: u64,
    /// The number of drop churn events.
    pub drops: u64,
    /// Drops by age: entry `a` counts the drops of nodes aged `a`.
    pub drops_dist: Vec<u64>,
    /// The number of rejoin churn events.
    pub rejoins: u64,
    /// The number of relocations.
    pub relocations: u64,
    /// The number of rejected nodes.
    pub rejections: u64,
    /// The total number of churn events.
    pub churn: u64,
    /// One structural snapshot per step.
    pub network_structure: Vec<NetworkStructure>,
}

/// Whether the prefixes an event carries are well formed.
pub open spec fn spec_event_wf(ev: NetworkEvent) -> bool {
    match ev {
        NetworkEvent::PrefixChange(p) => p.wf(),
        NetworkEvent::StartMerge(p) => p.wf(),
        _ => true,
    }
}

/// Whether entry keys are strictly sorted (and hence unique).
pub open spec fn entry_keys_sorted<V>(s: Seq<(Prefix, V)>) -> bool {
    forall|i: int, j: int| 0 <= i < j < s.len() ==> (#[trigger] s[i]).0.spec_lt((#[trigger] s[j]).0)
}

/// Whether some entry carries this key.
pub open spec fn has_entry_key<V>(s: Seq<(Prefix, V)>, key: Prefix) -> bool {
    exists|i: int| 0 <= i < s.len() && s[i].0 == key
}

/// The set of keys the entries carry.
pub open spec fn key_set<V>(s: Seq<(Prefix, V)>) -> Set<Prefix> {
    Set::new(|p: Prefix| has_entry_key(s, p))
}

/// Find the index of the entry with this key, if any.
fn find_entry<V>(v: &Vec<(Prefix, V)>, key: &Prefix) -> (r: Option<usize>)
    ensures
        match r {
            Some(i) => i < v@.len() && v@[i as int].0 == *key,
            None => !has_entry_key(v@, *key),
        },
{
    let mut i: usize = 0;
    while i < v.len()
        invariant
            0 <= i <= v@.len(),
            forall|k: int| 0 <= k < i ==> v@[k].0 != *key,
        decreases v@.len() - i,
    {
        if v[i].0.bits == key.bits && v[i].0.len == key.len {
            return Some(i);
        }
        i += 1;
    }
    None
}

/// Strict keys compare three ways: smaller, equal, or greater.
proof fn lemma_key_order_total(a: Prefix, b: Prefix)
    ensures
        a.spec_lt(b) || b.spec_lt(a) || a == b,
{
}

/// Insert an entry under an absent key, keeping the keys sorted.
fn insert_sorted_entry<V>(v: &mut Vec<(Prefix, V)>, key: Prefix, val: V)
    requires
        entry_keys_sorted(old(v)@),
        !has_entry_key(old(v)@, key),
    ensures
        entry_keys_sorted(final(v)@),
        exists|k: int|
            0 <= k <= old(v)@.len() && final(v)@ == old(v)@.insert(k, (key, val)),
        forall|p: Prefix|
            has_entry_key(final(v)@, p) <==> (has_entry_key(old(v)@, p) || p == key),
{
    let ghost pre = v@;
    let mut i: usize = 0;
    while i < v.len() && v[i].0.lt(&key)
        invariant
            0 <= i <= pre.len(),
            v@ == pre,
            entry_keys_sorted(pre),
            forall|k: int| 0 <= k < i ==> pre[k].0.spec_lt(key),
        decreases pre.len() - i,
    {
        i += 1;
    }
    proof {
        if i < pre.len() {
            lemma_key_order_total(pre[i as int].0, key);
            assert(key.spec_lt(pre[i as int].0));
        }
    }
    v.insert(i, (key, val));
    proof {
        let post = v@;
        assert(post == pre.insert(i as int, (key, val)));
        pre.insert_ensures(i as int, (key, val));
        assert forall|a: int, b: int| 0 <= a < b < post.len() implies post[a].0.spec_lt(
            post[b].0,
        ) by {
            if a < i {
                assert(post[a] == pre[a]);
            } else if a > i {
                assert(post[a] == pre[a - 1]);
            } else {
                assert(post[a] == (key, val));
            }
            if b < i {
                assert(post[b] == pre[b]);
            } else if b > i {
                assert(post[b] == pre[b - 1]);
            } else {
                assert(post[b] == (key, val));
            }
        }
        assert forall|p: Prefix| has_entry_key(post, p) implies (has_entry_key(pre, p) || p
            == key) by {
            let k = choose|k: int| 0 <= k < post.len() && post[k].0 == p;
            if k < i {
                assert(pre[k].0 == p);
            } else if k > i {
                assert(pre[k - 1].0 == p);
            }
        }
        assert forall|p: Prefix| (has_entry_key(pre, p) || p == key) implies has_entry_key(
            post,
            p,
        ) by {
            if p == key {
                assert(post[i as int].0 == p);
            } else {
                let k = choose|k: int| 0 <= k < pre.len() && pre[k].0 == p;
                if k < i {
                    assert(post[k].0 == p);
                } else {
                    assert(post[k + 1].0 == p);
                }
            }
        }
    }
}

/// Removing an entry keeps the keys sorted.
proof fn lemma_remove_keeps_sorted<V>(s: Seq<(Prefix, V)>, i: int)
    requires
        entry_keys_sorted(s),
        0 <= i < s.len(),
    ensures
        entry_keys_sorted(s.remove(i)),
{
    let post = s.remove(i);
    s.remove_ensures(i);
    assert forall|a: int, b: int| 0 <= a < b < post.len() implies post[a].0.spec_lt(
        post[b].0,
    ) by {
        if a < i && b >= i {
            assert(post[a] == s[a] && post[b] == s[b + 1]);
        }
    }
}


/// The events queued for a key: the first matching entry's events, or
/// nothing when the key is absent.
pub open spec fn events_at(q: Seq<(Prefix, Vec<NetworkEvent>)>, key: Prefix) -> Seq<NetworkEvent>
    decreases q.len(),
{
    if q.len() == 0 {
        Seq::<NetworkEvent>::empty()
    } else if q[0].0 == key {
        q[0].1@
    } else {
        events_at(q.subrange(1, q.len() as int), key)
    }
}

/// With distinct keys, the events at a present key are that entry's.
proof fn lemma_events_at_found(q: Seq<(Prefix, Vec<NetworkEvent>)>, i: int)
    requires
        entry_keys_sorted(q),
        0 <= i < q.len(),
    ensures
        events_at(q, q[i].0) == q[i].1@,
    decreases q.len(),
{
    if i > 0 {
        let q1 = q.subrange(1, q.len() as int);
        assert(entry_keys_sorted(q1)) by {
            assert forall|a: int, b: int| 0 <= a < b < q1.len() implies (#[trigger] q1[a]).0
                .spec_lt((#[trigger] q1[b]).0) by {
                assert(q1[a] == q[a + 1] && q1[b] == q[b + 1]);
            }
        }
        assert(q[0].0.spec_lt(q[i].0));
        assert(q1[i - 1] == q[i]);
        lemma_events_at_found(q1, i - 1);
    }
}

/// The events at an absent key are none.
proof fn lemma_events_at_absent(q: Seq<(Prefix, Vec<NetworkEvent>)>, key: Prefix)
    requires
        !has_entry_key(q, key),
    ensures
        events_at(q, key) == Seq::<NetworkEvent>::empty(),
    decreases q.len(),
{
    if q.len() > 0 {
        let q1 = q.subrange(1, q.len() as int);
        assert(!has_entry_key(q1, key)) by {
            if has_entry_key(q1, key) {
                let k = choose|k: int| 0 <= k < q1.len() && q1[k].0 == key;
                assert(q[k + 1].0 == key);
            }
        }
        lemma_events_at_absent(q1, key);
    }
}

/// A sequence stays a prefix of itself once more is appended.
proof fn lemma_seq_prefix_refl<T>(s: Seq<T>)
    ensures
        s.is_prefix_of(s),
{
    assert(s =~= s.subrange(0, s.len() as int));
}

/// Prefixes chain: a prefix of a prefix is a prefix.
proof fn lemma_seq_prefix_trans<T>(a: Seq<T>, b: Seq<T>, c: Seq<T>)
    requires
        a.is_prefix_of(b),
        b.is_prefix_of(c),
    ensures
        a.is_prefix_of(c),
{
    assert(a =~= c.subrange(0, a.len() as int)) by {
        assert forall|k: int| 0 <= k < a.len() implies a[k] == c.subrange(
            0,
            a.len() as int,
        )[k] by {
            assert(a[k] == b.subrange(0, a.len() as int)[k]);
            assert(b[k] == c.subrange(0, b.len() as int)[k]);
        }
    }
}

/// Appending keeps the original as a prefix.
proof fn lemma_seq_push_prefix<T>(s: Seq<T>, e: T)
    ensures
        s.is_prefix_of(s.push(e)),
{
    assert(s =~= s.push(e).subrange(0, s.len() as int));
}

/// A relocation only appends to the queues: each key's prior events
/// stay in place as a prefix of the new ones.
proof fn lemma_relocation_appends(
    pre_q: Seq<(Prefix, Vec<NetworkEvent>)>,
    post_q: Seq<(Prefix, Vec<NetworkEvent>)>,
    node: Node,
    src: Prefix,
    target: Prefix,
    m: Node,
)
    requires
        Network::spec_relocated_delivery(pre_q, post_q, node, src, target, m),
    ensures
        forall|p: Prefix|
            (#[trigger] events_at(pre_q, p)).is_prefix_of(events_at(post_q, p)),
{
    assert forall|p: Prefix|
        (#[trigger] events_at(pre_q, p)).is_prefix_of(events_at(post_q, p)) by {
        if p == src || p == target {
            if target == src && p == src {
                let mid = events_at(pre_q, src).push(NetworkEvent::Relocated(node));
                lemma_seq_push_prefix(events_at(pre_q, src), NetworkEvent::Relocated(node));
                lemma_seq_push_prefix(mid, NetworkEvent::Live(m, true));
                lemma_seq_prefix_trans(events_at(pre_q, src), mid, events_at(post_q, src));
            } else if p == src {
                lemma_seq_push_prefix(events_at(pre_q, src), NetworkEvent::Relocated(node));
            } else {
                lemma_seq_push_prefix(events_at(pre_q, target), NetworkEvent::Live(m, true));
            }
        } else {
            lemma_seq_prefix_refl(events_at(pre_q, p));
        }
    }
}


/// Total number of nodes across the sections.
pub open spec fn spec_total_nodes(ss: Seq<(Prefix, Section)>) -> nat
    decreases ss.len(),
{
    if ss.len() == 0 {
        0
    } else {
        spec_total_nodes(ss.drop_last()) + ss.last().1.members@.len()
    }
}

/// Number of complete sections.
pub open spec fn spec_complete_count(ss: Seq<(Prefix, Section)>) -> nat
    decreases ss.len(),
{
    if ss.len() == 0 {
        0
    } else {
        spec_complete_count(ss.drop_last()) + if ss.last().1.spec_is_complete() {
            1nat
        } else {
            0nat
        }
    }
}

/// Number of nodes of the given age across the sections.
pub open spec fn spec_age_count(ss: Seq<(Prefix, Section)>, a: int) -> nat
    decreases ss.len(),
{
    if ss.len() == 0 {
        0
    } else {
        spec_age_count(ss.drop_last(), a) + crate::section::count_nodes(
            ss.last().1.members@,
            |m: Node| m.age as int == a,
        )
    }
}

/// A count capped at the machine word.
pub open spec fn spec_cap_usize(x: nat) -> nat {
    if x <= usize::MAX {
        x
    } else {
        usize::MAX as nat
    }
}

/// There are no more complete sections than sections.
proof fn lemma_complete_count_le(ss: Seq<(Prefix, Section)>)
    ensures
        spec_complete_count(ss) <= ss.len(),
    decreases ss.len(),
{
    if ss.len() > 0 {
        lemma_complete_count_le(ss.drop_last());
    }
}

/// The simulated network: the sections indexed by their prefixes, the
/// departed nodes, the event queues, the merges in progress, the
/// configuration and the collected output.
pub struct Network {
    /// The sections, keyed by prefix, keys strictly sorted.
    pub nodes: Vec<(Prefix, Section)>,
    /// Nodes that left and may rejoin later.
    pub left_nodes: Vec<Node>,
    /// Queued events per section prefix, keys strictly sorted.
    pub event_queue: Vec<(Prefix, Vec<NetworkEvent>)>,
    /// Merges in progress, keyed by target prefix, keys strictly sorted.
    pub pending_merges: Vec<(Prefix, PendingMerge)>,
    /// Simulation parameters.
    pub params: Params,
    /// Simulation outputs.
    pub output: Output,
}

impl Network {
    /// Well-formed: all three maps have strictly sorted, well-formed
    /// keys; sections are well formed; every pending merge is well
    /// formed, its participants descend from its target, and no two
    /// targets are compatible.
    pub open spec fn wf(self) -> bool {
        &&& entry_keys_sorted(self.nodes@)
        &&& forall|i: int|
            0 <= i < self.nodes@.len() ==> (#[trigger] self.nodes@[i]).0.wf()
                && self.nodes@[i].1.wf()
        &&& entry_keys_sorted(self.event_queue@)
        &&& forall|i: int| 0 <= i < self.event_queue@.len() ==> (#[trigger] self.event_queue@[i]).0.wf()
        &&& forall|i: int, j: int|
            0 <= i < self.event_queue@.len() && 0 <= j < self.event_queue@[i].1@.len()
                ==> spec_event_wf(#[trigger] self.event_queue@[i].1@[j])
        &&& entry_keys_sorted(self.pending_merges@)
        &&& forall|i: int|
            0 <= i < self.pending_merges@.len() ==> (#[trigger] self.pending_merges@[i]).0.wf()
                && self.pending_merges@[i].1.wf()
        &&& forall|i: int, j: int|
            0 <= i < self.pending_merges@.len() && 0 <= j
                < self.pending_merges@[i].1.complete@.len() ==> (
            #[trigger] self.pending_merges@[i].1.complete@[j].0).wf() && self.pending_merges@[
                i
            ].0.spec_is_ancestor(self.pending_merges@[i].1.complete@[j].0)
        &&& forall|i: int, j: int|
            0 <= i < j < self.pending_merges@.len() ==> !(
            #[trigger] self.pending_merges@[i].0).spec_is_compatible_with(
                #[trigger] self.pending_merges@[j].0,
            )
        &&& self.output.drops_dist@.len() == 256
    }

    /// Whether any event queue holds an event.
    pub open spec fn spec_has_events(self) -> bool {
        exists|i: int| 0 <= i < self.event_queue@.len() && self.event_queue@[i].1@.len() > 0
    }

    /// A fresh network: one empty section at the empty prefix, nothing
    /// queued, nothing pending, all counters zero.
    pub fn new(params: Params) -> (r: Network)
        ensures
            r.wf(),
            r.nodes@.len() == 1,
            r.nodes@[0].0 == (Prefix { bits: 0u64, len: 0u64 }),
            r.nodes@[0].1.members@ =~= Seq::<Node>::empty(),
            r.left_nodes@ =~= Seq::<Node>::empty(),
            r.event_queue@ =~= Seq::<(Prefix, Vec<NetworkEvent>)>::empty(),
            r.pending_merges@.len() == 0,
            r.params == params,
            r.output.adds == 0u64 && r.output.drops == 0u64 && r.output.rejoins == 0u64
                && r.output.relocations == 0u64 && r.output.rejections == 0u64
                && r.output.churn == 0u64,
            r.output.network_structure@.len() == 0,
            // The by-age drop histogram starts with every entry at zero.
            r.output.drops_dist@.len() == 256,
            forall|a: int| 0 <= a < 256 ==> r.output.drops_dist@[a] == 0u64,
            !r.spec_has_events(),
            // The single empty prefix partitions the whole name space.
            crate::prefix::partitions(key_set(r.nodes@)),
    {
        let empty = Prefix::empty();
        let mut nodes: Vec<(Prefix, Section)> = Vec::new();
        nodes.push((empty, Section::new(empty)));
        let mut drops_dist: Vec<u64> = Vec::new();
        let mut i: usize = 0;
        while i < 256
            invariant
                drops_dist@.len() == i,
                0 <= i <= 256,
                forall|a: int| 0 <= a < i ==> drops_dist@[a] == 0u64,
            decreases 256 - i,
        {
            drops_dist.push(0);
            i += 1;
        }
        proof {
            crate::prefix::lemma_initial_partition();
            assert(key_set(nodes@) =~= set![Prefix { bits: 0u64, len: 0u64 }]) by {
                assert forall|p: Prefix| key_set(nodes@).contains(p) implies p == (Prefix {
                    bits: 0u64,
                    len: 0u64,
                }) by {
                    let i = choose|i: int| 0 <= i < nodes@.len() && nodes@[i].0 == p;
                }
                assert(nodes@[0].0 == (Prefix { bits: 0u64, len: 0u64 }));
            }
        }
        Network {
            nodes,
            left_nodes: Vec::new(),
            event_queue: Vec::new(),
            pending_merges: Vec::new(),
            params,
            output: Output {
                adds: 0,
                drops: 0,
                drops_dist,
                rejoins: 0,
                relocations: 0,
                rejections: 0,
                churn: 0,
                network_structure: Vec::new(),
            },
        }
    }

    /// Whether any events are waiting in the queues.
    pub fn has_events(&self) -> (r: bool)
        ensures
            r == self.spec_has_events(),
    {
        let mut i: usize = 0;
        while i < self.event_queue.len()
            invariant
                0 <= i <= self.event_queue@.len(),
                forall|k: int| 0 <= k < i ==> self.event_queue@[k].1@.len() == 0,
            decreases self.event_queue@.len() - i,
        {
            if self.event_queue[i].1.len() > 0 {
                return true;
            }
            i += 1;
        }
        false
    }

    /// The first section prefix, in key order, that matches the name.
    pub open spec fn spec_first_matching(s: Seq<(Prefix, Section)>, name: u64) -> Option<Prefix>
        decreases s.len(),
    {
        if s.len() == 0 {
            None
        } else if s[0].0.spec_matches(name) {
            Some(s[0].0)
        } else {
            Self::spec_first_matching(s.subrange(1, s.len() as int), name)
        }
    }

    /// Whether `post_q` is `pre_q` with one counting join for `node`
    /// appended to the queue of the section owning `node`'s name (and no
    /// other change), or unchanged when no section matches the name.
    pub open spec fn spec_join_enqueued(
        pre_nodes: Seq<(Prefix, Section)>,
        pre_q: Seq<(Prefix, Vec<NetworkEvent>)>,
        post_q: Seq<(Prefix, Vec<NetworkEvent>)>,
        node: Node,
    ) -> bool {
        match Self::spec_first_matching(pre_nodes, node.name) {
            Some(p) => {
                &&& events_at(post_q, p) == events_at(pre_q, p).push(
                    NetworkEvent::Live(node, true),
                )
                &&& forall|q: Prefix| q != p ==> events_at(post_q, q) == events_at(pre_q, q)
            },
            None => post_q == pre_q,
        }
    }

    /// The prefix of the section a node of this name belongs to, if any
    /// section matches it.
    pub fn prefix_for_node(&self, node: &Node) -> (r: Option<Prefix>)
        requires
            self.wf(),
        ensures
            r == Self::spec_first_matching(self.nodes@, node.name),
            r matches Some(p) ==> p.wf() && p.spec_matches(node.name) && has_entry_key(
                self.nodes@,
                p,
            ),
    {
        let ghost sq = self.nodes@;
        let mut i: usize = 0;
        while i < self.nodes.len()
            invariant
                self.wf(),
                self.nodes@ == sq,
                0 <= i <= sq.len(),
                forall|k: int| 0 <= k < i ==> !(#[trigger] sq[k].0).spec_matches(node.name),
            decreases sq.len() - i,
        {
            if self.nodes[i].0.matches(node.name) {
                proof {
                    lemma_first_matching_from(sq, node.name, i as int);
                    assert(sq.subrange(i as int, sq.len() as int)[0] == sq[i as int]);
                }
                return Some(self.nodes[i].0);
            }
            i += 1;
        }
        proof {
            lemma_first_matching_from(sq, node.name, sq.len() as int);
            assert(sq.subrange(sq.len() as int, sq.len() as int) =~= Seq::<(
                Prefix,
                Section,
            )>::empty());
        }
        None
    }


    /// Append an event to the queue of the given section prefix, opening
    /// the queue when the prefix has none yet. Every other queue stays as
    /// it was.
    #[verifier::spinoff_prover]
    #[verifier::rlimit(100)]
    fn queue_push(&mut self, key: Prefix, ev: NetworkEvent)
        requires
            old(self).wf(),
            key.wf(),
            spec_event_wf(ev),
        ensures
            final(self).wf(),
            final(self).nodes@ == old(self).nodes@,
            final(self).left_nodes@ == old(self).left_nodes@,
            final(self).pending_merges@ == old(self).pending_merges@,
            final(self).params == old(self).params,
            final(self).output == old(self).output,
            events_at(final(self).event_queue@, key) == events_at(
                old(self).event_queue@,
                key,
            ).push(ev),
            forall|p: Prefix|
                p != key ==> events_at(final(self).event_queue@, p) == events_at(
                    old(self).event_queue@,
                    p,
                ),
            forall|p: Prefix|
                has_entry_key(final(self).event_queue@, p) <==> (has_entry_key(
                    old(self).event_queue@,
                    p,
                ) || p == key),
            final(self).spec_has_events(),
    {
        let ghost pre = self.event_queue@;
        match find_entry(&self.event_queue, &key) {
            Some(i) => {
                let (k, mut q) = self.event_queue.remove(i);
                q.push(ev);
                self.event_queue.insert(i, (k, q));
                proof {
                    let post = self.event_queue@;
                    pre.remove_ensures(i as int);
                    pre.remove(i as int).insert_ensures(i as int, (k, q));
                    assert(post.len() == pre.len());
                    assert forall|j: int| 0 <= j < pre.len() && j != i implies post[j] == pre[
                        j
                    ] by {
                        if j < i {
                            assert(pre.remove(i as int)[j] == pre[j]);
                            assert(post[j] == pre.remove(i as int)[j]);
                        } else {
                            assert(pre.remove(i as int)[j - 1] == pre[(j - 1) + 1]);
                            assert(post[(j - 1) + 1] == pre.remove(i as int)[j - 1]);
                        }
                    }
                    assert(post[i as int].0 == key && post[i as int].1@ == pre[i as int].1@.push(
                        ev,
                    ));
                    assert forall|a: int, b: int| 0 <= a < b < post.len() implies (
                    #[trigger] post[a]).0.spec_lt((#[trigger] post[b]).0) by {
                        if a != i {
                            assert(post[a] == pre[a]);
                        }
                        if b != i {
                            assert(post[b] == pre[b]);
                        }
                    }
                    lemma_events_at_found(pre, i as int);
                    lemma_events_at_found(post, i as int);
                    assert forall|p: Prefix| p != key implies events_at(post, p) == events_at(
                        pre,
                        p,
                    ) by {
                        lemma_events_at_frame(pre, post, p, i as int);
                    }
                    assert forall|p: Prefix| has_entry_key(post, p) implies (has_entry_key(
                        pre,
                        p,
                    ) || p == key) by {
                        let k2 = choose|k2: int| 0 <= k2 < post.len() && post[k2].0 == p;
                        if k2 != i {
                            assert(pre[k2].0 == p);
                        }
                    }
                    assert forall|p: Prefix| (has_entry_key(pre, p) || p == key) implies
                        has_entry_key(post, p) by {
                        if p == key {
                            assert(post[i as int].0 == p);
                        } else {
                            let k2 = choose|k2: int| 0 <= k2 < pre.len() && pre[k2].0 == p;
                            assert(k2 != i);
                            assert(post[k2].0 == p);
                        }
                    }
                    assert(post[i as int].1@.len() > 0);
                }
            },
            None => {
                let mut q: Vec<NetworkEvent> = Vec::new();
                q.push(ev);
                proof {
                    lemma_events_at_absent(pre, key);
                }
                insert_sorted_entry(&mut self.event_queue, key, q);
                proof {
                    let post = self.event_queue@;
                    let k = choose|k: int|
                        0 <= k <= pre.len() && post == pre.insert(k, (key, q));
                    pre.insert_ensures(k, (key, q));
                    assert(post[k].0 == key);
                    lemma_events_at_found(post, k);
                    assert(events_at(post, key) == q@);
                    assert(q@ =~= events_at(pre, key).push(ev));
                    assert forall|p: Prefix| p != key implies events_at(post, p) == events_at(
                        pre,
                        p,
                    ) by {
                        lemma_events_at_insert_frame(pre, post, p, k, key, q);
                    }
                    assert(post[k].1@.len() > 0);
                }
            },
        }
    }


    /// Record an add: count it and enqueue a counting join for the
    /// section whose prefix matches the node's name. With no matching
    /// section nothing is enqueued.
    pub fn add_node(&mut self, node: Node)
        requires
            old(self).wf(),
        ensures
            final(self).wf(),
            final(self).nodes@ == old(self).nodes@,
            final(self).left_nodes@ == old(self).left_nodes@,
            final(self).pending_merges@ == old(self).pending_merges@,
            final(self).params == old(self).params,
            final(self).output.adds == spec_bump(old(self).output.adds),
            final(self).output.churn == spec_bump(old(self).output.churn),
            final(self).output.drops == old(self).output.drops,
            final(self).output.rejoins == old(self).output.rejoins,
            final(self).output.relocations == old(self).output.relocations,
            final(self).output.rejections == old(self).output.rejections,
            final(self).output.drops_dist@ == old(self).output.drops_dist@,
            final(self).output.network_structure@ == old(self).output.network_structure@,
            Self::spec_join_enqueued(
                old(self).nodes@,
                old(self).event_queue@,
                final(self).event_queue@,
                node,
            ),
    {
        self.output.adds = if self.output.adds < u64::MAX {
            self.output.adds + 1
        } else {
            self.output.adds
        };
        self.output.churn = if self.output.churn < u64::MAX {
            self.output.churn + 1
        } else {
            self.output.churn
        };
        match self.prefix_for_node(&node) {
            Some(p) => {
                self.queue_push(p, NetworkEvent::Live(node, true));
            },
            None => {},
        }
    }

    /// One random add: a fresh node under a uniformly random name, aged
    /// at the configured initial age.
    pub fn add_random_node(&mut self)
        requires
            old(self).wf(),
        ensures
            final(self).wf(),
            final(self).nodes@ == old(self).nodes@,
            final(self).left_nodes@ == old(self).left_nodes@,
            final(self).pending_merges@ == old(self).pending_merges@,
            final(self).params == old(self).params,
            final(self).output.adds == spec_bump(old(self).output.adds),
            final(self).output.churn == spec_bump(old(self).output.churn),
            final(self).output.drops == old(self).output.drops,
            final(self).output.rejoins == old(self).output.rejoins,
            final(self).output.relocations == old(self).output.relocations,
            final(self).output.rejections == old(self).output.rejections,
            final(self).output.drops_dist@ == old(self).output.drops_dist@,
            final(self).output.network_structure@ == old(self).output.network_structure@,
            // Some freshly named node was enqueued as a counting join for
            // the section owning its name.
            exists|name: u64|
                #[trigger] Self::spec_join_enqueued(
                    old(self).nodes@,
                    old(self).event_queue@,
                    final(self).event_queue@,
                    Node { name, age: old(self).params.init_age },
                ),
    {
        let name: u64 = rand::random::<u64>();
        let node = Node::new(name, self.params.init_age);
        self.add_node(node);
        proof {
            assert(Self::spec_join_enqueued(
                old(self).nodes@,
                old(self).event_queue@,
                self.event_queue@,
                Node { name, age: old(self).params.init_age },
            ));
        }
    }

    /// One random rejoin: a random departed node, if any, comes back
    /// under its old name with its age reset, enqueued for the section
    /// now matching that name.
    pub fn rejoin_random_node(&mut self)
        requires
            old(self).wf(),
        ensures
            final(self).wf(),
            final(self).nodes@ == old(self).nodes@,
            final(self).pending_merges@ == old(self).pending_merges@,
            final(self).params == old(self).params,
            final(self).output.rejoins == spec_bump(old(self).output.rejoins),
            final(self).output.churn == spec_bump(old(self).output.churn),
            final(self).output.adds == old(self).output.adds,
            final(self).output.drops == old(self).output.drops,
            final(self).output.relocations == old(self).output.relocations,
            final(self).output.rejections == old(self).output.rejections,
            final(self).output.drops_dist@ == old(self).output.drops_dist@,
            final(self).output.network_structure@ == old(self).output.network_structure@,
            old(self).left_nodes@.len() == 0 ==> final(self).left_nodes@ == old(self).left_nodes@ && final(self).event_queue@ == old(self).event_queue@,
            old(self).left_nodes@.len() > 0 ==> exists|k: int|
                {
                    &&& 0 <= k < old(self).left_nodes@.len()
                    &&& final(self).left_nodes@ == old(self).left_nodes@.remove(k)
                    &&& Self::spec_join_enqueued(
                        old(self).nodes@,
                        old(self).event_queue@,
                        final(self).event_queue@,
                        Node {
                            name: old(self).left_nodes@[k].name,
                            age: old(self).params.init_age,
                        },
                    )
                },
    {
        self.output.rejoins = if self.output.rejoins < u64::MAX {
            self.output.rejoins + 1
        } else {
            self.output.rejoins
        };
        self.output.churn = if self.output.churn < u64::MAX {
            self.output.churn + 1
        } else {
            self.output.churn
        };
        if self.left_nodes.len() > 0 {
            let idx = rng::random_below(self.left_nodes.len());
            let mut node = self.left_nodes.remove(idx);
            node.rejoined(self.params.init_age);
            match self.prefix_for_node(&node) {
                Some(p) => {
                    self.queue_push(p, NetworkEvent::Live(node, true));
                },
                None => {},
            }
        }
    }

    /// Scan the sections for a drop victim: sections in key order, each
    /// section's members by ascending age (names break ties), accepting
    /// a candidate when a fresh random number is divisible by its
    /// age-dependent modulus.
    fn choose_drop_victim(&self) -> (r: Option<(Prefix, Node)>)
        requires
            self.wf(),
        ensures
            r matches Some(pn) ==> exists|i: int|
                0 <= i < self.nodes@.len() && (#[trigger] self.nodes@[i]).0 == pn.0
                    && self.nodes@[i].1.members@.contains(pn.1),
    {
        let mut si: usize = 0;
        while si < self.nodes.len()
            invariant
                self.wf(),
                0 <= si <= self.nodes@.len(),
            decreases self.nodes@.len() - si,
        {
            let mut age: u16 = 0;
            while age <= 255
                invariant
                    self.wf(),
                    0 <= si < self.nodes@.len(),
                    age <= 256,
                decreases 256 - age,
            {
                let mut mi: usize = 0;
                while mi < self.nodes[si].1.members.len()
                    invariant
                        self.wf(),
                        0 <= si < self.nodes@.len(),
                        0 <= mi <= self.nodes@[si as int].1.members@.len(),
                    decreases self.nodes@[si as int].1.members@.len() - mi,
                {
                    let m = self.nodes[si].1.members[mi];
                    if m.age as u16 == age {
                        let roll: u64 = rand::random::<u64>();
                        if m.drop_accepts(roll, self.params.drop_dist) {
                            proof {
                                assert(self.nodes@[si as int].1.members@.contains(
                                    self.nodes@[si as int].1.members@[mi as int],
                                ));
                            }
                            return Some((self.nodes[si].0, m));
                        }
                    }
                    mi += 1;
                }
                age += 1;
            }
            si += 1;
        }
        None
    }

    /// One random drop: an age-weighted scan picks a victim; if one is
    /// accepted, the drop is counted, recorded in the by-age histogram,
    /// and a loss is enqueued for the victim's section.
    pub fn drop_random_node(&mut self)
        requires
            old(self).wf(),
        ensures
            final(self).wf(),
            final(self).nodes@ == old(self).nodes@,
            final(self).left_nodes@ == old(self).left_nodes@,
            final(self).pending_merges@ == old(self).pending_merges@,
            final(self).params == old(self).params,
            final(self).output.network_structure@ == old(self).output.network_structure@,
            final(self).output.adds == old(self).output.adds,
            final(self).output.rejoins == old(self).output.rejoins,
            // Either the scan accepted nobody and nothing changed, or
            // one member of one section was counted and its loss queued.
            (final(self).output.drops == old(self).output.drops && final(self).output.churn
                == old(self).output.churn && final(self).output.drops_dist@ == old(self).output.drops_dist@ && final(self).event_queue@ == old(self).event_queue@) || (
            exists|i: int, n: Node|
                {
                    &&& 0 <= i < old(self).nodes@.len()
                    &&& #[trigger] old(self).nodes@[i].1.members@.contains(n)
                    &&& final(self).output.drops == spec_bump(old(self).output.drops)
                    &&& final(self).output.churn == spec_bump(old(self).output.churn)
                    &&& final(self).output.drops_dist@ == old(self).output.drops_dist@.update(
                        n.age as int,
                        spec_bump(old(self).output.drops_dist@[n.age as int]),
                    )
                    &&& events_at(final(self).event_queue@, old(self).nodes@[i].0) == events_at(
                        old(self).event_queue@,
                        old(self).nodes@[i].0,
                    ).push(NetworkEvent::Lost(n.name))
                }),
    {
        let victim = self.choose_drop_victim();
        match victim {
            Some((prefix, node)) => {
                self.output.drops = if self.output.drops < u64::MAX {
                    self.output.drops + 1
                } else {
                    self.output.drops
                };
                self.output.churn = if self.output.churn < u64::MAX {
                    self.output.churn + 1
                } else {
                    self.output.churn
                };
                let a = node.age as usize;
                let c = self.output.drops_dist[a];
                self.output.drops_dist.set(
                    a,
                    if c < u64::MAX {
                        c + 1
                    } else {
                        c
                    },
                );
                self.queue_push(prefix, NetworkEvent::Lost(node.name));
            },
            None => {},
        }
    }


    /// Whether the queues record one relocation of `node` from `src` to
    /// `target` as the renamed node `m`: the owner is told the node left,
    /// `m` joins the target counting, and no other queue changes.
    pub open spec fn spec_relocated_delivery(
        pre_q: Seq<(Prefix, Vec<NetworkEvent>)>,
        post_q: Seq<(Prefix, Vec<NetworkEvent>)>,
        node: Node,
        src: Prefix,
        target: Prefix,
        m: Node,
    ) -> bool {
        &&& m.age == (if node.age < 255 {
            node.age + 1
        } else {
            255int
        })
        &&& target.spec_matches(m.name)
        &&& (if target == src {
            events_at(post_q, src) == events_at(pre_q, src).push(
                NetworkEvent::Relocated(node),
            ).push(NetworkEvent::Live(m, true))
        } else {
            events_at(post_q, src) == events_at(pre_q, src).push(NetworkEvent::Relocated(node))
                && events_at(post_q, target) == events_at(pre_q, target).push(
                NetworkEvent::Live(m, true),
            )
        })
        &&& forall|q: Prefix|
            q != src && q != target ==> events_at(post_q, q) == events_at(pre_q, q)
    }

    /// Where a relocation from `src` goes: the first neighbouring
    /// section key, or `src` itself when none exists.
    pub open spec fn spec_relocation_target(s: Seq<(Prefix, Section)>, src: Prefix) -> Prefix {
        match Self::spec_first_neighbour(s, src) {
            Some(t) => t,
            None => src,
        }
    }

    /// The first section key, in key order, neighbouring the given one.
    pub open spec fn spec_first_neighbour(s: Seq<(Prefix, Section)>, src: Prefix) -> Option<
        Prefix,
    >
        decreases s.len(),
    {
        if s.len() == 0 {
            None
        } else if s[0].0.spec_is_neighbour(src) {
            Some(s[0].0)
        } else {
            Self::spec_first_neighbour(s.subrange(1, s.len() as int), src)
        }
    }

    /// Find the first section key neighbouring the given one, if any.
    fn first_neighbour(&self, src: &Prefix) -> (r: Option<Prefix>)
        requires
            self.wf(),
            src.wf(),
        ensures
            r == Self::spec_first_neighbour(self.nodes@, *src),
            r matches Some(t) ==> t.wf(),
    {
        let ghost sq = self.nodes@;
        let mut i: usize = 0;
        while i < self.nodes.len()
            invariant
                self.wf(),
                self.nodes@ == sq,
                src.wf(),
                0 <= i <= sq.len(),
                forall|k: int| 0 <= k < i ==> !(#[trigger] sq[k].0).spec_is_neighbour(*src),
            decreases sq.len() - i,
        {
            if self.nodes[i].0.is_neighbour(src) {
                proof {
                    lemma_first_neighbour_from(sq, *src, i as int);
                    assert(sq.subrange(i as int, sq.len() as int)[0] == sq[i as int]);
                }
                return Some(self.nodes[i].0);
            }
            i += 1;
        }
        proof {
            lemma_first_neighbour_from(sq, *src, sq.len() as int);
            assert(sq.subrange(sq.len() as int, sq.len() as int) =~= Seq::<(
                Prefix,
                Section,
            )>::empty());
        }
        None
    }

    /// Relocate a node: find its current section, pick the neighbouring
    /// section (the one differing in the last prefix bit) or the section
    /// itself when none exists, tell the current section the node is
    /// leaving, rename the node under the target with its age grown, and
    /// enqueue its counting join there.
    fn relocate(&mut self, node: Node)
        requires
            old(self).wf(),
        ensures
            final(self).wf(),
            final(self).nodes@ == old(self).nodes@,
            final(self).left_nodes@ == old(self).left_nodes@,
            final(self).pending_merges@ == old(self).pending_merges@,
            final(self).params == old(self).params,
            final(self).output.relocations == spec_bump(old(self).output.relocations),
            final(self).output.churn == spec_bump(spec_bump(old(self).output.churn)),
            final(self).output.adds == old(self).output.adds,
            final(self).output.drops == old(self).output.drops,
            final(self).output.rejoins == old(self).output.rejoins,
            final(self).output.rejections == old(self).output.rejections,
            final(self).output.drops_dist@ == old(self).output.drops_dist@,
            final(self).output.network_structure@ == old(self).output.network_structure@,
            // With no section owning the name, nothing is queued. Else
            // the owner is told the node left, and a renamed, one year
            // older node is enqueued as a counting join at the first
            // neighbouring section key, or back at the owner when no
            // neighbour exists.
            Self::spec_first_matching(old(self).nodes@, node.name) is None
                ==> final(self).event_queue@ == old(self).event_queue@,
            Self::spec_first_matching(old(self).nodes@, node.name) matches Some(src)
                ==> exists|m: Node|
                #[trigger] Self::spec_relocated_delivery(
                    old(self).event_queue@,
                    final(self).event_queue@,
                    node,
                    src,
                    Self::spec_relocation_target(old(self).nodes@, src),
                    m,
                ),
    {
        self.output.relocations = if self.output.relocations < u64::MAX {
            self.output.relocations + 1
        } else {
            self.output.relocations
        };
        self.output.churn = if self.output.churn < u64::MAX {
            self.output.churn + 1
        } else {
            self.output.churn
        };
        self.output.churn = if self.output.churn < u64::MAX {
            self.output.churn + 1
        } else {
            self.output.churn
        };
        let src = match self.prefix_for_node(&node) {
            Some(p) => p,
            None => {
                return ;
            },
        };
        let target = match self.first_neighbour(&src) {
            Some(t) => t,
            None => src,
        };
        let ghost pre_q = self.event_queue@;
        self.queue_push(src, NetworkEvent::Relocated(node));
        let ghost mid_q = self.event_queue@;
        let mut moved = node;
        let rbits: u64 = rand::random::<u64>();
        moved.relocate(&target, rbits);
        self.queue_push(target, NetworkEvent::Live(moved, true));
        proof {
            let post_q = self.event_queue@;
            if target == src {
                assert(events_at(post_q, src) == events_at(mid_q, src).push(
                    NetworkEvent::Live(moved, true),
                ));
                assert(events_at(mid_q, src) == events_at(pre_q, src).push(
                    NetworkEvent::Relocated(node),
                ));
            } else {
                assert(events_at(mid_q, target) == events_at(pre_q, target));
                assert(events_at(post_q, src) == events_at(mid_q, src));
            }
            assert forall|q: Prefix|
                q != src && q != target implies events_at(post_q, q) == events_at(
                pre_q,
                q,
            ) by {
                assert(events_at(mid_q, q) == events_at(pre_q, q));
                assert(events_at(post_q, q) == events_at(mid_q, q));
            }
            assert(Self::spec_relocated_delivery(pre_q, post_q, node, src, target, moved));
            assert(Self::spec_first_matching(old(self).nodes@, node.name) == Some(src));
            assert(target == Self::spec_relocation_target(old(self).nodes@, src));
            assert(Self::spec_relocated_delivery(
                old(self).event_queue@,
                self.event_queue@,
                node,
                src,
                Self::spec_relocation_target(old(self).nodes@, src),
                moved,
            ));
        }
    }

    /// Append a structural snapshot of the network to the output.
    pub fn capture_network_structure(&mut self)
        requires
            old(self).wf(),
        ensures
            final(self).wf(),
            final(self).nodes@ == old(self).nodes@,
            final(self).left_nodes@ == old(self).left_nodes@,
            final(self).event_queue@ == old(self).event_queue@,
            final(self).pending_merges@ == old(self).pending_merges@,
            final(self).params == old(self).params,
            final(self).output.adds == old(self).output.adds,
            final(self).output.drops == old(self).output.drops,
            final(self).output.rejoins == old(self).output.rejoins,
            final(self).output.relocations == old(self).output.relocations,
            final(self).output.rejections == old(self).output.rejections,
            final(self).output.churn == old(self).output.churn,
            final(self).output.drops_dist@ == old(self).output.drops_dist@,
            final(self).output.network_structure@ == old(self).output.network_structure@.push(
                NetworkStructure {
                    size: spec_cap_usize(spec_total_nodes(old(self).nodes@)) as usize,
                    sections: old(self).nodes@.len() as usize,
                    complete: spec_complete_count(old(self).nodes@) as usize,
                },
            ),
    {
        let ghost sq = self.nodes@;
        let mut size: usize = 0;
        let mut complete: usize = 0;
        let mut i: usize = 0;
        while i < self.nodes.len()
            invariant
                self.wf(),
                self.nodes@ == sq,
                0 <= i <= sq.len(),
                size == spec_cap_usize(spec_total_nodes(sq.take(i as int))),
                complete == spec_complete_count(sq.take(i as int)),
                complete <= i,
            decreases sq.len() - i,
        {
            proof {
                assert(sq.take(i + 1).drop_last() =~= sq.take(i as int));
                assert(sq.take(i + 1).last() == sq[i as int]);
            }
            let l = self.nodes[i].1.len();
            size = if l <= usize::MAX - size {
                size + l
            } else {
                usize::MAX
            };
            if self.nodes[i].1.is_complete() {
                complete = complete + 1;
            }
            i += 1;
        }
        proof {
            assert(sq.take(sq.len() as int) =~= sq);
            lemma_complete_count_le(sq);
        }
        let st = NetworkStructure { size, sections: self.nodes.len(), complete };
        self.output.network_structure.push(st);
    }

    /// The number of nodes of each age, as a table indexed by age.
    pub fn age_distribution(&self) -> (r: Vec<usize>)
        requires
            self.wf(),
        ensures
            r@.len() == 256,
            forall|a: int|
                0 <= a < 256 ==> r@[a] == spec_cap_usize(spec_age_count(self.nodes@, a)),
    {
        let ghost sq = self.nodes@;
        let mut r: Vec<usize> = Vec::new();
        let mut z: usize = 0;
        while z < 256
            invariant
                r@.len() == z,
                0 <= z <= 256,
                forall|a: int| 0 <= a < z ==> r@[a] == 0,
            decreases 256 - z,
        {
            r.push(0);
            z += 1;
        }
        let mut i: usize = 0;
        while i < self.nodes.len()
            invariant
                self.wf(),
                self.nodes@ == sq,
                0 <= i <= sq.len(),
                r@.len() == 256,
                forall|a: int|
                    0 <= a < 256 ==> r@[a] == spec_cap_usize(spec_age_count(sq.take(i as int), a)),
            decreases sq.len() - i,
        {
            proof {
                assert(sq.take(i + 1).drop_last() =~= sq.take(i as int));
                assert(sq.take(i + 1).last() == sq[i as int]);
            }
            let ghost rpre = r@;
            let members = &self.nodes[i].1.members;
            let mut j: usize = 0;
            while j < members.len()
                invariant
                    self.wf(),
                    self.nodes@ == sq,
                    0 <= i < sq.len(),
                    members@ == sq[i as int].1.members@,
                    0 <= j <= members@.len(),
                    r@.len() == 256,
                    forall|a: int|
                        0 <= a < 256 ==> r@[a] == spec_cap_usize(
                            spec_age_count(sq.take(i as int), a) + crate::section::count_nodes(
                                members@.take(j as int),
                                |m: Node| m.age as int == a,
                            ),
                        ),
                decreases members@.len() - j,
            {
                let m = members[j];
                let a = m.age as usize;
                let c = r[a];
                let c2 = if c < usize::MAX {
                    c + 1
                } else {
                    c
                };
                let ghost rold = r@;
                r.set(a, c2);
                proof {
                    assert forall|x: int| 0 <= x < 256 implies r@[x] == spec_cap_usize(
                        spec_age_count(sq.take(i as int), x) + crate::section::count_nodes(
                            members@.take(j + 1),
                            |m2: Node| m2.age as int == x,
                        ),
                    ) by {
                        crate::section::lemma_count_take_step(
                            members@,
                            |m2: Node| m2.age as int == x,
                            j as int,
                        );
                        if x != a {
                            assert(r@[x] == rold[x]);
                        }
                    }
                }
                j += 1;
            }
            proof {
                assert(members@.take(members@.len() as int) =~= members@);
                assert forall|a: int| 0 <= a < 256 implies r@[a] == spec_cap_usize(
                    spec_age_count(sq.take(i + 1), a),
                ) by {
                    assert(crate::section::count_nodes(
                        members@.take(members@.len() as int),
                        |m2: Node| m2.age as int == a,
                    ) == crate::section::count_nodes(members@, |m2: Node| m2.age as int == a));
                }
            }
            i += 1;
        }
        proof {
            assert(sq.take(sq.len() as int) =~= sq);
        }
        r
    }

    /// The number of complete sections.
    pub fn complete_sections(&self) -> (r: usize)
        requires
            self.wf(),
        ensures
            r == spec_complete_count(self.nodes@),
    {
        let ghost sq = self.nodes@;
        let mut complete: usize = 0;
        let mut i: usize = 0;
        while i < self.nodes.len()
            invariant
                self.wf(),
                self.nodes@ == sq,
                0 <= i <= sq.len(),
                complete == spec_complete_count(sq.take(i as int)),
                complete <= i,
            decreases sq.len() - i,
        {
            proof {
                assert(sq.take(i + 1).drop_last() =~= sq.take(i as int));
                assert(sq.take(i + 1).last() == sq[i as int]);
            }
            if self.nodes[i].1.is_complete() {
                complete = complete + 1;
            }
            i += 1;
        }
        proof {
            assert(sq.take(sq.len() as int) =~= sq);
        }
        complete
    }


    /// Whether the queues hold a full merge preamble towards the
    /// simulated merged section `m`: every section key under the target
    /// has exactly its preamble queued, and every other queue is as it
    /// was. `m` holds exactly the names of the sections under the target.
    pub open spec fn spec_merge_installed(
        pre_nodes: Seq<(Prefix, Section)>,
        pre_q: Seq<(Prefix, Vec<NetworkEvent>)>,
        post_q: Seq<(Prefix, Vec<NetworkEvent>)>,
        target: Prefix,
        m: Section,
    ) -> bool {
        &&& m.wf()
        &&& (forall|nm: u64|
            #[trigger] has_name(m.members@, nm) <==> exists|j: int|
                0 <= j < pre_nodes.len() && target.spec_is_ancestor(
                    (#[trigger] pre_nodes[j]).0,
                ) && has_name(pre_nodes[j].1.members@, nm))
        &&& (forall|j: int|
            0 <= j < pre_nodes.len() && target.spec_is_ancestor((#[trigger] pre_nodes[j]).0)
                ==> events_at(post_q, pre_nodes[j].0) =~= seq![
                NetworkEvent::StartMerge(m.prefix),
            ] + gone_diff(
                crate::section::filter_elders(pre_nodes[j].1, pre_nodes[j].1.members@),
                crate::section::filter_elders(m, m.members@),
            ) + live_diff(
                crate::section::filter_elders(m, m.members@),
                crate::section::filter_elders(pre_nodes[j].1, pre_nodes[j].1.members@),
            ) + seq![NetworkEvent::PrefixChange(m.prefix)])
        &&& (forall|q: Prefix|
            !(has_entry_key(pre_nodes, q) && target.spec_is_ancestor(q)) ==> events_at(
                post_q,
                q,
            ) == events_at(pre_q, q))
    }

    /// The preamble a participant section must process before a merge:
    /// start merging, say goodbye to its elders that lose their seat in
    /// the merged section, greet the merged section's other elders, and
    /// adopt the target prefix.
    fn calculate_merge_events(&self, merged: &Section, pfx: Prefix) -> (r: Vec<NetworkEvent>)
        requires
            self.wf(),
            merged.wf(),
        ensures
            forall|i: int|
                0 <= i < self.nodes@.len() && (#[trigger] self.nodes@[i]).0 == pfx ==> r@
                    =~= seq![NetworkEvent::StartMerge(merged.prefix)] + gone_diff(
                    crate::section::filter_elders(
                        self.nodes@[i].1,
                        self.nodes@[i].1.members@,
                    ),
                    crate::section::filter_elders(*merged, merged.members@),
                ) + live_diff(
                    crate::section::filter_elders(*merged, merged.members@),
                    crate::section::filter_elders(self.nodes@[i].1, self.nodes@[i].1.members@),
                ) + seq![NetworkEvent::PrefixChange(merged.prefix)],
            !has_entry_key(self.nodes@, pfx) ==> r@ =~= seq![
                NetworkEvent::StartMerge(merged.prefix),
                NetworkEvent::PrefixChange(merged.prefix),
            ],
            forall|k: int| 0 <= k < r@.len() ==> spec_event_wf(#[trigger] r@[k]),
    {
        let mut r: Vec<NetworkEvent> = Vec::new();
        r.push(NetworkEvent::StartMerge(merged.prefix));
        match find_entry(&self.nodes, &pfx) {
            Some(i) => {
                let old_elders = self.nodes[i].1.elders();
                let new_elders = merged.elders();
                let ghost oe = old_elders@;
                let ghost ne = new_elders@;
                let mut k: usize = 0;
                while k < old_elders.len()
                    invariant
                        old_elders@ == oe,
                        new_elders@ == ne,
                        0 <= k <= oe.len(),
                        merged.wf(),
                        r@ =~= seq![NetworkEvent::StartMerge(merged.prefix)] + gone_diff(
                            oe.take(k as int),
                            ne,
                        ),
                    decreases oe.len() - k,
                {
                    proof {
                        assert(oe.take(k + 1).drop_last() =~= oe.take(k as int));
                        assert(oe.take(k + 1).last() == oe[k as int]);
                    }
                    let m = old_elders[k];
                    if !contains_node(&new_elders, &m) {
                        r.push(NetworkEvent::Gone(m));
                    }
                    k += 1;
                }
                proof {
                    assert(oe.take(oe.len() as int) =~= oe);
                }
                let ghost base = r@;
                let mut k2: usize = 0;
                while k2 < new_elders.len()
                    invariant
                        old_elders@ == oe,
                        new_elders@ == ne,
                        0 <= k2 <= ne.len(),
                        merged.wf(),
                        r@ =~= base + live_diff(ne.take(k2 as int), oe),
                        base == seq![NetworkEvent::StartMerge(merged.prefix)] + gone_diff(
                            oe,
                            ne,
                        ),
                    decreases ne.len() - k2,
                {
                    proof {
                        assert(ne.take(k2 + 1).drop_last() =~= ne.take(k2 as int));
                        assert(ne.take(k2 + 1).last() == ne[k2 as int]);
                    }
                    let m = new_elders[k2];
                    if !contains_node(&old_elders, &m) {
                        r.push(NetworkEvent::Live(m, false));
                    }
                    k2 += 1;
                }
                proof {
                    assert(ne.take(ne.len() as int) =~= ne);
                }
                r.push(NetworkEvent::PrefixChange(merged.prefix));
                proof {
                    assert forall|j: int|
                        0 <= j < self.nodes@.len() && (#[trigger] self.nodes@[j]).0 == pfx
                            implies j == i by {
                        if j != i {
                            assert(self.nodes@[j].0.spec_lt(self.nodes@[i as int].0)
                                || self.nodes@[i as int].0.spec_lt(self.nodes@[j].0));
                        }
                    }
                    lemma_gone_diff_wf(oe, ne);
                    lemma_live_diff_wf(ne, oe);
                }
            },
            None => {
                r.push(NetworkEvent::PrefixChange(merged.prefix));
            },
        }
        r
    }

    /// Handle a merge request from a section: pick the parent prefix as
    /// the merge target, apply the compatibility policy to the pending
    /// merges, install a pending merge over every section under the
    /// target, and queue each participant's preamble.
    #[verifier::spinoff_prover]
    #[verifier::rlimit(100)]
    fn merge(&mut self, prefix: Prefix)
        requires
            old(self).wf(),
            prefix.wf(),
        ensures
            final(self).wf(),
            final(self).nodes@ == old(self).nodes@,
            final(self).left_nodes@ == old(self).left_nodes@,
            final(self).params == old(self).params,
            final(self).output == old(self).output,
            // A request from the root changes nothing.
            prefix.len == 0 ==> final(self).pending_merges@ == old(self).pending_merges@
                && final(self).event_queue@ == old(self).event_queue@,
            // A pending merge at or above the target subsumes the
            // request: nothing changes.
            prefix.len >= 1 && (exists|i: int|
                0 <= i < old(self).pending_merges@.len() && (
                #[trigger] old(self).pending_merges@[i]).0.spec_is_ancestor(
                    prefix.spec_shorten(),
                )) ==> final(self).pending_merges@ == old(self).pending_merges@
                && final(self).event_queue@ == old(self).event_queue@,
            // Otherwise every narrower pending merge is cancelled; and
            // when sections exist under the target, a pending merge over
            // exactly those keys, none done, is installed at the target,
            // and each of those sections' queues is replaced by its
            // preamble towards the simulated merged section.
            prefix.len >= 1 && !(exists|i: int|
                0 <= i < old(self).pending_merges@.len() && (
                #[trigger] old(self).pending_merges@[i]).0.spec_is_ancestor(
                    prefix.spec_shorten(),
                )) ==> {
                let target = prefix.spec_shorten();
                let under = keys_under(old(self).nodes@, target);
                &&& (under.len() == 0 ==> final(self).pending_merges@ == pending_without(
                    old(self).pending_merges@,
                    target,
                ) && final(self).event_queue@ == old(self).event_queue@)
                &&& (under.len() > 0 ==> {
                    &&& exists|k: int|
                        {
                            &&& 0 <= k < final(self).pending_merges@.len()
                            &&& (#[trigger] final(self).pending_merges@[k]).0 == target
                            &&& final(self).pending_merges@[k].1.complete@.len()
                                == under.len()
                            &&& (forall|i: int|
                                0 <= i < under.len()
                                    ==> final(self).pending_merges@[k].1.complete@[i] == (
                                under[i],
                                false,
                                ))
                            &&& final(self).pending_merges@ == pending_without(
                                old(self).pending_merges@,
                                target,
                            ).insert(k, final(self).pending_merges@[k])
                        }
                    &&& exists|m: Section|
                        #[trigger] Self::spec_merge_installed(
                            old(self).nodes@,
                            old(self).event_queue@,
                            final(self).event_queue@,
                            target,
                            m,
                        )
                })
            },
    {
        if prefix.len == 0 {
            return ;
        }
        let target = prefix.shorten();
        // A pending merge at the target or above subsumes this request.
        let mut i: usize = 0;
        while i < self.pending_merges.len()
            invariant
                self.wf(),
                target.wf(),
                target == prefix.spec_shorten(),
                0 <= i <= self.pending_merges@.len(),
                forall|k: int|
                    0 <= k < i ==> !(#[trigger] self.pending_merges@[k].0).spec_is_ancestor(
                        target,
                    ),
                self.nodes@ == old(self).nodes@,
                self.left_nodes@ == old(self).left_nodes@,
                self.pending_merges@ == old(self).pending_merges@,
                self.params == old(self).params,
                self.output == old(self).output,
                self.event_queue@ == old(self).event_queue@,
            decreases self.pending_merges@.len() - i,
        {
            if self.pending_merges[i].0.is_ancestor(&target) {
                return ;
            }
            i += 1;
        }
        let ghost pend0 = self.pending_merges@;
        // Cancel pending merges below the target: the larger merge
        // takes over.
        let mut j: usize = 0;
        let ghost mut consumed: int = 0;
        while j < self.pending_merges.len()
            invariant
                self.wf(),
                target.wf(),
                0 <= consumed <= pend0.len(),
                j == pending_without(pend0.subrange(0, consumed), target).len(),
                self.pending_merges@ =~= pending_without(pend0.subrange(0, consumed), target)
                    + pend0.subrange(consumed, pend0.len() as int),
                forall|k: int|
                    0 <= k < pend0.len() ==> !(#[trigger] pend0[k].0).spec_is_ancestor(target),
                forall|k: int|
                    0 <= k < j ==> !(#[trigger] self.pending_merges@[k].0)
                        .spec_is_compatible_with(target),
                self.nodes@ == old(self).nodes@,
                self.left_nodes@ == old(self).left_nodes@,
                self.params == old(self).params,
                self.output == old(self).output,
                self.event_queue@ == old(self).event_queue@,
            decreases self.pending_merges@.len() - j,
        {
            let ghost cur = self.pending_merges@;
            let ghost kept = pending_without(pend0.subrange(0, consumed), target);
            proof {
                assert(pend0.subrange(0, consumed + 1).drop_last() =~= pend0.subrange(
                    0,
                    consumed,
                ));
                assert(pend0.subrange(0, consumed + 1).last() == pend0[consumed]);
                assert(cur[j as int] == pend0.subrange(consumed, pend0.len() as int)[0]);
                assert(cur[j as int] == pend0[consumed]);
            }
            if target.is_ancestor(&self.pending_merges[j].0) {
                let _removed = self.pending_merges.remove(j);
                proof {
                    cur.remove_ensures(j as int);
                    lemma_remove_keeps_sorted(cur, j as int);
                    consumed = consumed + 1;
                    assert(self.pending_merges@ =~= pending_without(
                        pend0.subrange(0, consumed),
                        target,
                    ) + pend0.subrange(consumed, pend0.len() as int));
                    assert forall|k: int|
                        0 <= k < j implies !(#[trigger] self.pending_merges@[k].0)
                            .spec_is_compatible_with(target) by {
                        assert(self.pending_merges@[k] == cur[k]);
                    }
                }
            } else {
                proof {
                    consumed = consumed + 1;
                    assert(self.pending_merges@ =~= pending_without(
                        pend0.subrange(0, consumed),
                        target,
                    ) + pend0.subrange(consumed, pend0.len() as int));
                }
                j += 1;
            }
        }
        proof {
            assert(pend0.subrange(0, pend0.len() as int) =~= pend0);
            assert(pend0.subrange(consumed, pend0.len() as int).len() == 0);
            assert(consumed == pend0.len());
            assert(self.pending_merges@ =~= pending_without(pend0, target));
        }
        let ghost filtered = self.pending_merges@;
        // Gather the participants: every section key under the target.
        let ghost sq = self.nodes@;
        let mut participants: Vec<Prefix> = Vec::new();
        let mut si: usize = 0;
        while si < self.nodes.len()
            invariant
                self.wf(),
                self.nodes@ == sq,
                target.wf(),
                0 <= si <= sq.len(),
                participants@ =~= keys_under(sq.subrange(0, si as int), target),
                forall|a: int, b: int|
                    0 <= a < b < participants@.len() ==> (#[trigger] participants@[a]).spec_lt(
                        #[trigger] participants@[b],
                    ),
                forall|a: int|
                    0 <= a < participants@.len() ==> (#[trigger] participants@[a]).wf()
                        && target.spec_is_ancestor(participants@[a]),
                forall|a: int|
                    0 <= a < participants@.len() ==> exists|k: int|
                        0 <= k < si && #[trigger] participants@[a] == sq[k].0,
                self.nodes@ == old(self).nodes@,
                self.left_nodes@ == old(self).left_nodes@,
                self.pending_merges@ == filtered,
                self.params == old(self).params,
                self.output == old(self).output,
                self.event_queue@ == old(self).event_queue@,
            decreases sq.len() - si,
        {
            proof {
                assert(sq.subrange(0, si + 1).drop_last() =~= sq.subrange(0, si as int));
                assert(sq.subrange(0, si + 1).last() == sq[si as int]);
            }
            if target.is_ancestor(&self.nodes[si].0) {
                proof {
                    assert forall|a: int|
                        0 <= a < participants@.len() implies (#[trigger] participants@[a])
                            .spec_lt(sq[si as int].0) by {
                        let k = choose|k: int| 0 <= k < si && participants@[a] == sq[k].0;
                    }
                }
                participants.push(self.nodes[si].0);
            }
            si += 1;
        }
        proof {
            assert(sq.subrange(0, sq.len() as int) =~= sq);
            assert(participants@ =~= keys_under(sq, target));
        }
        if participants.len() == 0 {
            return ;
        }
        // Simulate the merged section without touching the real ones.
        let mut sim: Vec<Section> = Vec::new();
        let mut pi: usize = 0;
        while pi < participants.len()
            invariant
                self.wf(),
                self.nodes@ == sq,
                0 <= pi <= participants@.len(),
                sim@.len() == pi,
                forall|a: int| 0 <= a < sim@.len() ==> (#[trigger] sim@[a]).wf(),
                forall|a: int|
                    0 <= a < sim@.len() ==> exists|k: int|
                        0 <= k < sq.len() && (#[trigger] sq[k]).0 == participants@[a] && (
                        #[trigger] sim@[a]).members@ == sq[k].1.members@,
                forall|a: int|
                    0 <= a < participants@.len() ==> exists|k: int|
                        0 <= k < sq.len() && #[trigger] participants@[a] == sq[k].0,
                self.nodes@ == old(self).nodes@,
                self.left_nodes@ == old(self).left_nodes@,
                self.pending_merges@ == filtered,
                self.params == old(self).params,
                self.output == old(self).output,
                self.event_queue@ == old(self).event_queue@,
            decreases participants@.len() - pi,
        {
            match find_entry(&self.nodes, &participants[pi]) {
                Some(idx) => {
                    let copy = self.nodes[idx].1.duplicate();
                    proof {
                        assert(self.nodes@[idx as int].1.wf());
                    }
                    sim.push(copy);
                },
                None => {
                    proof {
                        let k = choose|k: int|
                            0 <= k < sq.len() && #[trigger] participants@[pi as int] == sq[
                                k
                            ].0;
                        assert(has_entry_key(self.nodes@, participants@[pi as int]));
                        assert(false);
                    }
                },
            }
            pi += 1;
        }
        let ghost simv = sim@;
        let merged = combine_sections(sim, &self.params);
        proof {
            assert forall|nm: u64|
                #[trigger] has_name(merged.members@, nm) <==> exists|jx: int|
                    0 <= jx < sq.len() && target.spec_is_ancestor((#[trigger] sq[jx]).0)
                        && has_name(sq[jx].1.members@, nm) by {
                if has_name(merged.members@, nm) {
                    assert(any_has_name(simv, nm));
                    let a = choose|a: int|
                        0 <= a < simv.len() && has_name((#[trigger] simv[a]).members@, nm);
                    let k = choose|k: int|
                        0 <= k < sq.len() && (#[trigger] sq[k]).0 == participants@[a]
                            && simv[a].members@ == sq[k].1.members@;
                    assert(target.spec_is_ancestor(sq[k].0));
                    assert(has_name(sq[k].1.members@, nm));
                }
                if exists|jx: int|
                    0 <= jx < sq.len() && target.spec_is_ancestor((#[trigger] sq[jx]).0)
                        && has_name(sq[jx].1.members@, nm) {
                    let jx = choose|jx: int|
                        0 <= jx < sq.len() && target.spec_is_ancestor((#[trigger] sq[jx]).0)
                            && has_name(sq[jx].1.members@, nm);
                    lemma_keys_under_contains(sq, target, jx);
                    let a = choose|a: int|
                        0 <= a < participants@.len() && participants@[a] == sq[jx].0;
                    let k = choose|k: int|
                        0 <= k < sq.len() && (#[trigger] sq[k]).0 == participants@[a]
                            && simv[a].members@ == sq[k].1.members@;
                    assert(k == jx);
                    assert(has_name(simv[a].members@, nm));
                    assert(any_has_name(simv, nm));
                }
            }
        }
        // Install the pending merge.
        let pm = PendingMerge::from_prefixes(&participants);
        let ghost pend_pre = self.pending_merges@;
        proof {
            if has_entry_key(pend_pre, target) {
                let k = choose|k: int| 0 <= k < pend_pre.len() && pend_pre[k].0 == target;
                crate::prefix::lemma_ancestor_reflexive(target);
                assert(pend_pre[k].0.spec_is_compatible_with(target));
            }
        }
        insert_sorted_entry(&mut self.pending_merges, target, pm);
        proof {
            let post = self.pending_merges@;
            let ki = choose|ki: int|
                0 <= ki <= pend_pre.len() && post == pend_pre.insert(ki, (target, pm));
            pend_pre.insert_ensures(ki, (target, pm));
            assert forall|a: int|
                0 <= a < post.len() implies (#[trigger] post[a]).0.wf() && post[a].1.wf() by {
                if a < ki {
                    assert(post[a] == pend_pre[a]);
                } else if a > ki {
                    assert(post[a] == pend_pre[a - 1]);
                }
            }
            assert forall|a: int, b: int|
                0 <= a < post.len() && 0 <= b < post[a].1.complete@.len() implies (
            #[trigger] post[a].1.complete@[b].0).wf() && post[a].0.spec_is_ancestor(
                post[a].1.complete@[b].0,
            ) by {
                if a < ki {
                    assert(post[a] == pend_pre[a]);
                    assert((pend_pre[a].1.complete@[b].0).wf() && pend_pre[a].0
                        .spec_is_ancestor(pend_pre[a].1.complete@[b].0));
                } else if a > ki {
                    assert(post[a] == pend_pre[a - 1]);
                    assert((pend_pre[a - 1].1.complete@[b].0).wf() && pend_pre[a - 1].0
                        .spec_is_ancestor(pend_pre[a - 1].1.complete@[b].0));
                } else {
                    assert(post[a].1.complete@[b].0 == participants@[b]);
                }
            }
            assert forall|a: int, b: int|
                0 <= a < b < post.len() implies !(#[trigger] post[a].0).spec_is_compatible_with(
                    #[trigger] post[b].0,
                ) by {
                if a < ki {
                    assert(post[a] == pend_pre[a]);
                } else if a > ki {
                    assert(post[a] == pend_pre[a - 1]);
                }
                if b < ki {
                    assert(post[b] == pend_pre[b]);
                } else if b > ki {
                    assert(post[b] == pend_pre[b - 1]);
                }
            }
            assert(post[ki].0 == target && post[ki].1 == pm);
            assert(post == pending_without(old(self).pending_merges@, target).insert(
                ki,
                post[ki],
            ));
        }
        // Queue each participant's preamble, replacing whatever the
        // participant had queued.
        let ghost q0 = self.event_queue@;
        let ghost pend_post = self.pending_merges@;
        let mut qi: usize = 0;
        while qi < participants.len()
            invariant
                self.wf(),
                merged.wf(),
                self.nodes@ == sq,
                self.pending_merges@ == pend_post,
                0 <= qi <= participants@.len(),
                participants@ =~= keys_under(sq, target),
                forall|a: int, b: int|
                    0 <= a < b < participants@.len() ==> (#[trigger] participants@[a]).spec_lt(
                        #[trigger] participants@[b],
                    ),
                forall|a: int|
                    0 <= a < participants@.len() ==> (#[trigger] participants@[a]).wf()
                        && target.spec_is_ancestor(participants@[a]),
                forall|a: int, jx: int|
                    0 <= a < qi && 0 <= jx < sq.len() && (#[trigger] sq[jx]).0 == (
                    #[trigger] participants@[a]) ==> events_at(self.event_queue@, sq[jx].0)
                        =~= seq![NetworkEvent::StartMerge(merged.prefix)] + gone_diff(
                        crate::section::filter_elders(sq[jx].1, sq[jx].1.members@),
                        crate::section::filter_elders(merged, merged.members@),
                    ) + live_diff(
                        crate::section::filter_elders(merged, merged.members@),
                        crate::section::filter_elders(sq[jx].1, sq[jx].1.members@),
                    ) + seq![NetworkEvent::PrefixChange(merged.prefix)],
                forall|q: Prefix|
                    !participants@.contains(q) ==> events_at(self.event_queue@, q) == events_at(
                        q0,
                        q,
                    ),
                self.nodes@ == old(self).nodes@,
                self.left_nodes@ == old(self).left_nodes@,
                self.params == old(self).params,
                self.output == old(self).output,
            decreases participants@.len() - qi,
        {
            let pfx = participants[qi];
            let events = self.calculate_merge_events(&merged, pfx);
            let ghost qmid = self.event_queue@;
            match find_entry(&self.event_queue, &pfx) {
                Some(idx) => {
                    let ghost qpre = self.event_queue@;
                    self.remove_queue_entry(idx);
                    proof {
                        qpre.remove_ensures(idx as int);
                        assert forall|q: Prefix|
                            q != pfx implies events_at(self.event_queue@, q) == events_at(
                            qpre,
                            q,
                        ) by {
                            lemma_events_at_remove_frame(qpre, q, idx as int);
                        }
                        if has_entry_key(self.event_queue@, pfx) {
                            let k = choose|k: int|
                                0 <= k < self.event_queue@.len() && self.event_queue@[k].0
                                    == pfx;
                            if k < idx {
                                assert(qpre[k] == self.event_queue@[k]);
                                assert(qpre[k].0.spec_lt(qpre[idx as int].0));
                            } else {
                                assert(qpre[k + 1] == self.event_queue@[k]);
                                assert(qpre[idx as int].0.spec_lt(qpre[k + 1].0));
                            }
                        }
                    }
                    self.install_queue(pfx, events);
                },
                None => {
                    self.install_queue(pfx, events);
                },
            }
            proof {
                assert(events_at(self.event_queue@, pfx) == events@);
                assert forall|q: Prefix|
                    !participants@.contains(q) implies events_at(self.event_queue@, q)
                        == events_at(q0, q) by {
                    assert(q != pfx);
                    assert(events_at(self.event_queue@, q) == events_at(qmid, q));
                }
                assert forall|a: int, jx: int|
                    0 <= a < qi + 1 && 0 <= jx < sq.len() && (#[trigger] sq[jx]).0 == (
                    #[trigger] participants@[a]) implies events_at(
                    self.event_queue@,
                    sq[jx].0,
                ) =~= seq![NetworkEvent::StartMerge(merged.prefix)] + gone_diff(
                    crate::section::filter_elders(sq[jx].1, sq[jx].1.members@),
                    crate::section::filter_elders(merged, merged.members@),
                ) + live_diff(
                    crate::section::filter_elders(merged, merged.members@),
                    crate::section::filter_elders(sq[jx].1, sq[jx].1.members@),
                ) + seq![NetworkEvent::PrefixChange(merged.prefix)] by {
                    if a < qi {
                        assert(participants@[a] != pfx);
                        assert(events_at(self.event_queue@, sq[jx].0) == events_at(
                            qmid,
                            sq[jx].0,
                        ));
                    } else {
                        assert(participants@[a] == pfx);
                        assert(events@ =~= seq![NetworkEvent::StartMerge(merged.prefix)]
                            + gone_diff(
                            crate::section::filter_elders(sq[jx].1, sq[jx].1.members@),
                            crate::section::filter_elders(merged, merged.members@),
                        ) + live_diff(
                            crate::section::filter_elders(merged, merged.members@),
                            crate::section::filter_elders(sq[jx].1, sq[jx].1.members@),
                        ) + seq![NetworkEvent::PrefixChange(merged.prefix)]);
                    }
                }
            }
            qi += 1;
        }
        proof {
            assert forall|jx: int|
                0 <= jx < old(self).nodes@.len() && target.spec_is_ancestor(
                    (#[trigger] old(self).nodes@[jx]).0,
                ) implies events_at(self.event_queue@, old(self).nodes@[jx].0) =~= seq![
                NetworkEvent::StartMerge(merged.prefix),
            ] + gone_diff(
                crate::section::filter_elders(old(self).nodes@[jx].1, old(self).nodes@[jx].1.members@),
                crate::section::filter_elders(merged, merged.members@),
            ) + live_diff(
                crate::section::filter_elders(merged, merged.members@),
                crate::section::filter_elders(old(self).nodes@[jx].1, old(self).nodes@[jx].1.members@),
            ) + seq![NetworkEvent::PrefixChange(merged.prefix)] by {
                lemma_keys_under_contains(sq, target, jx);
                let a = choose|a: int|
                    0 <= a < participants@.len() && participants@[a] == sq[jx].0;
            }
            assert forall|q: Prefix|
                !(has_entry_key(old(self).nodes@, q) && target.spec_is_ancestor(q)) implies
                events_at(self.event_queue@, q) == events_at(old(self).event_queue@, q) by {
                if participants@.contains(q) {
                    let a = choose|a: int|
                        0 <= a < participants@.len() && participants@[a] == q;
                    let k = choose|k: int|
                        0 <= k < sq.len() && #[trigger] participants@[a] == sq[k].0;
                    assert(has_entry_key(old(self).nodes@, q));
                }
            }
            assert(Self::spec_merge_installed(
                old(self).nodes@,
                old(self).event_queue@,
                self.event_queue@,
                target,
                merged,
            ));
        }
    }

    /// Install a whole queue for a prefix that currently has none.
    #[verifier::spinoff_prover]
    #[verifier::rlimit(100)]
    fn install_queue(&mut self, pfx: Prefix, events: Vec<NetworkEvent>)
        requires
            old(self).wf(),
            pfx.wf(),
            !has_entry_key(old(self).event_queue@, pfx),
            forall|k: int| 0 <= k < events@.len() ==> spec_event_wf(#[trigger] events@[k]),
        ensures
            final(self).wf(),
            final(self).nodes@ == old(self).nodes@,
            final(self).left_nodes@ == old(self).left_nodes@,
            final(self).pending_merges@ == old(self).pending_merges@,
            final(self).params == old(self).params,
            final(self).output == old(self).output,
            events_at(final(self).event_queue@, pfx) == events@,
            forall|q: Prefix|
                q != pfx ==> events_at(final(self).event_queue@, q) == events_at(
                    old(self).event_queue@,
                    q,
                ),
    {
        let ghost pre = self.event_queue@;
        insert_sorted_entry(&mut self.event_queue, pfx, events);
        proof {
            let post = self.event_queue@;
            let k = choose|k: int| 0 <= k <= pre.len() && post == pre.insert(k, (pfx, events));
            pre.insert_ensures(k, (pfx, events));
            lemma_events_at_found(post, k);
            assert forall|q: Prefix| q != pfx implies events_at(post, q) == events_at(
                pre,
                q,
            ) by {
                lemma_events_at_insert_frame(pre, post, q, k, pfx, events);
            }
            assert forall|a: int, b: int|
                0 <= a < post.len() && 0 <= b < post[a].1@.len() implies spec_event_wf(
                #[trigger] post[a].1@[b]) by {
                if a < k {
                    assert(post[a] == pre[a]);
                    assert(spec_event_wf(pre[a].1@[b]));
                } else if a > k {
                    assert(post[a] == pre[a - 1]);
                    assert(spec_event_wf(pre[a - 1].1@[b]));
                } else {
                    assert(spec_event_wf(events@[b]));
                }
            }
        }
    }


    /// Take the section entry at an index out of the map.
    #[verifier::spinoff_prover]
    #[verifier::rlimit(100)]
    fn remove_section_entry(&mut self, i: usize) -> (r: (Prefix, Section))
        requires
            old(self).wf(),
            i < old(self).nodes@.len(),
        ensures
            final(self).wf(),
            r == old(self).nodes@[i as int],
            final(self).nodes@ == old(self).nodes@.remove(i as int),
            final(self).left_nodes@ == old(self).left_nodes@,
            final(self).event_queue@ == old(self).event_queue@,
            final(self).pending_merges@ == old(self).pending_merges@,
            final(self).params == old(self).params,
            final(self).output == old(self).output,
            r.0.wf(),
            r.1.wf(),
    {
        let ghost pre = self.nodes@;
        let r = self.nodes.remove(i);
        proof {
            pre.remove_ensures(i as int);
            lemma_remove_keeps_sorted(pre, i as int);
            assert forall|a: int|
                0 <= a < self.nodes@.len() implies (#[trigger] self.nodes@[a]).0.wf()
                    && self.nodes@[a].1.wf() by {
                if a < i {
                    assert(self.nodes@[a] == pre[a]);
                } else {
                    assert(self.nodes@[a] == pre[a + 1]);
                }
            }
        }
        r
    }

    /// Put a section entry back at the position it was taken from.
    #[verifier::spinoff_prover]
    #[verifier::rlimit(100)]
    fn reinsert_section(&mut self, i: usize, key: Prefix, sec: Section)
        requires
            old(self).wf(),
            i <= old(self).nodes@.len(),
            key.wf(),
            sec.wf(),
            forall|k: int| 0 <= k < i ==> (#[trigger] old(self).nodes@[k]).0.spec_lt(key),
            forall|k: int|
                i <= k < old(self).nodes@.len() ==> key.spec_lt(
                    (#[trigger] old(self).nodes@[k]).0,
                ),
        ensures
            final(self).wf(),
            final(self).nodes@ == old(self).nodes@.insert(i as int, (key, sec)),
            final(self).left_nodes@ == old(self).left_nodes@,
            final(self).event_queue@ == old(self).event_queue@,
            final(self).pending_merges@ == old(self).pending_merges@,
            final(self).params == old(self).params,
            final(self).output == old(self).output,
    {
        let ghost pre = self.nodes@;
        self.nodes.insert(i, (key, sec));
        proof {
            pre.insert_ensures(i as int, (key, sec));
            let post = self.nodes@;
            assert forall|a: int, b: int| 0 <= a < b < post.len() implies (#[trigger] post[a]).0
                .spec_lt((#[trigger] post[b]).0) by {
                if a < i {
                    assert(post[a] == pre[a]);
                } else if a > i {
                    assert(post[a] == pre[a - 1]);
                } else {
                    assert(post[a] == (key, sec));
                }
                if b < i {
                    assert(post[b] == pre[b]);
                } else if b > i {
                    assert(post[b] == pre[b - 1]);
                } else {
                    assert(post[b] == (key, sec));
                }
            }
            assert forall|a: int|
                0 <= a < post.len() implies (#[trigger] post[a]).0.wf() && post[a].1.wf() by {
                if a < i {
                    assert(post[a] == pre[a]);
                } else if a > i {
                    assert(post[a] == pre[a - 1]);
                }
            }
        }
    }

    /// Insert a section under its own prefix, replacing any section that
    /// key already had.
    #[verifier::spinoff_prover]
    #[verifier::rlimit(100)]
    fn upsert_section(&mut self, sec: Section)
        requires
            old(self).wf(),
            sec.wf(),
        ensures
            final(self).wf(),
            final(self).left_nodes@ == old(self).left_nodes@,
            final(self).event_queue@ == old(self).event_queue@,
            final(self).pending_merges@ == old(self).pending_merges@,
            final(self).params == old(self).params,
            final(self).output == old(self).output,
            has_entry_key(final(self).nodes@, sec.prefix),
            forall|j: int|
                0 <= j < final(self).nodes@.len() && (#[trigger] final(self).nodes@[j]).0
                    == sec.prefix ==> final(self).nodes@[j].1 == sec,
            forall|j: int|
                0 <= j < final(self).nodes@.len() && (#[trigger] final(self).nodes@[j]).0
                    != sec.prefix ==> old(self).nodes@.contains(final(self).nodes@[j]),
            forall|j: int|
                0 <= j < old(self).nodes@.len() && (#[trigger] old(self).nodes@[j]).0
                    != sec.prefix ==> final(self).nodes@.contains(old(self).nodes@[j]),
    {
        match find_entry(&self.nodes, &sec.prefix) {
            Some(i) => {
                let ghost pre = self.nodes@;
                let _old_entry = self.remove_section_entry(i);
                proof {
                    pre.remove_ensures(i as int);
                    if has_entry_key(self.nodes@, sec.prefix) {
                        let k = choose|k: int|
                            0 <= k < self.nodes@.len() && self.nodes@[k].0 == sec.prefix;
                        if k < i {
                            assert(self.nodes@[k] == pre[k]);
                            assert(pre[k].0.spec_lt(pre[i as int].0));
                        } else {
                            assert(self.nodes@[k] == pre[k + 1]);
                            assert(pre[i as int].0.spec_lt(pre[k + 1].0));
                        }
                    }
                }
                let ghost mid = self.nodes@;
                self.insert_section_absent(sec);
                proof {
                    assert forall|j: int|
                        0 <= j < self.nodes@.len() && (#[trigger] self.nodes@[j]).0
                            != sec.prefix implies pre.contains(self.nodes@[j]) by {
                        assert(mid.contains(self.nodes@[j]));
                        let k = choose|k: int|
                            0 <= k < mid.len() && mid[k] == self.nodes@[j];
                        pre.remove_ensures(i as int);
                        if k < i {
                            assert(pre[k] == mid[k]);
                        } else {
                            assert(pre[k + 1] == mid[k]);
                        }
                    }
                    assert forall|j: int|
                        0 <= j < pre.len() && (#[trigger] pre[j]).0 != sec.prefix implies
                        self.nodes@.contains(pre[j]) by {
                        pre.remove_ensures(i as int);
                        let j2: int = if j < i {
                            j
                        } else {
                            j - 1
                        };
                        assert(j != i);
                        assert(mid[j2] == pre[j]);
                        assert(mid.contains(pre[j]));
                    }
                }
            },
            None => {
                self.insert_section_absent(sec);
            },
        }
    }

    /// Insert a section under its own, currently absent, prefix.
    fn insert_section_absent(&mut self, sec: Section)
        requires
            old(self).wf(),
            sec.wf(),
            !has_entry_key(old(self).nodes@, sec.prefix),
        ensures
            final(self).wf(),
            final(self).left_nodes@ == old(self).left_nodes@,
            final(self).event_queue@ == old(self).event_queue@,
            final(self).pending_merges@ == old(self).pending_merges@,
            final(self).params == old(self).params,
            final(self).output == old(self).output,
            has_entry_key(final(self).nodes@, sec.prefix),
            forall|j: int|
                0 <= j < final(self).nodes@.len() && (#[trigger] final(self).nodes@[j]).0
                    == sec.prefix ==> final(self).nodes@[j].1 == sec,
            forall|j: int|
                0 <= j < final(self).nodes@.len() && (#[trigger] final(self).nodes@[j]).0
                    != sec.prefix ==> old(self).nodes@.contains(final(self).nodes@[j]),
            forall|j: int|
                0 <= j < old(self).nodes@.len() && (#[trigger] old(self).nodes@[j]).0
                    != sec.prefix ==> final(self).nodes@.contains(old(self).nodes@[j]),
    {
        let ghost pre = self.nodes@;
        let key = sec.prefix;
        insert_sorted_entry(&mut self.nodes, key, sec);
        proof {
            let post = self.nodes@;
            let ki = choose|ki: int| 0 <= ki <= pre.len() && post == pre.insert(ki, (key, sec));
            pre.insert_ensures(ki, (key, sec));
            assert forall|a: int|
                0 <= a < post.len() implies (#[trigger] post[a]).0.wf() && post[a].1.wf() by {
                if a < ki {
                    assert(post[a] == pre[a]);
                } else if a > ki {
                    assert(post[a] == pre[a - 1]);
                }
            }
            assert forall|j: int|
                0 <= j < post.len() && (#[trigger] post[j]).0 == key implies post[j].1
                    == sec by {
                if j < ki {
                    assert(post[j] == pre[j]);
                    assert(has_entry_key(pre, key));
                } else if j > ki {
                    assert(post[j] == pre[j - 1]);
                    assert(has_entry_key(pre, key));
                }
            }
            assert forall|j: int|
                0 <= j < post.len() && (#[trigger] post[j]).0 != key implies pre.contains(
                post[j]) by {
                if j < ki {
                    assert(post[j] == pre[j]);
                } else {
                    assert(post[j] == pre[j - 1]);
                }
            }
            assert forall|j: int|
                0 <= j < pre.len() && (#[trigger] pre[j]).0 != key implies post.contains(
                pre[j]) by {
                if j < ki {
                    assert(post[j] == pre[j]);
                } else {
                    assert(post[j + 1] == pre[j]);
                }
            }
        }
    }

    /// Whether the sections record one performed split of `sec`: both
    /// children stand in the map with the partitioned (and optionally
    /// aged) membership and the carried counter. The members due at the
    /// carried counter are relocated during the split itself, so the
    /// relocation counter grows by their number and the churn counter by
    /// twice that (one leave, one join each), plus one for the split.
    pub open spec fn spec_split_performed(
        post_nodes: Seq<(Prefix, Section)>,
        sec: Section,
        inc: bool,
        s0: Section,
        s1: Section,
        pre_rel: u64,
        post_rel: u64,
        pre_churn: u64,
        post_churn: u64,
    ) -> bool {
        let due = crate::section::filter_due(s0, s0.members@).len() + crate::section::filter_due(
            s1,
            s1.members@,
        ).len();
        &&& s0.prefix == sec.prefix.spec_extend(false)
        &&& s1.prefix == sec.prefix.spec_extend(true)
        &&& s0.members@ == crate::section::maybe_aged(
            crate::section::filter_matching(sec.members@, s0.prefix),
            inc,
        )
        &&& s1.members@ == crate::section::maybe_aged(
            crate::section::filter_matching(sec.members@, s1.prefix),
            inc,
        )
        &&& s0.counter == sec.counter
        &&& s1.counter == sec.counter
        &&& forall|j: int|
            0 <= j < post_nodes.len() && (#[trigger] post_nodes[j]).0 == s0.prefix
                ==> post_nodes[j].1.members@ == s0.members@
        &&& forall|j: int|
            0 <= j < post_nodes.len() && (#[trigger] post_nodes[j]).0 == s1.prefix
                ==> post_nodes[j].1.members@ == s1.members@
        &&& has_entry_key(post_nodes, s0.prefix)
        &&& has_entry_key(post_nodes, s1.prefix)
        &&& post_rel == spec_bump_n(pre_rel, due)
        &&& post_churn == spec_bump(spec_bump_n(pre_churn, 2 * due))
    }

    /// Act on one section response: bank a dropped node for rejoining,
    /// count a rejection, relocate a node, start a merge, or perform a
    /// split.
    #[verifier::spinoff_prover]
    #[verifier::rlimit(100)]
    fn process_single_event(&mut self, prefix: Prefix, event: SectionEvent)
        requires
            old(self).wf(),
            prefix.wf(),
        ensures
            final(self).wf(),
            final(self).params == old(self).params,
            final(self).output.network_structure@ == old(self).output.network_structure@,
            // No section response changes the step counters or the
            // by-age drop histogram.
            final(self).output.adds == old(self).output.adds,
            final(self).output.drops == old(self).output.drops,
            final(self).output.rejoins == old(self).output.rejoins,
            final(self).output.drops_dist@ == old(self).output.drops_dist@,
            // Departed nodes are only ever banked, never forgotten.
            old(self).left_nodes@.is_prefix_of(final(self).left_nodes@),
            event matches SectionEvent::NodeDropped(n) ==> final(self).left_nodes@ == old(self).left_nodes@.push(n) && final(self).nodes@ == old(self).nodes@ && final(self).event_queue@ == old(self).event_queue@ && final(self).pending_merges@ == old(self).pending_merges@ && final(self).output == old(self).output,
            event matches SectionEvent::NodeRejected(n) ==> final(self).output.rejections
                == spec_bump(old(self).output.rejections) && final(self).nodes@ == old(self).nodes@ && final(self).left_nodes@ == old(self).left_nodes@ && final(self).event_queue@ == old(self).event_queue@ && final(self).pending_merges@ == old(self).pending_merges@ && final(self).output.churn == old(self).output.churn && final(self).output.relocations == old(self).output.relocations,
            event matches SectionEvent::NeedRelocate(n) ==> final(self).nodes@ == old(self).nodes@ && final(self).left_nodes@ == old(self).left_nodes@ && final(self).pending_merges@ == old(self).pending_merges@ && final(self).output.rejections == old(self).output.rejections && final(self).output.relocations
                == spec_bump(old(self).output.relocations) && final(self).output.churn
                == spec_bump(spec_bump(old(self).output.churn)) && (
            Self::spec_first_matching(old(self).nodes@, n.name) is None ==> final(self).event_queue@ == old(self).event_queue@) && (Self::spec_first_matching(
                old(self).nodes@,
                n.name,
            ) matches Some(src) ==> exists|m: Node|
                #[trigger] Self::spec_relocated_delivery(
                    old(self).event_queue@,
                    final(self).event_queue@,
                    n,
                    src,
                    Self::spec_relocation_target(old(self).nodes@, src),
                    m,
                )),
            // A merge request applies the merge policy at the reporting
            // prefix: subsumed requests change nothing, otherwise
            // narrower pending merges give way and a pending merge with
            // its preambles is installed over the sections under the
            // parent prefix.
            event == SectionEvent::RequestMerge && prefix.len == 0 ==> final(self).pending_merges@ == old(self).pending_merges@ && final(self).event_queue@ == old(self).event_queue@,
            // A pending merge at or above the target subsumes the
            // request: nothing changes.
            event == SectionEvent::RequestMerge && prefix.len >= 1 && (exists|i: int|
                0 <= i < old(self).pending_merges@.len() && (
                #[trigger] old(self).pending_merges@[i]).0.spec_is_ancestor(
                    prefix.spec_shorten(),
                )) ==> final(self).pending_merges@ == old(self).pending_merges@
                && final(self).event_queue@ == old(self).event_queue@,
            event == SectionEvent::RequestMerge && prefix.len >= 1 && !(exists|i: int|
                0 <= i < old(self).pending_merges@.len() && (
                #[trigger] old(self).pending_merges@[i]).0.spec_is_ancestor(
                    prefix.spec_shorten(),
                )) ==> {
                let target = prefix.spec_shorten();
                let under = keys_under(old(self).nodes@, target);
                &&& (under.len() == 0 ==> final(self).pending_merges@ == pending_without(
                    old(self).pending_merges@,
                    target,
                ) && final(self).event_queue@ == old(self).event_queue@)
                &&& (under.len() > 0 ==> {
                    &&& exists|k: int|
                        {
                            &&& 0 <= k < final(self).pending_merges@.len()
                            &&& (#[trigger] final(self).pending_merges@[k]).0 == target
                            &&& final(self).pending_merges@[k].1.complete@.len()
                                == under.len()
                            &&& (forall|i: int|
                                0 <= i < under.len()
                                    ==> final(self).pending_merges@[k].1.complete@[i] == (
                                under[i],
                                false,
                                ))
                            &&& final(self).pending_merges@ == pending_without(
                                old(self).pending_merges@,
                                target,
                            ).insert(k, final(self).pending_merges@[k])
                        }
                    &&& exists|m: Section|
                        #[trigger] Self::spec_merge_installed(
                            old(self).nodes@,
                            old(self).event_queue@,
                            final(self).event_queue@,
                            target,
                            m,
                        )
                })
            },
            event == SectionEvent::RequestMerge ==> final(self).nodes@ == old(self).nodes@
                && final(self).left_nodes@ == old(self).left_nodes@ && final(self).output
                == old(self).output,
            event == SectionEvent::RequestSplit ==> final(self).left_nodes@ == old(self).left_nodes@ && final(self).pending_merges@ == old(self).pending_merges@ && final(self).output.rejections == old(self).output.rejections,
            // With no section at the reporting key nothing happens; a
            // section past the deepest prefix cannot split; otherwise
            // the section gives way to its two children and the members
            // due at the carried counter are relocated.
            event == SectionEvent::RequestSplit && !has_entry_key(old(self).nodes@, prefix)
                ==> final(self).nodes@ == old(self).nodes@ && final(self).event_queue@ == old(self).event_queue@
                && final(self).output == old(self).output,
            event == SectionEvent::RequestSplit ==> forall|j: int|
                0 <= j < old(self).nodes@.len() && (#[trigger] old(self).nodes@[j]).0 == prefix
                    ==> {
                    let sec = old(self).nodes@[j].1;
                    &&& (sec.prefix.len >= 64 ==> final(self).nodes@ == old(self).nodes@
                        && final(self).event_queue@ == old(self).event_queue@ && final(self).output
                        == old(self).output)
                    &&& (sec.prefix.len < 64 ==> exists|s0: Section, s1: Section|
                        #[trigger] Self::spec_split_performed(
                            final(self).nodes@,
                            sec,
                            old(self).params.inc_age,
                            s0,
                            s1,
                            old(self).output.relocations,
                            final(self).output.relocations,
                            old(self).output.churn,
                            final(self).output.churn,
                        ))
                    // The parent key gives way to the two children: the
                    // section map keeps every other key and gains the
                    // two child keys.
                    &&& (sec.prefix.len < 64 ==> forall|q: Prefix|
                        has_entry_key(final(self).nodes@, q) <==> ((has_entry_key(
                            old(self).nodes@,
                            q,
                        ) && q != prefix) || q == sec.prefix.spec_extend(false) || q
                            == sec.prefix.spec_extend(true)))
                    // Each child's queue receives the child's prefix
                    // change; the relocations of the due members may
                    // append further deliveries behind it. (The guard
                    // keeps the clause out of the degenerate case where
                    // the reporting key is itself a child key, whose
                    // queue the split discards first.)
                    &&& (sec.prefix.len < 64 && prefix != sec.prefix.spec_extend(false)
                        ==> events_at(
                        old(self).event_queue@,
                        sec.prefix.spec_extend(false),
                    ).push(NetworkEvent::PrefixChange(sec.prefix.spec_extend(false))).is_prefix_of(
                        events_at(final(self).event_queue@, sec.prefix.spec_extend(false)),
                    ))
                    &&& (sec.prefix.len < 64 && prefix != sec.prefix.spec_extend(true)
                        ==> events_at(
                        old(self).event_queue@,
                        sec.prefix.spec_extend(true),
                    ).push(NetworkEvent::PrefixChange(sec.prefix.spec_extend(true))).is_prefix_of(
                        events_at(final(self).event_queue@, sec.prefix.spec_extend(true)),
                    ))
                },
    {
        match event {
            SectionEvent::NodeDropped(node) => {
                self.left_nodes.push(node);
            },
            SectionEvent::NodeRejected(_node) => {
                self.output.rejections = if self.output.rejections < u64::MAX {
                    self.output.rejections + 1
                } else {
                    self.output.rejections
                };
            },
            SectionEvent::NeedRelocate(node) => {
                self.relocate(node);
            },
            SectionEvent::RequestMerge => {
                self.merge(prefix);
            },
            SectionEvent::RequestSplit => {
                match find_entry(&self.nodes, &prefix) {
                    Some(i) => {
                        let ghost pre = self.nodes@;
                        let (key, sec) = self.remove_section_entry(i);
                        if sec.prefix.len < 64 {
                            let (s0, s1) = sec.split(&self.params);
                            // The members due at the carried counter leave
                            // their elderless seats for a neighbour.
                            let due0 = s0.due_members();
                            let due1 = s1.due_members();
                            let ghost q_pre_rm = self.event_queue@;
                            match find_entry(&self.event_queue, &prefix) {
                                Some(qi) => {
                                    self.remove_queue_entry(qi);
                                    proof {
                                        if s0.prefix != prefix {
                                            lemma_events_at_remove_frame(
                                                q_pre_rm,
                                                s0.prefix,
                                                qi as int,
                                            );
                                        }
                                        if s1.prefix != prefix {
                                            lemma_events_at_remove_frame(
                                                q_pre_rm,
                                                s1.prefix,
                                                qi as int,
                                            );
                                        }
                                    }
                                },
                                None => {},
                            }
                            let k0 = s0.prefix;
                            let k1 = s1.prefix;
                            let ghost gs0 = s0;
                            let ghost gs1 = s1;
                            self.upsert_section(s0);
                            let ghost nmid = self.nodes@;
                            self.upsert_section(s1);
                            proof {
                                if k0 == k1 {
                                    crate::prefix::lemma_matches_base_name(k0);
                                    crate::prefix::lemma_child_matches(
                                        sec.prefix,
                                        k0.spec_base_name(),
                                    );
                                }
                                assert(k0 != k1);
                                assert forall|j: int|
                                    0 <= j < self.nodes@.len() && (#[trigger] self.nodes@[j]).0
                                        == k0 implies self.nodes@[j].1 == gs0 by {
                                    assert(nmid.contains(self.nodes@[j]));
                                    let k = choose|k: int|
                                        0 <= k < nmid.len() && nmid[k] == self.nodes@[j];
                                }
                                let e0 = choose|j: int|
                                    0 <= j < nmid.len() && (#[trigger] nmid[j]).0 == k0;
                                assert(self.nodes@.contains(nmid[e0]));
                                assert(has_entry_key(self.nodes@, k0)) by {
                                    let k = choose|k: int|
                                        0 <= k < self.nodes@.len() && self.nodes@[k] == nmid[
                                            e0
                                        ];
                                    assert(self.nodes@[k].0 == k0);
                                }
                            }
                            let ghost nset = self.nodes@;
                            proof {
                                assert forall|q: Prefix| #[trigger] has_entry_key(nset, q)
                                    <==> ((has_entry_key(pre, q) && q != prefix) || q == k0 || q
                                    == k1) by {
                                    if has_entry_key(nset, q) && q != k0 && q != k1 {
                                        let j = choose|j: int|
                                            0 <= j < nset.len() && nset[j].0 == q;
                                        assert(nmid.contains(nset[j]));
                                        let m = choose|m: int|
                                            0 <= m < nmid.len() && nmid[m] == nset[j];
                                        assert(pre.remove(i as int).contains(nmid[m]));
                                        let t = choose|t: int|
                                            0 <= t < pre.remove(i as int).len() && pre.remove(
                                                i as int,
                                            )[t] == nmid[m];
                                        pre.remove_ensures(i as int);
                                        let t2: int = if t < i {
                                            t
                                        } else {
                                            t + 1
                                        };
                                        assert(pre[t2] == nmid[m]);
                                        assert(has_entry_key(pre, q));
                                        if q == prefix {
                                            assert(pre[t2].0 == pre[i as int].0);
                                            assert(pre[t2].0.spec_lt(pre[i as int].0) || pre[
                                                i as int
                                            ].0.spec_lt(pre[t2].0));
                                        }
                                    }
                                    if has_entry_key(pre, q) && q != prefix && q != k0 && q
                                        != k1 {
                                        let j2 = choose|j2: int|
                                            0 <= j2 < pre.len() && pre[j2].0 == q;
                                        pre.remove_ensures(i as int);
                                        assert(j2 != i);
                                        let t3: int = if j2 < i {
                                            j2
                                        } else {
                                            j2 - 1
                                        };
                                        assert(pre.remove(i as int)[t3] == pre[j2]);
                                        assert(pre.remove(i as int).contains(pre[j2]));
                                        assert(nmid.contains(pre[j2]));
                                        let m2 = choose|m2: int|
                                            0 <= m2 < nmid.len() && nmid[m2] == pre[j2];
                                        assert(nset.contains(nmid[m2]));
                                        let w = choose|w: int|
                                            0 <= w < nset.len() && nset[w] == nmid[m2];
                                        assert(nset[w].0 == q);
                                    }
                                    if q == k1 {
                                        assert(has_entry_key(nset, k1));
                                    }
                                }
                            }
                            self.queue_push(k0, NetworkEvent::PrefixChange(k0));
                            self.queue_push(k1, NetworkEvent::PrefixChange(k1));
                            let ghost qpc = self.event_queue@;
                            proof {
                                if prefix != k0 {
                                    assert(events_at(qpc, k0) == events_at(
                                        old(self).event_queue@,
                                        k0,
                                    ).push(NetworkEvent::PrefixChange(k0)));
                                }
                                if prefix != k1 {
                                    assert(events_at(qpc, k1) == events_at(
                                        old(self).event_queue@,
                                        k1,
                                    ).push(NetworkEvent::PrefixChange(k1)));
                                }
                                assert forall|p: Prefix|
                                    (#[trigger] events_at(qpc, p)).is_prefix_of(
                                    events_at(self.event_queue@, p)) by {
                                    lemma_seq_prefix_refl(events_at(qpc, p));
                                }
                            }
                            let ghost rel0 = self.output.relocations;
                            let ghost churn0 = self.output.churn;
                            let mut d: usize = 0;
                            while d < due0.len()
                                invariant
                                    self.wf(),
                                    self.nodes@ == nset,
                                    forall|p: Prefix|
                                        (#[trigger] events_at(qpc, p)).is_prefix_of(
                                            events_at(self.event_queue@, p),
                                        ),
                                    self.left_nodes@ == old(self).left_nodes@,
                                    self.pending_merges@ == old(self).pending_merges@,
                                    self.params == old(self).params,
                                    self.output.network_structure@ == old(self).output.network_structure@,
                                    self.output.adds == old(self).output.adds,
                                    self.output.drops == old(self).output.drops,
                                    self.output.rejoins == old(self).output.rejoins,
                                    self.output.rejections == old(self).output.rejections,
                                    self.output.drops_dist@ == old(self).output.drops_dist@,
                                    0 <= d <= due0@.len(),
                                    self.output.relocations == spec_bump_n(rel0, d as nat),
                                    self.output.churn == spec_bump_n(churn0, 2 * d as nat),
                                decreases due0@.len() - d,
                            {
                                let ghost qb = self.event_queue@;
                                self.relocate(due0[d]);
                                proof {
                                    assert(spec_bump_n(churn0, (2 * d + 1) as nat)
                                        == spec_bump(spec_bump_n(churn0, (2 * d) as nat)));
                                    assert(spec_bump_n(churn0, (2 * d + 2) as nat)
                                        == spec_bump(spec_bump_n(churn0, (2 * d + 1) as nat)));
                                    let node = due0@[d as int];
                                    if Self::spec_first_matching(nset, node.name) is Some {
                                        let src = Self::spec_first_matching(
                                            nset,
                                            node.name,
                                        )->Some_0;
                                        let m = choose|m: Node|
                                            #[trigger] Self::spec_relocated_delivery(
                                                qb,
                                                self.event_queue@,
                                                node,
                                                src,
                                                Self::spec_relocation_target(nset, src),
                                                m,
                                            );
                                        lemma_relocation_appends(
                                            qb,
                                            self.event_queue@,
                                            node,
                                            src,
                                            Self::spec_relocation_target(nset, src),
                                            m,
                                        );
                                    }
                                    assert forall|p: Prefix|
                                        (#[trigger] events_at(qpc, p)).is_prefix_of(
                                        events_at(self.event_queue@, p)) by {
                                        if Self::spec_first_matching(nset, node.name) is None {
                                            lemma_seq_prefix_refl(events_at(qb, p));
                                        }
                                        lemma_seq_prefix_trans(
                                            events_at(qpc, p),
                                            events_at(qb, p),
                                            events_at(self.event_queue@, p),
                                        );
                                    }
                                }
                                d += 1;
                            }
                            let ghost rel1 = self.output.relocations;
                            let ghost churn1 = self.output.churn;
                            let mut d1: usize = 0;
                            while d1 < due1.len()
                                invariant
                                    self.wf(),
                                    self.nodes@ == nset,
                                    forall|p: Prefix|
                                        (#[trigger] events_at(qpc, p)).is_prefix_of(
                                            events_at(self.event_queue@, p),
                                        ),
                                    self.left_nodes@ == old(self).left_nodes@,
                                    self.pending_merges@ == old(self).pending_merges@,
                                    self.params == old(self).params,
                                    self.output.network_structure@ == old(self).output.network_structure@,
                                    self.output.adds == old(self).output.adds,
                                    self.output.drops == old(self).output.drops,
                                    self.output.rejoins == old(self).output.rejoins,
                                    self.output.rejections == old(self).output.rejections,
                                    self.output.drops_dist@ == old(self).output.drops_dist@,
                                    0 <= d1 <= due1@.len(),
                                    self.output.relocations == spec_bump_n(rel1, d1 as nat),
                                    self.output.churn == spec_bump_n(churn1, 2 * d1 as nat),
                                decreases due1@.len() - d1,
                            {
                                let ghost qb1 = self.event_queue@;
                                self.relocate(due1[d1]);
                                proof {
                                    assert(spec_bump_n(churn1, (2 * d1 + 1) as nat)
                                        == spec_bump(spec_bump_n(churn1, (2 * d1) as nat)));
                                    assert(spec_bump_n(churn1, (2 * d1 + 2) as nat)
                                        == spec_bump(spec_bump_n(churn1, (2 * d1 + 1) as nat)));
                                    let node = due1@[d1 as int];
                                    if Self::spec_first_matching(nset, node.name) is Some {
                                        let src = Self::spec_first_matching(
                                            nset,
                                            node.name,
                                        )->Some_0;
                                        let m = choose|m: Node|
                                            #[trigger] Self::spec_relocated_delivery(
                                                qb1,
                                                self.event_queue@,
                                                node,
                                                src,
                                                Self::spec_relocation_target(nset, src),
                                                m,
                                            );
                                        lemma_relocation_appends(
                                            qb1,
                                            self.event_queue@,
                                            node,
                                            src,
                                            Self::spec_relocation_target(nset, src),
                                            m,
                                        );
                                    }
                                    assert forall|p: Prefix|
                                        (#[trigger] events_at(qpc, p)).is_prefix_of(
                                        events_at(self.event_queue@, p)) by {
                                        if Self::spec_first_matching(nset, node.name) is None {
                                            lemma_seq_prefix_refl(events_at(qb1, p));
                                        }
                                        lemma_seq_prefix_trans(
                                            events_at(qpc, p),
                                            events_at(qb1, p),
                                            events_at(self.event_queue@, p),
                                        );
                                    }
                                }
                                d1 += 1;
                            }
                            self.output.churn = if self.output.churn < u64::MAX {
                                self.output.churn + 1
                            } else {
                                self.output.churn
                            };
                            proof {
                                let l0 = due0@.len();
                                let l1 = due1@.len();
                                lemma_bump_n_add(rel0, l0, l1);
                                lemma_bump_n_add(churn0, 2 * l0, 2 * l1);
                                assert(self.output.relocations == spec_bump_n(rel0, l0 + l1));
                                assert(self.output.churn == spec_bump(
                                    spec_bump_n(churn0, 2 * (l0 + l1)),
                                ));
                                assert(Self::spec_split_performed(
                                    self.nodes@,
                                    sec,
                                    old(self).params.inc_age,
                                    gs0,
                                    gs1,
                                    rel0,
                                    self.output.relocations,
                                    churn0,
                                    self.output.churn,
                                ));
                                if prefix != k0 {
                                    assert(events_at(old(self).event_queue@, k0).push(
                                        NetworkEvent::PrefixChange(k0),
                                    ).is_prefix_of(events_at(self.event_queue@, k0)));
                                }
                                if prefix != k1 {
                                    assert(events_at(old(self).event_queue@, k1).push(
                                        NetworkEvent::PrefixChange(k1),
                                    ).is_prefix_of(events_at(self.event_queue@, k1)));
                                }
                                assert forall|j: int|
                                    0 <= j < pre.len() && (#[trigger] pre[j]).0 == prefix
                                        implies j == i by {
                                    if j != i {
                                        assert(pre[j].0.spec_lt(pre[i as int].0) || pre[
                                            i as int
                                        ].0.spec_lt(pre[j].0));
                                    }
                                }
                            }
                        } else {
                            proof {
                                pre.remove_ensures(i as int);
                                assert forall|k: int|
                                    0 <= k < i implies (#[trigger] self.nodes@[k]).0.spec_lt(
                                    key) by {
                                    assert(self.nodes@[k] == pre[k]);
                                }
                                assert forall|k: int|
                                    i <= k < self.nodes@.len() implies key.spec_lt(
                                    (#[trigger] self.nodes@[k]).0) by {
                                    assert(self.nodes@[k] == pre[k + 1]);
                                }
                            }
                            self.reinsert_section(i, key, sec);
                            proof {
                                assert(self.nodes@ =~= pre);
                                assert forall|j: int|
                                    0 <= j < pre.len() && (#[trigger] pre[j]).0 == prefix
                                        implies j == i by {
                                    if j != i {
                                        assert(pre[j].0.spec_lt(pre[i as int].0) || pre[
                                            i as int
                                        ].0.spec_lt(pre[j].0));
                                    }
                                }
                            }
                        }
                    },
                    None => {},
                }
            },
        }
    }

    /// Drop the queue entry at an index.
    #[verifier::spinoff_prover]
    #[verifier::rlimit(100)]
    fn remove_queue_entry(&mut self, i: usize)
        requires
            old(self).wf(),
            i < old(self).event_queue@.len(),
        ensures
            final(self).wf(),
            final(self).event_queue@ == old(self).event_queue@.remove(i as int),
            final(self).nodes@ == old(self).nodes@,
            final(self).left_nodes@ == old(self).left_nodes@,
            final(self).pending_merges@ == old(self).pending_merges@,
            final(self).params == old(self).params,
            final(self).output == old(self).output,
            !old(self).spec_has_events() ==> !final(self).spec_has_events(),
    {
        let ghost pre = self.event_queue@;
        let _removed = self.event_queue.remove(i);
        proof {
            pre.remove_ensures(i as int);
            lemma_remove_keeps_sorted(pre, i as int);
            let post = self.event_queue@;
            assert forall|a: int|
                0 <= a < post.len() implies (#[trigger] post[a]).0.wf() by {
                if a < i {
                    assert(post[a] == pre[a]);
                } else {
                    assert(post[a] == pre[a + 1]);
                }
            }
            assert forall|a: int, b: int|
                0 <= a < post.len() && 0 <= b < post[a].1@.len() implies spec_event_wf(
                #[trigger] post[a].1@[b]) by {
                if a < i {
                    assert(post[a] == pre[a]);
                    assert(spec_event_wf(pre[a].1@[b]));
                } else {
                    assert(post[a] == pre[a + 1]);
                    assert(spec_event_wf(pre[a + 1].1@[b]));
                }
            }
            if !old(self).spec_has_events() {
                assert forall|a: int|
                    0 <= a < post.len() implies (#[trigger] post[a]).1@.len() == 0 by {
                    if a < i {
                        assert(post[a] == pre[a]);
                    } else {
                        assert(post[a] == pre[a + 1]);
                    }
                    assert forall|c: int|
                        0 <= c < pre.len() implies (#[trigger] pre[c]).1@.len() == 0 by {
                        if pre[c].1@.len() > 0 {
                            assert(old(self).spec_has_events());
                        }
                    }
                }
            }
        }
    }


    /// Take the pending merge entry at an index out of the map.
    #[verifier::spinoff_prover]
    #[verifier::rlimit(100)]
    fn remove_pending_entry(&mut self, i: usize) -> (r: (Prefix, PendingMerge))
        requires
            old(self).wf(),
            i < old(self).pending_merges@.len(),
        ensures
            final(self).wf(),
            r == old(self).pending_merges@[i as int],
            final(self).pending_merges@ == old(self).pending_merges@.remove(i as int),
            final(self).nodes@ == old(self).nodes@,
            final(self).left_nodes@ == old(self).left_nodes@,
            final(self).event_queue@ == old(self).event_queue@,
            final(self).params == old(self).params,
            final(self).output == old(self).output,
            r.0.wf(),
            r.1.wf(),
            forall|j: int|
                0 <= j < r.1.complete@.len() ==> (#[trigger] r.1.complete@[j].0).wf()
                    && r.0.spec_is_ancestor(r.1.complete@[j].0),
    {
        let ghost pre = self.pending_merges@;
        let r = self.pending_merges.remove(i);
        proof {
            pre.remove_ensures(i as int);
            lemma_remove_keeps_sorted(pre, i as int);
            let post = self.pending_merges@;
            assert forall|a: int|
                0 <= a < post.len() implies (#[trigger] post[a]).0.wf() && post[a].1.wf() by {
                if a < i {
                    assert(post[a] == pre[a]);
                } else {
                    assert(post[a] == pre[a + 1]);
                }
            }
            assert forall|a: int, b: int|
                0 <= a < post.len() && 0 <= b < post[a].1.complete@.len() implies (
            #[trigger] post[a].1.complete@[b].0).wf() && post[a].0.spec_is_ancestor(
                post[a].1.complete@[b].0,
            ) by {
                if a < i {
                    assert(post[a] == pre[a]);
                    assert((pre[a].1.complete@[b].0).wf() && pre[a].0.spec_is_ancestor(
                        pre[a].1.complete@[b].0,
                    ));
                } else {
                    assert(post[a] == pre[a + 1]);
                    assert((pre[a + 1].1.complete@[b].0).wf() && pre[a + 1].0.spec_is_ancestor(
                        pre[a + 1].1.complete@[b].0,
                    ));
                }
            }
            assert forall|a: int, b: int|
                0 <= a < b < post.len() implies !(#[trigger] post[a].0).spec_is_compatible_with(
                    #[trigger] post[b].0,
                ) by {
                let a0: int = if a < i {
                    a
                } else {
                    a + 1
                };
                let b0: int = if b < i {
                    b
                } else {
                    b + 1
                };
                assert(post[a] == pre[a0] && post[b] == pre[b0]);
            }
        }
        r
    }

    /// Mark a participant of the pending merge at an index as complete.
    #[verifier::spinoff_prover]
    #[verifier::rlimit(100)]
    fn mark_pending_complete(&mut self, i: usize, participant: Prefix)
        requires
            old(self).wf(),
            i < old(self).pending_merges@.len(),
        ensures
            final(self).wf(),
            final(self).nodes@ == old(self).nodes@,
            final(self).left_nodes@ == old(self).left_nodes@,
            final(self).event_queue@ == old(self).event_queue@,
            final(self).params == old(self).params,
            final(self).output == old(self).output,
            final(self).pending_merges@.len() == old(self).pending_merges@.len(),
            forall|a: int|
                0 <= a < old(self).pending_merges@.len() && a != i
                    ==> final(self).pending_merges@[a] == old(self).pending_merges@[a],
            final(self).pending_merges@[i as int].0 == old(self).pending_merges@[i as int].0,
    {
        let ghost pre = self.pending_merges@;
        let (key, mut pm) = self.pending_merges.remove(i);
        pm.completed(participant);
        self.pending_merges.insert(i, (key, pm));
        proof {
            pre.remove_ensures(i as int);
            pre.remove(i as int).insert_ensures(i as int, (key, pm));
            let post = self.pending_merges@;
            assert forall|j: int| 0 <= j < pre.len() && j != i implies post[j] == pre[j] by {
                if j < i {
                    assert(pre.remove(i as int)[j] == pre[j]);
                    assert(post[j] == pre.remove(i as int)[j]);
                } else {
                    assert(pre.remove(i as int)[j - 1] == pre[(j - 1) + 1]);
                    assert(post[(j - 1) + 1] == pre.remove(i as int)[j - 1]);
                }
            }
            assert(post[i as int] == (key, pm));
            assert forall|a: int, b: int| 0 <= a < b < post.len() implies (#[trigger] post[a]).0
                .spec_lt((#[trigger] post[b]).0) by {
                if a != i {
                    assert(post[a] == pre[a]);
                }
                if b != i {
                    assert(post[b] == pre[b]);
                }
            }
            assert forall|a: int|
                0 <= a < post.len() implies (#[trigger] post[a]).0.wf() && post[a].1.wf() by {
                if a != i {
                    assert(post[a] == pre[a]);
                } else {
                    assert(pm.complete@.len() == pre[i as int].1.complete@.len());
                    assert forall|x: int, y: int|
                        0 <= x < y < pm.complete@.len() implies pm.complete@[x].0.spec_lt(
                        pm.complete@[y].0) by {
                        assert(pm.complete@[x].0 == pre[i as int].1.complete@[x].0);
                        assert(pm.complete@[y].0 == pre[i as int].1.complete@[y].0);
                    }
                }
            }
            assert forall|a: int, b: int|
                0 <= a < post.len() && 0 <= b < post[a].1.complete@.len() implies (
            #[trigger] post[a].1.complete@[b].0).wf() && post[a].0.spec_is_ancestor(
                post[a].1.complete@[b].0,
            ) by {
                if a != i {
                    assert(post[a] == pre[a]);
                } else {
                    assert(pm.complete@[b].0 == pre[i as int].1.complete@[b].0);
                }
            }
            assert forall|a: int, b: int|
                0 <= a < b < post.len() implies !(#[trigger] post[a].0).spec_is_compatible_with(
                    #[trigger] post[b].0,
                ) by {
                if a != i {
                    assert(post[a] == pre[a]);
                }
                if b != i {
                    assert(post[b] == pre[b]);
                }
                assert(post[i as int].0 == pre[i as int].0);
            }
        }
    }

    /// Drive the event cascade to quiescence: drain the queues through
    /// the sections, act on every section response, finalise the merges
    /// whose participants have all completed, and take one structural
    /// snapshot. A safety cap bounds pathological cascades; if a step
    /// ever exhausts it, the events still queued are discarded and the
    /// step reports the failure by returning `false`.
    #[verifier::spinoff_prover]
    #[verifier::rlimit(100)]
    pub fn process_events(&mut self) -> (converged: bool)
        requires
            old(self).wf(),
        ensures
            final(self).wf(),
            !final(self).spec_has_events(),
            final(self).params == old(self).params,
            // Exactly one structural snapshot is appended, and it
            // records the final state: total membership, section count
            // and complete-section count.
            final(self).output.network_structure@ == old(self).output.network_structure@.push(
                NetworkStructure {
                    size: spec_cap_usize(spec_total_nodes(final(self).nodes@)) as usize,
                    sections: final(self).nodes@.len() as usize,
                    complete: spec_complete_count(final(self).nodes@) as usize,
                },
            ),
            // When the safety cap cut the cascade short, the whole queue
            // was discarded and the caller is told.
            !converged ==> final(self).event_queue@ == Seq::<(Prefix, Vec<NetworkEvent>)>::empty(),
            // Only the driver functions count steps: dispatching changes
            // neither the add, drop and rejoin counters nor the by-age
            // drop histogram.
            final(self).output.adds == old(self).output.adds,
            final(self).output.drops == old(self).output.drops,
            final(self).output.rejoins == old(self).output.rejoins,
            final(self).output.drops_dist@ == old(self).output.drops_dist@,
            // Departed nodes are only ever banked, never forgotten.
            old(self).left_nodes@.is_prefix_of(final(self).left_nodes@),
            // Every merge whose participants had all completed has been
            // finalised: no ready merge stays pending.
            forall|k: int|
                0 <= k < final(self).pending_merges@.len() ==> !(
                #[trigger] final(self).pending_merges@[k]).1.spec_is_done(),
    {
        let mut fuel: u64 = 1000000;
        let mut converged: bool = true;
        loop
            invariant_except_break
                converged,
            invariant
                self.wf(),
                self.params == old(self).params,
                self.output.network_structure@ == old(self).output.network_structure@,
                self.output.adds == old(self).output.adds,
                self.output.drops == old(self).output.drops,
                self.output.rejoins == old(self).output.rejoins,
                self.output.drops_dist@ == old(self).output.drops_dist@,
                old(self).left_nodes@.is_prefix_of(self.left_nodes@),
            ensures
                self.wf(),
                self.params == old(self).params,
                self.output.network_structure@ == old(self).output.network_structure@,
                self.output.adds == old(self).output.adds,
                self.output.drops == old(self).output.drops,
                self.output.rejoins == old(self).output.rejoins,
                self.output.drops_dist@ == old(self).output.drops_dist@,
                old(self).left_nodes@.is_prefix_of(self.left_nodes@),
                !self.spec_has_events(),
                !converged ==> self.event_queue@ == Seq::<(Prefix, Vec<NetworkEvent>)>::empty(),
            decreases fuel,
        {
            if !self.has_events() {
                break ;
            }
            if fuel == 0 {
                self.event_queue = Vec::new();
                converged = false;
                proof {
                    assert(self.event_queue@ =~= Seq::<(Prefix, Vec<NetworkEvent>)>::empty());
                }
                break ;
            }
            fuel = fuel - 1;
            let mut queue: Vec<(Prefix, Vec<NetworkEvent>)> = Vec::new();
            core::mem::swap(&mut queue, &mut self.event_queue);
            let ghost gq = queue@;
            let mut qi: usize = 0;
            while qi < queue.len()
                invariant
                    self.wf(),
                    queue@ == gq,
                    0 <= qi <= gq.len(),
                    forall|a: int| 0 <= a < gq.len() ==> (#[trigger] gq[a]).0.wf(),
                    forall|a: int, b: int|
                        0 <= a < gq.len() && 0 <= b < gq[a].1@.len() ==> spec_event_wf(
                            #[trigger] gq[a].1@[b],
                        ),
                    self.params == old(self).params,
                    self.output.network_structure@ == old(self).output.network_structure@,
                self.output.adds == old(self).output.adds,
                self.output.drops == old(self).output.drops,
                self.output.rejoins == old(self).output.rejoins,
                self.output.drops_dist@ == old(self).output.drops_dist@,
                old(self).left_nodes@.is_prefix_of(self.left_nodes@),
                decreases gq.len() - qi,
            {
                let prefix = queue[qi].0;
                let mut section_events: Vec<SectionEvent> = Vec::new();
                let mut ei: usize = 0;
                while ei < queue[qi].1.len()
                    invariant
                        self.wf(),
                        queue@ == gq,
                        0 <= qi < gq.len(),
                        0 <= ei <= gq[qi as int].1@.len(),
                        prefix == gq[qi as int].0,
                        prefix.wf(),
                        forall|a: int, b: int|
                            0 <= a < gq.len() && 0 <= b < gq[a].1@.len() ==> spec_event_wf(
                                #[trigger] gq[a].1@[b],
                            ),
                        self.params == old(self).params,
                        self.output.network_structure@ == old(self).output.network_structure@,
                self.output.adds == old(self).output.adds,
                self.output.drops == old(self).output.drops,
                self.output.rejoins == old(self).output.rejoins,
                self.output.drops_dist@ == old(self).output.drops_dist@,
                old(self).left_nodes@.is_prefix_of(self.left_nodes@),
                    decreases gq[qi as int].1@.len() - ei,
                {
                    let ev = queue[qi].1[ei];
                    match find_entry(&self.nodes, &prefix) {
                        Some(i) => {
                            let ghost pre = self.nodes@;
                            let (key, mut sec) = self.remove_section_entry(i);
                            let mut evs = sec.handle_event(ev, &self.params);
                            proof {
                                pre.remove_ensures(i as int);
                                assert forall|k: int|
                                    0 <= k < i implies (#[trigger] self.nodes@[k]).0.spec_lt(
                                    key) by {
                                    assert(self.nodes@[k] == pre[k]);
                                }
                                assert forall|k: int|
                                    i <= k < self.nodes@.len() implies key.spec_lt(
                                    (#[trigger] self.nodes@[k]).0) by {
                                    assert(self.nodes@[k] == pre[k + 1]);
                                }
                            }
                            self.reinsert_section(i, key, sec);
                            section_events.append(&mut evs);
                        },
                        None => {},
                    }
                    match ev {
                        NetworkEvent::PrefixChange(pfx) => {
                            match find_entry(&self.pending_merges, &pfx) {
                                Some(mi) => {
                                    self.mark_pending_complete(mi, prefix);
                                },
                                None => {},
                            }
                        },
                        _ => {},
                    }
                    ei += 1;
                }
                let mut sj: usize = 0;
                while sj < section_events.len()
                    invariant
                        self.wf(),
                        queue@ == gq,
                        prefix.wf(),
                        0 <= sj <= section_events@.len(),
                        self.params == old(self).params,
                        self.output.network_structure@ == old(self).output.network_structure@,
                self.output.adds == old(self).output.adds,
                self.output.drops == old(self).output.drops,
                self.output.rejoins == old(self).output.rejoins,
                self.output.drops_dist@ == old(self).output.drops_dist@,
                old(self).left_nodes@.is_prefix_of(self.left_nodes@),
                    decreases section_events@.len() - sj,
                {
                    let se = section_events[sj];
                    let ghost left_mid = self.left_nodes@;
                    self.process_single_event(prefix, se);
                    proof {
                        lemma_prefix_transitive(
                            old(self).left_nodes@,
                            left_mid,
                            self.left_nodes@,
                        );
                    }
                    sj += 1;
                }
                qi += 1;
            }
        }
        // Finalise the merges that are ready.
        let ghost pend_at = self.pending_merges@;
        let mut done: Vec<Prefix> = Vec::new();
        let mut t: usize = 0;
        while t < self.pending_merges.len()
            invariant
                self.wf(),
                self.pending_merges@ == pend_at,
                0 <= t <= self.pending_merges@.len(),
                forall|a: int| 0 <= a < done@.len() ==> (#[trigger] done@[a]).wf(),
                forall|k: int|
                    0 <= k < t && (#[trigger] pend_at[k]).1.spec_is_done() ==> done@.contains(
                        pend_at[k].0,
                    ),
            decreases self.pending_merges@.len() - t,
        {
            let ghost done_pre = done@;
            if self.pending_merges[t].1.is_done() {
                done.push(self.pending_merges[t].0);
            }
            proof {
                assert forall|k: int|
                    0 <= k < t + 1 && (#[trigger] pend_at[k]).1.spec_is_done() implies done@
                    .contains(pend_at[k].0) by {
                    if k < t {
                        let a = choose|a: int|
                            0 <= a < done_pre.len() && done_pre[a] == pend_at[k].0;
                        assert(done@[a] == pend_at[k].0);
                    } else {
                        assert(done@[done@.len() - 1] == pend_at[k].0);
                    }
                }
            }
            t += 1;
        }
        proof {
            assert(done@.subrange(0, done@.len() as int) =~= done@);
            assert forall|k: int|
                0 <= k < self.pending_merges@.len() && (
                #[trigger] self.pending_merges@[k]).1.spec_is_done() implies done@.subrange(
                0,
                done@.len() as int,
            ).contains(self.pending_merges@[k].0) by {
                let a = choose|a: int|
                    0 <= a < done@.len() && done@[a] == self.pending_merges@[k].0;
                assert(done@.subrange(0, done@.len() as int)[a] == done@[a]);
            }
        }
        let mut d: usize = 0;
        while d < done.len()
            invariant
                self.wf(),
                !self.spec_has_events(),
                !converged ==> self.event_queue@ == Seq::<(Prefix, Vec<NetworkEvent>)>::empty(),
                0 <= d <= done@.len(),
                forall|a: int| 0 <= a < done@.len() ==> (#[trigger] done@[a]).wf(),
                forall|k: int|
                    0 <= k < self.pending_merges@.len() && (
                    #[trigger] self.pending_merges@[k]).1.spec_is_done() ==> done@.subrange(
                        d as int,
                        done@.len() as int,
                    ).contains(self.pending_merges@[k].0),
                self.params == old(self).params,
                self.output.network_structure@ == old(self).output.network_structure@,
                self.output.adds == old(self).output.adds,
                self.output.drops == old(self).output.drops,
                self.output.rejoins == old(self).output.rejoins,
                self.output.drops_dist@ == old(self).output.drops_dist@,
                old(self).left_nodes@.is_prefix_of(self.left_nodes@),
            decreases done@.len() - d,
        {
            let target = done[d];
            let ghost pend_d = self.pending_merges@;
            proof {
                assert(entry_keys_sorted(pend_d));
            }
            match find_entry(&self.pending_merges, &target) {
                Some(i) => {
                    let (_key, pm) = self.remove_pending_entry(i);
                    let ghost gpm = pm;
                    let parts = pm.into_map();
                    self.output.churn = if self.output.churn < u64::MAX {
                        self.output.churn + 1
                    } else {
                        self.output.churn
                    };
                    let mut secs: Vec<Section> = Vec::new();
                    let mut p: usize = 0;
                    while p < parts.len()
                        invariant
                            self.wf(),
                            !self.spec_has_events(),
                            !converged ==> self.event_queue@ == Seq::<(
                                Prefix,
                                Vec<NetworkEvent>,
                            )>::empty(),
                            0 <= p <= parts@.len(),
                            parts@ == gpm.complete@,
                            forall|j: int|
                                0 <= j < gpm.complete@.len() ==> (
                                #[trigger] gpm.complete@[j].0).wf(),
                            forall|a: int| 0 <= a < secs@.len() ==> (#[trigger] secs@[a]).wf(),
                            self.pending_merges@ == pend_d.remove(i as int),
                            self.params == old(self).params,
                            self.output.network_structure@ == old(self).output.network_structure@,
                self.output.adds == old(self).output.adds,
                self.output.drops == old(self).output.drops,
                self.output.rejoins == old(self).output.rejoins,
                self.output.drops_dist@ == old(self).output.drops_dist@,
                old(self).left_nodes@.is_prefix_of(self.left_nodes@),
                        decreases parts@.len() - p,
                    {
                        let pfx = parts[p].0;
                        match find_entry(&self.nodes, &pfx) {
                            Some(ni) => {
                                let (_nk, nsec) = self.remove_section_entry(ni);
                                secs.push(nsec);
                                match find_entry(&self.event_queue, &pfx) {
                                    Some(qe) => {
                                        self.remove_queue_entry(qe);
                                    },
                                    None => {},
                                }
                            },
                            None => {},
                        }
                        p += 1;
                    }
                    if secs.len() > 0 {
                        let merged = combine_sections(secs, &self.params);
                        self.upsert_section(merged);
                    }
                    proof {
                        pend_d.remove_ensures(i as int);
                        lemma_done_targets_shift(pend_d, done@, d as int, i as int, self.pending_merges@);
                    }
                },
                None => {
                    proof {
                        assert forall|k: int|
                            0 <= k < self.pending_merges@.len() && (
                            #[trigger] self.pending_merges@[k]).1.spec_is_done() implies done@
                            .subrange(d + 1, done@.len() as int).contains(
                            self.pending_merges@[k].0,
                        ) by {
                            assert(self.pending_merges@[k].0 != target);
                            let a = choose|a: int|
                                0 <= a < done@.subrange(d as int, done@.len() as int).len()
                                    && done@.subrange(d as int, done@.len() as int)[a]
                                    == self.pending_merges@[k].0;
                            assert(a != 0);
                            assert(done@.subrange(d + 1, done@.len() as int)[a - 1] == done@[d
                                + a]);
                        }
                    }
                },
            }
            d += 1;
        }
        self.capture_network_structure();
        converged
    }

    /// Put a ready-made section into the network under its own prefix,
    /// replacing whatever that prefix held: the seeding hook for
    /// hand-built scenarios.
    pub fn insert_section(&mut self, sec: Section)
        requires
            old(self).wf(),
            sec.wf(),
        ensures
            final(self).wf(),
            final(self).left_nodes@ == old(self).left_nodes@,
            final(self).event_queue@ == old(self).event_queue@,
            final(self).pending_merges@ == old(self).pending_merges@,
            final(self).params == old(self).params,
            final(self).output == old(self).output,
            has_entry_key(final(self).nodes@, sec.prefix),
    {
        self.upsert_section(sec);
    }

    /// Put one event on a section's queue, as the churn drivers do: the
    /// entry point for hand-built scenarios.
    pub fn enqueue_event(&mut self, prefix: Prefix, event: NetworkEvent)
        requires
            old(self).wf(),
            prefix.wf(),
            spec_event_wf(event),
        ensures
            final(self).wf(),
            final(self).nodes@ == old(self).nodes@,
            final(self).left_nodes@ == old(self).left_nodes@,
            final(self).pending_merges@ == old(self).pending_merges@,
            final(self).params == old(self).params,
            final(self).output == old(self).output,
            events_at(final(self).event_queue@, prefix) == events_at(
                old(self).event_queue@,
                prefix,
            ).push(event),
            forall|q: Prefix|
                q != prefix ==> events_at(final(self).event_queue@, q) == events_at(
                    old(self).event_queue@,
                    q,
                ),
            final(self).spec_has_events(),
    {
        self.queue_push(prefix, event);
    }

    pub fn num_sections(&self) -> (r: usize)
        ensures
            r == self.nodes@.len(),
    {
        self.nodes.len()
    }

    pub fn output(&self) -> (r: &Output)
        ensures
            r == &self.output,
    {
        &self.output
    }
}


/// Changing one entry's events, key kept, changes no other key's lookup.
proof fn lemma_events_at_frame(
    pre: Seq<(Prefix, Vec<NetworkEvent>)>,
    post: Seq<(Prefix, Vec<NetworkEvent>)>,
    p: Prefix,
    i: int,
)
    requires
        0 <= i < pre.len(),
        post.len() == pre.len(),
        forall|j: int| 0 <= j < pre.len() && j != i ==> post[j] == pre[j],
        post[i].0 == pre[i].0,
        p != pre[i].0,
    ensures
        events_at(post, p) == events_at(pre, p),
    decreases pre.len(),
{
    if pre.len() > 0 {
        let pre1 = pre.subrange(1, pre.len() as int);
        let post1 = post.subrange(1, post.len() as int);
        if i == 0 {
            assert(pre1 =~= post1);
        } else {
            assert(post[0] == pre[0]);
            if pre[0].0 != p {
                assert forall|j: int| 0 <= j < pre1.len() && j != i - 1 implies post1[j]
                    == pre1[j] by {
                    assert(pre1[j] == pre[j + 1] && post1[j] == post[j + 1]);
                }
                assert(pre1[i - 1] == pre[i] && post1[i - 1] == post[i]);
                lemma_events_at_frame(pre1, post1, p, i - 1);
            }
        }
    }
}

/// Inserting an entry under a fresh key changes no other key's lookup.
proof fn lemma_events_at_insert_frame(
    pre: Seq<(Prefix, Vec<NetworkEvent>)>,
    post: Seq<(Prefix, Vec<NetworkEvent>)>,
    p: Prefix,
    k: int,
    key: Prefix,
    q: Vec<NetworkEvent>,
)
    requires
        0 <= k <= pre.len(),
        post == pre.insert(k, (key, q)),
        p != key,
    ensures
        events_at(post, p) == events_at(pre, p),
    decreases pre.len(),
{
    pre.insert_ensures(k, (key, q));
    if k == 0 {
        assert(post.subrange(1, post.len() as int) =~= pre);
    } else {
        assert(post[0] == pre[0]);
        if pre[0].0 != p {
            let pre1 = pre.subrange(1, pre.len() as int);
            let post1 = post.subrange(1, post.len() as int);
            assert(post1 =~= pre1.insert(k - 1, (key, q)));
            lemma_events_at_insert_frame(pre1, post1, p, k - 1, key, q);
        }
    }
}


/// The leave events of a merge preamble: one `Gone` for every node of
/// `a` that is not in `b`, in order.
pub open spec fn gone_diff(a: Seq<Node>, b: Seq<Node>) -> Seq<NetworkEvent>
    decreases a.len(),
{
    if a.len() == 0 {
        Seq::<NetworkEvent>::empty()
    } else {
        let rest = gone_diff(a.drop_last(), b);
        if !b.contains(a.last()) {
            rest.push(NetworkEvent::Gone(a.last()))
        } else {
            rest
        }
    }
}

/// The join events of a merge preamble: one non-counting `Live` for
/// every node of `a` that is not in `b`, in order.
pub open spec fn live_diff(a: Seq<Node>, b: Seq<Node>) -> Seq<NetworkEvent>
    decreases a.len(),
{
    if a.len() == 0 {
        Seq::<NetworkEvent>::empty()
    } else {
        let rest = live_diff(a.drop_last(), b);
        if !b.contains(a.last()) {
            rest.push(NetworkEvent::Live(a.last(), false))
        } else {
            rest
        }
    }
}

/// Whether any of the sections holds a node of this name.
pub open spec fn any_has_name(ss: Seq<Section>, name: u64) -> bool {
    exists|i: int| 0 <= i < ss.len() && has_name((#[trigger] ss[i]).members@, name)
}

/// Removing one section splits the names between it and the rest.
proof fn lemma_any_has_name_remove(ss: Seq<Section>, i: int)
    requires
        0 <= i < ss.len(),
    ensures
        forall|nm: u64|
            #[trigger] any_has_name(ss, nm) <==> (any_has_name(ss.remove(i), nm) || has_name(
                ss[i].members@,
                nm,
            )),
{
    ss.remove_ensures(i);
    let post = ss.remove(i);
    assert forall|nm: u64| #[trigger] any_has_name(ss, nm) implies (any_has_name(post, nm)
        || has_name(ss[i].members@, nm)) by {
        let k = choose|k: int| 0 <= k < ss.len() && has_name(ss[k].members@, nm);
        if k < i {
            assert(post[k] == ss[k]);
        } else if k > i {
            assert(post[k - 1] == ss[k]);
        }
    }
    assert forall|nm: u64| (any_has_name(post, nm) || has_name(ss[i].members@, nm)) implies
        #[trigger] any_has_name(ss, nm) by {
        if any_has_name(post, nm) {
            let k = choose|k: int| 0 <= k < post.len() && has_name(post[k].members@, nm);
            if k < i {
                assert(ss[k] == post[k]);
            } else {
                assert(ss[k + 1] == post[k]);
            }
        }
    }
}

/// Appending one section adds exactly its names.
proof fn lemma_any_has_name_push(ss: Seq<Section>, x: Section)
    ensures
        forall|nm: u64|
            #[trigger] any_has_name(ss.push(x), nm) <==> (any_has_name(ss, nm) || has_name(
                x.members@,
                nm,
            )),
{
    let post = ss.push(x);
    assert forall|nm: u64| #[trigger] any_has_name(post, nm) implies (any_has_name(ss, nm)
        || has_name(x.members@, nm)) by {
        let k = choose|k: int| 0 <= k < post.len() && has_name(post[k].members@, nm);
        if k < ss.len() {
            assert(post[k] == ss[k]);
        }
    }
    assert forall|nm: u64| (any_has_name(ss, nm) || has_name(x.members@, nm)) implies
        #[trigger] any_has_name(post, nm) by {
        if any_has_name(ss, nm) {
            let k = choose|k: int| 0 <= k < ss.len() && has_name(ss[k].members@, nm);
            assert(post[k] == ss[k]);
        } else {
            assert(post[ss.len() as int] == x);
        }
    }
}

/// Merging two sections holds exactly the names of both.
proof fn lemma_merge_names(a: Section, b: Section, m: Section, inc: bool)
    requires
        forall|n: Node|
            #[trigger] m.members@.contains(n) <==> (crate::section::maybe_aged(
                b.members@,
                inc,
            ).contains(n) || (crate::section::maybe_aged(a.members@, inc).contains(n)
                && !has_name(crate::section::maybe_aged(b.members@, inc), n.name))),
    ensures
        forall|nm: u64|
            #[trigger] has_name(m.members@, nm) <==> (has_name(a.members@, nm) || has_name(
                b.members@,
                nm,
            )),
{
    let a2 = crate::section::maybe_aged(a.members@, inc);
    let b2 = crate::section::maybe_aged(b.members@, inc);
    crate::section::lemma_aged_has_name(a.members@);
    crate::section::lemma_aged_has_name(b.members@);
    assert forall|nm: u64| #[trigger] has_name(m.members@, nm) implies (has_name(a.members@, nm)
        || has_name(b.members@, nm)) by {
        let i = choose|i: int| 0 <= i < m.members@.len() && m.members@[i].name == nm;
        let n = m.members@[i];
        assert(m.members@.contains(n));
        if b2.contains(n) {
            let j = choose|j: int| 0 <= j < b2.len() && b2[j] == n;
            assert(has_name(b2, nm));
        } else {
            let j = choose|j: int| 0 <= j < a2.len() && a2[j] == n;
            assert(has_name(a2, nm));
        }
    }
    assert forall|nm: u64| (has_name(a.members@, nm) || has_name(b.members@, nm)) implies
        #[trigger] has_name(m.members@, nm) by {
        assert(has_name(a2, nm) == has_name(a.members@, nm));
        assert(has_name(b2, nm) == has_name(b.members@, nm));
        if has_name(b2, nm) {
            let j = choose|j: int| 0 <= j < b2.len() && b2[j].name == nm;
            assert(b2.contains(b2[j]));
            assert(m.members@.contains(b2[j]));
            let k = choose|k: int| 0 <= k < m.members@.len() && m.members@[k] == b2[j];
        } else {
            assert(has_name(a2, nm));
            let j = choose|j: int| 0 <= j < a2.len() && a2[j].name == nm;
            assert(a2.contains(a2[j]));
            assert(!has_name(b2, a2[j].name));
            assert(m.members@.contains(a2[j]));
            let k = choose|k: int| 0 <= k < m.members@.len() && m.members@[k] == a2[j];
        }
    }
}

/// The plain sum of the sections' ageing counters.
pub open spec fn total_counter(ss: Seq<Section>) -> int
    decreases ss.len(),
{
    if ss.len() == 0 {
        0
    } else {
        total_counter(ss.drop_last()) + ss.last().counter
    }
}

/// A counter sum capped at the word.
pub open spec fn spec_cap_u64(x: int) -> int {
    if x <= u64::MAX {
        x
    } else {
        u64::MAX as int
    }
}

/// Counter sums are nonnegative.
proof fn lemma_total_counter_nonneg(ss: Seq<Section>)
    ensures
        total_counter(ss) >= 0,
    decreases ss.len(),
{
    if ss.len() > 0 {
        lemma_total_counter_nonneg(ss.drop_last());
    }
}

/// Removing a section takes exactly its counter out of the sum.
proof fn lemma_total_counter_remove(ss: Seq<Section>, i: int)
    requires
        0 <= i < ss.len(),
    ensures
        total_counter(ss) == total_counter(ss.remove(i)) + ss[i].counter,
    decreases ss.len(),
{
    if i == ss.len() - 1 {
        assert(ss.remove(i) =~= ss.drop_last());
    } else {
        lemma_total_counter_remove(ss.drop_last(), i);
        assert(ss.remove(i).drop_last() =~= ss.drop_last().remove(i));
        assert(ss.remove(i).last() == ss.last());
    }
}

/// Appending a section adds exactly its counter to the sum.
proof fn lemma_total_counter_push(ss: Seq<Section>, x: Section)
    ensures
        total_counter(ss.push(x)) == total_counter(ss) + x.counter,
{
    assert(ss.push(x).drop_last() =~= ss);
}

/// The counter after `n` counting events, each saturating.
pub open spec fn spec_bump_n(x: u64, n: nat) -> u64
    decreases n,
{
    if n == 0 {
        x
    } else {
        spec_bump(spec_bump_n(x, (n - 1) as nat))
    }
}

/// Counting `a` then `b` events is counting `a + b`.
proof fn lemma_bump_n_add(x: u64, a: nat, b: nat)
    ensures
        spec_bump_n(spec_bump_n(x, a), b) == spec_bump_n(x, a + b),
    decreases b,
{
    if b > 0 {
        lemma_bump_n_add(x, a, (b - 1) as nat);
        assert(spec_bump_n(x, a + b) == spec_bump(spec_bump_n(x, (a + b - 1) as nat)));
    }
}

/// Whether some section of the collection holds this very node.
pub open spec fn node_in_some(ss: Seq<Section>, m: Node) -> bool {
    exists|i: int| 0 <= i < ss.len() && #[trigger] ss[i].members@.contains(m)
}

/// Whether, with ages untouched, every member of every current section
/// is a member of some original section.
pub open spec fn members_from(cur: Seq<Section>, orig: Seq<Section>) -> bool {
    forall|a: int, mi: int|
        0 <= a < cur.len() && 0 <= mi < cur[a].members@.len() ==> #[trigger] node_in_some(
            orig,
            cur[a].members@[mi],
        )
}

/// Whether some current section's prefix is an ancestor of the prefix.
pub open spec fn covered_prefix(cur: Seq<Section>, p: Prefix) -> bool {
    exists|a: int| 0 <= a < cur.len() && #[trigger] cur[a].prefix.spec_is_ancestor(p)
}

/// Whether each original section's prefix lies under some current
/// section's prefix.
pub open spec fn covers_prefixes(cur: Seq<Section>, orig: Seq<Section>) -> bool {
    forall|i: int|
        0 <= i < orig.len() ==> #[trigger] covered_prefix(cur, orig[i].prefix)
}

/// Initially every section covers its own prefix.
proof fn lemma_covers_initially(ss: Seq<Section>)
    requires
        forall|i: int| 0 <= i < ss.len() ==> (#[trigger] ss[i]).wf(),
    ensures
        covers_prefixes(ss, ss),
{
    assert forall|i: int|
        0 <= i < ss.len() implies #[trigger] covered_prefix(ss, ss[i].prefix) by {
        crate::prefix::lemma_ancestor_reflexive(ss[i].prefix);
        assert(0 <= i < ss.len() && ss[i].prefix.spec_is_ancestor(ss[i].prefix));
    }
}

/// Merging two sections into their common ancestor keeps every original
/// prefix covered.
proof fn lemma_covers_step(
    pre1: Seq<Section>,
    pre2: Seq<Section>,
    mid: Seq<Section>,
    post: Seq<Section>,
    orig: Seq<Section>,
    i1: int,
    i2: int,
    ga: Section,
    gb: Section,
    merged: Section,
)
    requires
        covers_prefixes(pre1, orig),
        0 <= i1 < pre1.len(),
        0 <= i2 < pre2.len(),
        pre2 == pre1.remove(i1),
        mid == pre2.remove(i2),
        post == mid.push(merged),
        ga == pre1[i1],
        gb == pre2[i2],
        merged.wf(),
        forall|i: int| 0 <= i < orig.len() ==> (#[trigger] orig[i]).wf(),
        forall|i: int| 0 <= i < pre1.len() ==> (#[trigger] pre1[i]).wf(),
        merged.prefix.spec_is_ancestor(ga.prefix),
        merged.prefix.spec_is_ancestor(gb.prefix),
    ensures
        covers_prefixes(post, orig),
{
    pre1.remove_ensures(i1);
    pre2.remove_ensures(i2);
    assert forall|i: int|
        0 <= i < orig.len() implies #[trigger] covered_prefix(post, orig[i].prefix) by {
        assert(covered_prefix(pre1, orig[i].prefix));
        let a0 = choose|a0: int|
            0 <= a0 < pre1.len() && #[trigger] pre1[a0].prefix.spec_is_ancestor(
                orig[i].prefix,
            );
        if a0 == i1 {
            crate::prefix::lemma_ancestor_transitive(merged.prefix, ga.prefix, orig[i].prefix);
            assert(post[post.len() - 1] == merged);
        } else {
            let a1: int = if a0 < i1 {
                a0
            } else {
                a0 - 1
            };
            assert(pre2[a1] == pre1[a0]);
            if a1 == i2 {
                assert(pre2[i2].wf());
                crate::prefix::lemma_ancestor_transitive(
                    merged.prefix,
                    gb.prefix,
                    orig[i].prefix,
                );
                assert(post[post.len() - 1] == merged);
            } else {
                let a2: int = if a1 < i2 {
                    a1
                } else {
                    a1 - 1
                };
                assert(mid[a2] == pre2[a1]);
                assert(post[a2] == mid[a2]);
            }
        }
    }
}

/// Whether the sections' prefixes cover `t` exactly: each lies under
/// `t`, and together they match every name `t` matches.
pub open spec fn spec_covers_target(ss: Seq<Section>, t: Prefix) -> bool {
    &&& forall|i: int| 0 <= i < ss.len() ==> t.spec_is_ancestor((#[trigger] ss[i]).prefix)
    &&& forall|nm: u64|
        #[trigger] t.spec_matches(nm) ==> exists|i: int|
            0 <= i < ss.len() && ss[i].prefix.spec_matches(nm)
}

/// Fold a non-empty collection of sections into one: repeatedly merge
/// the two with the largest prefixes. The result holds exactly the
/// names the inputs held.
#[verifier::spinoff_prover]
#[verifier::rlimit(100)]
fn combine_sections(sections: Vec<Section>, params: &Params) -> (r: Section)
    requires
        sections@.len() >= 1,
        forall|i: int| 0 <= i < sections@.len() ==> (#[trigger] sections@[i]).wf(),
    ensures
        r.wf(),
        forall|nm: u64|
            #[trigger] has_name(r.members@, nm) <==> any_has_name(sections@, nm),
        // The counters are summed, saturating at the word.
        r.counter == spec_cap_u64(total_counter(sections@)),
        // The result sits at the nearest common ancestor of the input
        // prefixes: below every other common ancestor.
        forall|i: int|
            0 <= i < sections@.len() ==> r.prefix.spec_is_ancestor(
                (#[trigger] sections@[i]).prefix,
            ),
        forall|t: Prefix|
            (t.wf() && (forall|i: int|
                0 <= i < sections@.len() ==> t.spec_is_ancestor(
                    (#[trigger] sections@[i]).prefix,
                ))) ==> #[trigger] t.spec_is_ancestor(r.prefix),
        // So when the inputs cover one target prefix completely, the
        // merged section sits exactly at that target.
        forall|t: Prefix|
            t.wf() && #[trigger] spec_covers_target(sections@, t) ==> r.prefix == t,
        // With ages untouched, every resulting member was a member of
        // some input section, unchanged.
        !params.inc_age ==> forall|mi: int|
            0 <= mi < r.members@.len() ==> #[trigger] node_in_some(sections@, r.members@[mi]),
{
    let ghost orig = sections@;
    let mut secs = sections;
    proof {
        assert forall|i: int| 0 <= i < orig.len() implies (#[trigger] orig[i]).wf() by {
            assert(sections@[i].wf());
        }
        lemma_covers_initially(orig);
        assert forall|a: int, mi: int|
            0 <= a < orig.len() && 0 <= mi < orig[a].members@.len() implies
            #[trigger] node_in_some(orig, orig[a].members@[mi]) by {
            assert(orig[a].members@.contains(orig[a].members@[mi]));
        }
    }
    while secs.len() > 1
        invariant
            secs@.len() >= 1,
            forall|i: int| 0 <= i < secs@.len() ==> (#[trigger] secs@[i]).wf(),
            forall|i: int| 0 <= i < orig.len() ==> (#[trigger] orig[i]).wf(),
            forall|nm: u64| #[trigger] any_has_name(secs@, nm) <==> any_has_name(orig, nm),
            spec_cap_u64(total_counter(secs@)) == spec_cap_u64(total_counter(orig)),
            covers_prefixes(secs@, orig),
            forall|t: Prefix|
                (t.wf() && (forall|i: int|
                    0 <= i < orig.len() ==> t.spec_is_ancestor((#[trigger] orig[i]).prefix)))
                    ==> (forall|j: int|
                    0 <= j < secs@.len() ==> t.spec_is_ancestor(
                        (#[trigger] secs@[j]).prefix,
                    )),
            !params.inc_age ==> members_from(secs@, orig),
        decreases secs@.len(),
    {
        let i1 = largest_prefix_index(&secs);
        let ghost pre1 = secs@;
        let s1 = secs.remove(i1);
        proof {
            lemma_any_has_name_remove(pre1, i1 as int);
            assert forall|i: int| 0 <= i < secs@.len() implies (#[trigger] secs@[i]).wf() by {
                pre1.remove_ensures(i1 as int);
                if i < i1 {
                    assert(secs@[i] == pre1[i]);
                } else {
                    assert(secs@[i] == pre1[i + 1]);
                }
            }
        }
        let i2 = largest_prefix_index(&secs);
        let ghost pre2 = secs@;
        let s2 = secs.remove(i2);
        proof {
            lemma_any_has_name_remove(pre2, i2 as int);
            assert forall|i: int| 0 <= i < secs@.len() implies (#[trigger] secs@[i]).wf() by {
                pre2.remove_ensures(i2 as int);
                if i < i2 {
                    assert(secs@[i] == pre2[i]);
                } else {
                    assert(secs@[i] == pre2[i + 1]);
                }
            }
        }
        let ghost ga = s1;
        let ghost gb = s2;
        let ghost mid = secs@;
        let merged = s1.merge(s2, params);
        proof {
            lemma_merge_names(ga, gb, merged, params.inc_age);
            lemma_any_has_name_push(mid, merged);
            lemma_total_counter_remove(pre1, i1 as int);
            lemma_total_counter_remove(pre2, i2 as int);
            lemma_total_counter_push(mid, merged);
            lemma_total_counter_nonneg(mid);
        }
        secs.push(merged);
        proof {
            assert(total_counter(secs@) == total_counter(mid) + merged.counter);
            assert(total_counter(pre1) == total_counter(mid) + ga.counter + gb.counter);
            assert(spec_cap_u64(total_counter(secs@)) == spec_cap_u64(total_counter(orig)));
            lemma_covers_step(
                pre1,
                pre2,
                mid,
                secs@,
                orig,
                i1 as int,
                i2 as int,
                ga,
                gb,
                merged,
            );
            assert forall|t: Prefix|
                (t.wf() && (forall|i: int|
                    0 <= i < orig.len() ==> t.spec_is_ancestor(
                        (#[trigger] orig[i]).prefix,
                    ))) implies (forall|j: int|
                0 <= j < secs@.len() ==> t.spec_is_ancestor(
                    (#[trigger] secs@[j]).prefix,
                )) by {
                assert forall|j: int|
                    0 <= j < secs@.len() implies t.spec_is_ancestor(
                    (#[trigger] secs@[j]).prefix) by {
                    pre1.remove_ensures(i1 as int);
                    pre2.remove_ensures(i2 as int);
                    assert(t.spec_is_ancestor(pre1[i1 as int].prefix));
                    let gi: int = if i2 < i1 {
                        i2 as int
                    } else {
                        i2 + 1
                    };
                    assert(pre2[i2 as int] == pre1[gi]);
                    assert(t.spec_is_ancestor(gb.prefix));
                    if j == secs@.len() - 1 {
                        assert(secs@[j] == merged);
                    } else {
                        assert(secs@[j] == mid[j]);
                        let a1: int = if j < i2 {
                            j
                        } else {
                            j + 1
                        };
                        assert(pre2[a1] == mid[j]);
                        let a0: int = if a1 < i1 {
                            a1
                        } else {
                            a1 + 1
                        };
                        assert(pre1[a0] == pre2[a1]);
                    }
                }
            }
            if !params.inc_age {
                pre1.remove_ensures(i1 as int);
                pre2.remove_ensures(i2 as int);
                assert forall|a: int, mi: int|
                    0 <= a < secs@.len() && 0 <= mi < secs@[a].members@.len() implies
                    #[trigger] node_in_some(orig, secs@[a].members@[mi]) by {
                    let m = secs@[a].members@[mi];
                    if a == secs@.len() - 1 {
                        assert(secs@[a] == merged);
                        assert(merged.members@.contains(m));
                        if crate::section::maybe_aged(gb.members@, false).contains(m) {
                            let j = choose|j: int|
                                0 <= j < gb.members@.len() && gb.members@[j] == m;
                            assert(pre2[i2 as int] == gb);
                            assert(node_in_some(orig, pre2[i2 as int].members@[j]));
                        } else {
                            let j = choose|j: int|
                                0 <= j < ga.members@.len() && ga.members@[j] == m;
                            assert(pre1[i1 as int] == ga);
                            assert(node_in_some(orig, pre1[i1 as int].members@[j]));
                        }
                    } else {
                        assert(secs@[a] == mid[a]);
                        let a1: int = if a < i2 {
                            a
                        } else {
                            a + 1
                        };
                        assert(pre2[a1] == mid[a]);
                        let a0: int = if a1 < i1 {
                            a1
                        } else {
                            a1 + 1
                        };
                        assert(pre1[a0] == pre2[a1]);
                        assert(node_in_some(orig, pre1[a0].members@[mi]));
                    }
                }
            }
        }
        proof {
            assert forall|nm: u64| #[trigger] any_has_name(secs@, nm) <==> any_has_name(
                orig,
                nm,
            ) by {
                assert(any_has_name(secs@, nm) == (any_has_name(mid, nm) || has_name(
                    merged.members@,
                    nm,
                )));
                assert(has_name(merged.members@, nm) == (has_name(ga.members@, nm) || has_name(
                    gb.members@,
                    nm,
                )));
                assert(any_has_name(pre2, nm) == (any_has_name(mid, nm) || has_name(
                    gb.members@,
                    nm,
                )));
                assert(any_has_name(pre1, nm) == (any_has_name(pre2, nm) || has_name(
                    ga.members@,
                    nm,
                )));
                assert(any_has_name(pre1, nm) == any_has_name(orig, nm));
            }
        }
    }
    let ghost fin = secs@;
    let r = secs.remove(0);
    proof {
        assert(fin.len() == 1 && fin[0] == r);
        assert(fin.drop_last() =~= Seq::<Section>::empty());
        assert(total_counter(fin.drop_last()) == 0);
        assert(fin.last() == r);
        assert(total_counter(fin) == r.counter);
        assert(r.counter == spec_cap_u64(total_counter(orig)));
        if !params.inc_age {
            assert forall|mi: int|
                0 <= mi < r.members@.len() implies #[trigger] node_in_some(
                orig,
                r.members@[mi],
            ) by {
                assert(node_in_some(orig, fin[0].members@[mi]));
            }
        }
        assert forall|i: int|
            0 <= i < orig.len() implies r.prefix.spec_is_ancestor(
            (#[trigger] orig[i]).prefix) by {
            assert(covered_prefix(fin, orig[i].prefix));
            let a = choose|a: int|
                0 <= a < fin.len() && #[trigger] fin[a].prefix.spec_is_ancestor(
                    orig[i].prefix,
                );
            assert(a == 0);
        }
        assert forall|t: Prefix|
            (t.wf() && (forall|i: int|
                0 <= i < orig.len() ==> t.spec_is_ancestor((#[trigger] orig[i]).prefix)))
            implies #[trigger] t.spec_is_ancestor(r.prefix) by {
            assert(t.spec_is_ancestor(fin[0].prefix));
        }
        assert forall|t: Prefix|
            t.wf() && #[trigger] spec_covers_target(orig, t) implies r.prefix == t by {
            assert(t.spec_is_ancestor(r.prefix));
            assert forall|nm: u64| #[trigger] t.spec_matches(nm) implies r.prefix.spec_matches(
                nm,
            ) by {
                let i = choose|i: int|
                    0 <= i < orig.len() && orig[i].prefix.spec_matches(nm);
                crate::prefix::lemma_ancestor_matches(r.prefix, orig[i].prefix, nm);
            }
            crate::prefix::lemma_matches_all_equal(t, r.prefix);
        }
        assert forall|nm: u64| #[trigger] has_name(r.members@, nm) <==> any_has_name(
            orig,
            nm,
        ) by {
            if has_name(r.members@, nm) {
                assert(any_has_name(fin, nm));
            }
            if any_has_name(fin, nm) {
                let k = choose|k: int| 0 <= k < fin.len() && has_name(fin[k].members@, nm);
                assert(k == 0);
            }
        }
    }
    r
}

/// The index of the section whose prefix is largest in key order.
fn largest_prefix_index(secs: &Vec<Section>) -> (r: usize)
    requires
        secs@.len() >= 1,
    ensures
        r < secs@.len(),
{
    let mut best: usize = 0;
    let mut i: usize = 1;
    while i < secs.len()
        invariant
            1 <= i <= secs@.len(),
            best < i,
        decreases secs@.len() - i,
    {
        if secs[best].prefix.lt(&secs[i].prefix) {
            best = i;
        }
        i += 1;
    }
    best
}


/// The section keys lying under the target prefix, in key order.
pub open spec fn keys_under(s: Seq<(Prefix, Section)>, t: Prefix) -> Seq<Prefix>
    decreases s.len(),
{
    if s.len() == 0 {
        Seq::<Prefix>::empty()
    } else {
        let rest = keys_under(s.drop_last(), t);
        if t.spec_is_ancestor(s.last().0) {
            rest.push(s.last().0)
        } else {
            rest
        }
    }
}

/// Every key under the target is collected.
proof fn lemma_keys_under_contains(s: Seq<(Prefix, Section)>, t: Prefix, j: int)
    requires
        0 <= j < s.len(),
        t.spec_is_ancestor(s[j].0),
    ensures
        keys_under(s, t).contains(s[j].0),
    decreases s.len(),
{
    if j == s.len() - 1 {
        let r = keys_under(s, t);
        assert(r[r.len() - 1] == s[j].0);
    } else {
        lemma_keys_under_contains(s.drop_last(), t, j);
        let r0 = keys_under(s.drop_last(), t);
        let k = choose|k: int| 0 <= k < r0.len() && r0[k] == s[j].0;
        assert(keys_under(s, t)[k] == s[j].0);
    }
}

/// The pending merges that survive a takeover: every entry whose target
/// is not under the new one.
pub open spec fn pending_without(s: Seq<(Prefix, PendingMerge)>, t: Prefix) -> Seq<(
    Prefix,
    PendingMerge,
)>
    decreases s.len(),
{
    if s.len() == 0 {
        Seq::<(Prefix, PendingMerge)>::empty()
    } else {
        let rest = pending_without(s.drop_last(), t);
        if t.spec_is_ancestor(s.last().0) {
            rest
        } else {
            rest.push(s.last())
        }
    }
}

/// Dropping an entry changes no other key's queue lookup.
proof fn lemma_events_at_remove_frame(
    pre: Seq<(Prefix, Vec<NetworkEvent>)>,
    p: Prefix,
    i: int,
)
    requires
        0 <= i < pre.len(),
        p != pre[i].0,
    ensures
        events_at(pre.remove(i), p) == events_at(pre, p),
    decreases pre.len(),
{
    pre.remove_ensures(i);
    if i == 0 {
        assert(pre.remove(0) =~= pre.subrange(1, pre.len() as int));
    } else {
        if pre[0].0 != p {
            let pre1 = pre.subrange(1, pre.len() as int);
            assert(pre.remove(i).subrange(1, pre.remove(i).len() as int) =~= pre1.remove(i - 1));
            assert(pre.remove(i)[0] == pre[0]);
            lemma_events_at_remove_frame(pre1, p, i - 1);
        }
    }
}

/// After finalising the merge at the front of the worklist, every
/// still-pending ready merge sits further down the worklist.
proof fn lemma_done_targets_shift(
    pend_d: Seq<(Prefix, PendingMerge)>,
    done: Seq<Prefix>,
    d: int,
    i: int,
    post: Seq<(Prefix, PendingMerge)>,
)
    requires
        entry_keys_sorted(pend_d),
        0 <= i < pend_d.len(),
        0 <= d < done.len(),
        pend_d[i].0 == done[d],
        post == pend_d.remove(i),
        forall|k: int|
            0 <= k < pend_d.len() && (#[trigger] pend_d[k]).1.spec_is_done() ==> done.subrange(
                d,
                done.len() as int,
            ).contains(pend_d[k].0),
    ensures
        forall|k: int|
            0 <= k < post.len() && (#[trigger] post[k]).1.spec_is_done() ==> done.subrange(
                d + 1,
                done.len() as int,
            ).contains(post[k].0),
{
    pend_d.remove_ensures(i);
    assert forall|k: int|
        0 <= k < post.len() && (#[trigger] post[k]).1.spec_is_done() implies done.subrange(
        d + 1,
        done.len() as int,
    ).contains(post[k].0) by {
        let k0: int = if k < i {
            k
        } else {
            k + 1
        };
        assert(post[k] == pend_d[k0]);
        assert(pend_d[k0].0 != pend_d[i].0);
        let a = choose|a: int|
            0 <= a < done.subrange(d, done.len() as int).len() && done.subrange(
                d,
                done.len() as int,
            )[a] == pend_d[k0].0;
        assert(a != 0);
        assert(done.subrange(d + 1, done.len() as int)[a - 1] == done[d + a]);
    }
}

/// A prefix of a prefix is a prefix.
proof fn lemma_prefix_transitive(a: Seq<Node>, b: Seq<Node>, c: Seq<Node>)
    requires
        a.is_prefix_of(b),
        b.is_prefix_of(c),
    ensures
        a.is_prefix_of(c),
{
    assert(c.subrange(0, a.len() as int) =~= b.subrange(0, a.len() as int));
}

/// Whether a node is in the vector.
fn contains_node(v: &Vec<Node>, n: &Node) -> (r: bool)
    ensures
        r == v@.contains(*n),
{
    let mut i: usize = 0;
    while i < v.len()
        invariant
            0 <= i <= v@.len(),
            forall|k: int| 0 <= k < i ==> v@[k] != *n,
        decreases v@.len() - i,
    {
        if v[i].name == n.name && v[i].age == n.age {
            assert(v@[i as int] == *n);
            return true;
        }
        i += 1;
    }
    false
}

/// Goodbye events carry no prefixes, so they are trivially well formed.
proof fn lemma_gone_diff_wf(a: Seq<Node>, b: Seq<Node>)
    ensures
        forall|k: int| 0 <= k < gone_diff(a, b).len() ==> spec_event_wf(#[trigger] gone_diff(a, b)[k]),
    decreases a.len(),
{
    if a.len() > 0 {
        lemma_gone_diff_wf(a.drop_last(), b);
        let g = gone_diff(a, b);
        let rest = gone_diff(a.drop_last(), b);
        assert forall|k: int| 0 <= k < g.len() implies spec_event_wf(#[trigger] g[k]) by {
            if !b.contains(a.last()) {
                if k < rest.len() {
                    assert(g[k] == rest[k]);
                } else {
                    assert(g[k] == NetworkEvent::Gone(a.last()));
                }
            } else {
                assert(g[k] == rest[k]);
            }
        }
    }
}

/// Greeting events carry no prefixes, so they are trivially well formed.
proof fn lemma_live_diff_wf(a: Seq<Node>, b: Seq<Node>)
    ensures
        forall|k: int| 0 <= k < live_diff(a, b).len() ==> spec_event_wf(#[trigger] live_diff(a, b)[k]),
    decreases a.len(),
{
    if a.len() > 0 {
        lemma_live_diff_wf(a.drop_last(), b);
        let g = live_diff(a, b);
        let rest = live_diff(a.drop_last(), b);
        assert forall|k: int| 0 <= k < g.len() implies spec_event_wf(#[trigger] g[k]) by {
            if !b.contains(a.last()) {
                if k < rest.len() {
                    assert(g[k] == rest[k]);
                } else {
                    assert(g[k] == NetworkEvent::Live(a.last(), false));
                }
            } else {
                assert(g[k] == rest[k]);
            }
        }
    }
}

/// Generate one random churn event: with probability `p_add` per cent
/// a node joins, with probability `p_drop` per cent a node drops, and
/// otherwise a departed node rejoins. Exactly one of the three driver
/// effects takes place.
pub fn random_event(network: &mut Network, p_add: u8, p_drop: u8)
    requires
        old(network).wf(),
    ensures
        final(network).wf(),
        final(network).nodes@ == old(network).nodes@,
        final(network).pending_merges@ == old(network).pending_merges@,
        final(network).params == old(network).params,
        final(network).output.network_structure@ == old(network).output.network_structure@,
        // An add: a fresh counting join queued for the owner of a
        // random name.
        (final(network).output.adds == spec_bump(old(network).output.adds) && final(network).output.drops == old(network).output.drops && final(network).output.rejoins == old(network).output.rejoins && final(network).left_nodes@ == old(network).left_nodes@ && exists|
            name: u64,
        |
            #[trigger] Network::spec_join_enqueued(
                old(network).nodes@,
                old(network).event_queue@,
                final(network).event_queue@,
                Node { name, age: old(network).params.init_age },
            ))
        // A drop: either the scan accepted nobody and nothing changed,
        // or one member's loss was counted and queued.
        || (final(network).output.adds == old(network).output.adds && final(network).output.rejoins == old(network).output.rejoins && final(network).left_nodes@ == old(network).left_nodes@ && ((final(network).output.drops == old(network).output.drops && final(network).output.churn == old(network).output.churn && final(network).output.drops_dist@
            == old(network).output.drops_dist@ && final(network).event_queue@ == old(network).event_queue@) || (exists|i: int, n: Node|
            {
                &&& 0 <= i < old(network).nodes@.len()
                &&& #[trigger] old(network).nodes@[i].1.members@.contains(n)
                &&& final(network).output.drops == spec_bump(old(network).output.drops)
                &&& final(network).output.churn == spec_bump(old(network).output.churn)
                &&& final(network).output.drops_dist@ == old(network).output.drops_dist@.update(
                    n.age as int,
                    spec_bump(old(network).output.drops_dist@[n.age as int]),
                )
                &&& events_at(final(network).event_queue@, old(network).nodes@[i].0)
                    == events_at(old(network).event_queue@, old(network).nodes@[i].0).push(
                    NetworkEvent::Lost(n.name),
                )
            })))
        // A rejoin: a random departed node, if any, comes back.
        || (final(network).output.rejoins == spec_bump(old(network).output.rejoins) && final(network).output.adds == old(network).output.adds && final(network).output.drops == old(network).output.drops && (old(network).left_nodes@.len() == 0 ==> final(network).left_nodes@
            == old(network).left_nodes@ && final(network).event_queue@ == old(network).event_queue@) && (old(network).left_nodes@.len() > 0 ==> exists|k: int|
            {
                &&& 0 <= k < old(network).left_nodes@.len()
                &&& final(network).left_nodes@ == old(network).left_nodes@.remove(k)
                &&& #[trigger] Network::spec_join_enqueued(
                    old(network).nodes@,
                    old(network).event_queue@,
                    final(network).event_queue@,
                    Node {
                        name: old(network).left_nodes@[k].name,
                        age: old(network).params.init_age,
                    },
                )
            })),
{
    let x = rng::random_percent();
    if x < p_add {
        network.add_random_node();
    } else if (x as u16) < p_add as u16 + p_drop as u16 {
        network.drop_random_node();
    } else {
        network.rejoin_random_node();
    }
}

/// Whether every member of the section has a name under the prefix.
pub open spec fn members_match(sec: Section, p: Prefix) -> bool {
    forall|i: int| 0 <= i < sec.members@.len() ==> p.spec_matches((#[trigger] sec.members@[i]).name)
}

/// Under a partition of the name space, two sections keyed by different
/// prefixes whose members match their keys cannot share a node name:
/// summing the section sizes counts every node exactly once.
pub proof fn lemma_no_cross_section_duplicates(
    p1: Prefix,
    s1: Section,
    p2: Prefix,
    s2: Section,
    keys: Set<Prefix>,
    nm: u64,
)
    requires
        crate::prefix::partitions(keys),
        keys.contains(p1),
        keys.contains(p2),
        members_match(s1, p1),
        members_match(s2, p2),
        has_name(s1.members@, nm),
        has_name(s2.members@, nm),
    ensures
        p1 == p2,
{
    let i = choose|i: int| 0 <= i < s1.members@.len() && s1.members@[i].name == nm;
    let j = choose|j: int| 0 <= j < s2.members@.len() && s2.members@[j].name == nm;
    assert(p1.spec_matches(nm));
    assert(p2.spec_matches(nm));
}

/// Skipping non-neighbouring leading sections leaves the first
/// neighbour alone.
proof fn lemma_first_neighbour_from(s: Seq<(Prefix, Section)>, src: Prefix, i: int)
    requires
        0 <= i <= s.len(),
        forall|k: int| 0 <= k < i ==> !(#[trigger] s[k].0).spec_is_neighbour(src),
    ensures
        Network::spec_first_neighbour(s, src) == Network::spec_first_neighbour(
            s.subrange(i, s.len() as int),
            src,
        ),
    decreases i,
{
    if i > 0 {
        let s1 = s.subrange(1, s.len() as int);
        assert(s.subrange(0, s.len() as int) =~= s);
        lemma_first_neighbour_from(s1, src, i - 1);
        assert(s1.subrange(i - 1, s1.len() as int) =~= s.subrange(i, s.len() as int));
    } else {
        assert(s.subrange(0, s.len() as int) =~= s);
    }
}

/// Skipping non-matching leading sections leaves the first match alone.
proof fn lemma_first_matching_from(s: Seq<(Prefix, Section)>, name: u64, i: int)
    requires
        0 <= i <= s.len(),
        forall|k: int| 0 <= k < i ==> !(#[trigger] s[k].0).spec_matches(name),
    ensures
        Network::spec_first_matching(s, name) == Network::spec_first_matching(
            s.subrange(i, s.len() as int),
            name,
        ),
    decreases i,
{
    if i > 0 {
        let s1 = s.subrange(1, s.len() as int);
        assert(s.subrange(0, s.len() as int) =~= s);
        lemma_first_matching_from(s1, name, i - 1);
        assert(s1.subrange(i - 1, s1.len() as int) =~= s.subrange(i, s.len() as int));
    } else {
        assert(s.subrange(0, s.len() as int) =~= s);
    }
}

} // verus!
