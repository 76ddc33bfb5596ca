use ageing_sim::churn::{NetworkEvent, SectionEvent};
use ageing_sim::node::Node;
use ageing_sim::params::{Params, SplitStrategy};
use ageing_sim::prefix::Prefix;
use ageing_sim::section::Section;

fn params() -> Params {
    Params::default()
}

fn section(prefix: Prefix, members: Vec<Node>, counter: u64) -> Section {
    let mut s = Section::new(prefix);
    for m in members {
        s.add_node(m);
    }
    s.counter = counter;
    s
}

fn names(s: &Section) -> Vec<u64> {
    s.nodes().iter().map(|n| n.name()).collect()
}

#[test]
fn should_count_is_false_for_merge_bookkeeping() {
    let n = Node::new(1, 4);
    let p = Prefix { bits: 0, len: 1 };
    assert!(NetworkEvent::Live(n, true).should_count());
    assert!(!NetworkEvent::Live(n, false).should_count());
    assert!(NetworkEvent::Lost(1).should_count());
    assert!(!NetworkEvent::Gone(n).should_count());
    assert!(NetworkEvent::Relocated(n).should_count());
    assert!(NetworkEvent::PrefixChange(p).should_count());
    assert!(!NetworkEvent::StartMerge(p).should_count());
}

#[test]
fn elders_are_the_eight_eldest_by_age_then_name() {
    let root = Prefix::empty();
    let mut members = Vec::new();
    for i in 0..10u64 {
        members.push(Node::new(i, 4 + i as u8));
    }
    let s = section(root, members, 0);
    let elders = s.elders();
    let elder_names: Vec<u64> = elders.iter().map(|n| n.name()).collect();
    // The two youngest (names 0 and 1) are not elders.
    assert_eq!(elder_names, vec![2, 3, 4, 5, 6, 7, 8, 9]);
    assert!(!s.is_elder_node(&Node::new(0, 4)));
    assert!(s.is_elder_node(&Node::new(9, 13)));
}

#[test]
fn completeness_needs_eight_adult_elders() {
    let root = Prefix::empty();
    let adults: Vec<Node> = (0..8u64).map(|i| Node::new(i, 4)).collect();
    assert!(section(root, adults.clone(), 0).is_complete());
    let mut with_young = adults.clone();
    with_young[0] = Node::new(0, 3);
    assert!(!section(root, with_young, 0).is_complete());
    let seven: Vec<Node> = (0..7u64).map(|i| Node::new(i, 4)).collect();
    assert!(!section(root, seven, 0).is_complete());
}

#[test]
fn young_cap_rejects_when_full() {
    let root = Prefix::empty();
    let members: Vec<Node> = (0..7u64)
        .map(|i| Node::new(i, 5))
        .chain([Node::new(7, 3)])
        .collect();
    let mut s = section(root, members, 0);
    // One young elder already present, cap is 1: a young join is refused.
    let young = Node::new(100, 2);
    let r = s.handle_event(NetworkEvent::Live(young, true), &params());
    assert_eq!(r, vec![SectionEvent::NodeRejected(young)]);
    assert_eq!(s.len(), 8);
    // An adult join passes.
    let adult = Node::new(101, 5);
    let r = s.handle_event(NetworkEvent::Live(adult, true), &params());
    assert!(!r.contains(&SectionEvent::NodeRejected(adult)));
    assert_eq!(s.len(), 9);
}

#[test]
fn young_cap_zero_never_rejects_young() {
    let root = Prefix::empty();
    let members: Vec<Node> = (0..8u64).map(|i| Node::new(i, 1)).collect();
    let mut s = section(root, members, 0);
    let mut p = params();
    p.max_young = 0;
    let young = Node::new(100, 1);
    let r = s.handle_event(NetworkEvent::Live(young, true), &p);
    assert!(!r.contains(&SectionEvent::NodeRejected(young)));
    assert_eq!(s.len(), 9);
}

#[test]
fn merging_section_rejects_joins() {
    let root = Prefix::empty();
    let mut s = section(root, vec![Node::new(1, 5)], 0);
    s.handle_event(NetworkEvent::StartMerge(root), &params());
    let n = Node::new(2, 5);
    let r = s.handle_event(NetworkEvent::Live(n, true), &params());
    assert_eq!(r, vec![SectionEvent::NodeRejected(n)]);
}

#[test]
fn lost_drops_the_node_and_counts() {
    let p0 = Prefix { bits: 0, len: 1 };
    let members: Vec<Node> = (0..9u64).map(|i| Node::new(i, 4)).collect();
    let mut s = section(p0, members, 0);
    let r = s.handle_event(NetworkEvent::Lost(3), &params());
    assert_eq!(r, vec![SectionEvent::NodeDropped(Node::new(3, 4))]);
    assert_eq!(s.len(), 8);
    assert_eq!(s.counter, 1);
}

#[test]
fn shrinking_below_a_group_asks_to_merge_unless_root() {
    let p0 = Prefix { bits: 0, len: 1 };
    let members: Vec<Node> = (0..8u64).map(|i| Node::new(i, 4)).collect();
    let mut s = section(p0, members.clone(), 0);
    let r = s.handle_event(NetworkEvent::Lost(0), &params());
    assert_eq!(
        r,
        vec![
            SectionEvent::RequestMerge,
            SectionEvent::NodeDropped(Node::new(0, 4))
        ]
    );
    // The root section never asks to merge.
    let mut root_s = section(Prefix::empty(), members, 0);
    let r = root_s.handle_event(NetworkEvent::Lost(0), &params());
    assert_eq!(r, vec![SectionEvent::NodeDropped(Node::new(0, 4))]);
}

#[test]
fn counting_join_on_power_of_two_relocates_the_due_node() {
    let root = Prefix::empty();
    let mut members: Vec<Node> = (0..8u64).map(|i| Node::new(i, 5)).collect();
    members.push(Node::new(50, 3));
    let mut s = section(root, members, 3);
    let r = s.handle_event(NetworkEvent::Live(Node::new(60, 4), true), &params());
    assert_eq!(s.counter, 4);
    assert_eq!(r, vec![SectionEvent::NeedRelocate(Node::new(50, 3))]);
}

#[test]
fn split_threshold_matches_the_strategy() {
    let root = Prefix::empty();
    // 8 adults on each side of the top bit.
    let mut members: Vec<Node> = Vec::new();
    for i in 0..8u64 {
        members.push(Node::new(i << 60, 4));
        members.push(Node::new((8 + i) << 60, 4));
    }
    let s = section(root, members.clone(), 0);
    assert!(s.split_due(&params()));
    let mut always = params();
    always.split_strategy = SplitStrategy::Always;
    assert!(s.split_due(&always));
    // With one side short of a full adult group, only `Always` splits.
    let mut lopsided: Vec<Node> = members.clone();
    lopsided[1] = Node::new(3, 4);
    let s2 = section(root, lopsided, 0);
    assert!(!s2.split_due(&params()));
    assert!(s2.split_due(&always));
}

#[test]
fn split_partitions_members_by_the_next_bit() {
    let root = Prefix::empty();
    let mut members: Vec<Node> = Vec::new();
    for i in 0..8u64 {
        members.push(Node::new(i << 60, 4));
        members.push(Node::new((8 + i) << 60, 4));
    }
    let s = section(root, members, 7);
    let (s0, s1) = s.split(&params());
    assert_eq!(s0.prefix, Prefix { bits: 0, len: 1 });
    assert_eq!(s1.prefix, Prefix { bits: 1, len: 1 });
    assert_eq!(s0.len(), 8);
    assert_eq!(s1.len(), 8);
    assert_eq!(s0.counter, 7);
    assert_eq!(s1.counter, 7);
    for n in s0.nodes() {
        assert!(s0.prefix.matches(n.name()));
    }
    for n in s1.nodes() {
        assert!(s1.prefix.matches(n.name()));
    }
}

#[test]
fn split_then_merge_restores_membership() {
    let root = Prefix::empty();
    let mut members: Vec<Node> = Vec::new();
    for i in 0..6u64 {
        members.push(Node::new(i << 60, 4 + i as u8));
        members.push(Node::new((9 + i) << 60, 7));
    }
    let s = section(root, members, 5);
    let original = names(&s);
    let (s0, s1) = s.split(&params());
    let merged = s0.merge(s1, &params());
    assert_eq!(names(&merged), original);
    assert_eq!(merged.prefix, root);
    assert_eq!(merged.counter, 10);
}

#[test]
fn merge_of_siblings_takes_the_parent_prefix() {
    let p00 = Prefix { bits: 0b00, len: 2 };
    let p01 = Prefix { bits: 0b01, len: 2 };
    let a = section(p00, vec![Node::new(0, 4)], 2);
    let b = section(p01, vec![Node::new(1 << 62, 5)], 3);
    let merged = a.merge(b, &params());
    assert_eq!(merged.prefix, Prefix { bits: 0, len: 1 });
    assert_eq!(merged.len(), 2);
    assert_eq!(merged.counter, 5);
    assert!(!merged.merging);
}

#[test]
fn age_inc_grows_ages_on_split_and_merge() {
    let root = Prefix::empty();
    let mut p = params();
    p.inc_age = true;
    let members = vec![Node::new(0, 4), Node::new(1 << 63, 6)];
    let s = section(root, members, 0);
    let (s0, s1) = s.split(&p);
    assert_eq!(s0.nodes()[0].age(), 5);
    assert_eq!(s1.nodes()[0].age(), 7);
    let merged = s0.merge(s1, &p);
    let ages: Vec<u8> = merged.nodes().iter().map(|n| n.age()).collect();
    assert_eq!(ages, vec![6, 8]);
}

#[test]
fn prefix_change_adopts_prefix_and_clears_merging() {
    let p0 = Prefix { bits: 0, len: 1 };
    let root = Prefix::empty();
    let mut s = section(p0, vec![Node::new(1, 4)], 0);
    s.handle_event(NetworkEvent::StartMerge(root), &params());
    assert!(s.merging);
    let r = s.handle_event(NetworkEvent::PrefixChange(root), &params());
    assert!(r.is_empty());
    assert!(!s.merging);
    assert_eq!(s.prefix, root);
    assert_eq!(s.counter, 1);
}

#[test]
fn gone_removes_silently_without_counting() {
    let root = Prefix::empty();
    let mut s = section(root, vec![Node::new(1, 4), Node::new(2, 4)], 0);
    let r = s.handle_event(NetworkEvent::Gone(Node::new(1, 4)), &params());
    assert!(r.is_empty());
    assert_eq!(s.len(), 1);
    assert_eq!(s.counter, 0);
}
