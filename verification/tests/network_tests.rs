use ageing_sim::churn::NetworkEvent;
use ageing_sim::network::Network;
use ageing_sim::node::Node;
use ageing_sim::params::Params;
use ageing_sim::prefix::Prefix;
use ageing_sim::section::Section;

fn params() -> Params {
    Params::default()
}

fn section(prefix: Prefix, members: Vec<Node>, counter: u64) -> Section {
    let mut s = Section::new(prefix);
    for m in members {
        s.add_node(m);
    }
    s.counter = counter;
    s
}

/// The structural invariants: the section prefixes tile the whole name
/// space with no overlap, every node's name matches its section's key,
/// and no name appears in two sections.
fn check_invariants(net: &Network) {
    let mut intervals: Vec<(u128, u128)> = net
        .nodes
        .iter()
        .map(|(p, _)| {
            let width = 1u128 << (64 - p.len);
            let start = (p.bits as u128) << (64 - p.len);
            (start, width)
        })
        .collect();
    intervals.sort();
    let mut next = 0u128;
    for (start, width) in &intervals {
        assert_eq!(*start, next, "gap or overlap in the section prefixes");
        next = start + width;
    }
    assert_eq!(next, 1u128 << 64, "the prefixes do not cover the name space");

    let mut all_names: Vec<u64> = Vec::new();
    let mut total = 0usize;
    for (key, sec) in &net.nodes {
        for n in sec.nodes() {
            assert!(key.matches(n.name()), "member outside its section");
            all_names.push(n.name());
        }
        total += sec.nodes().len();
    }
    all_names.sort();
    all_names.dedup();
    assert_eq!(all_names.len(), total, "a name appears in two sections");
}

#[test]
fn empty_start_one_add() {
    let mut net = Network::new(params());
    net.add_node(Node::new(0x0, 4));
    net.process_events();
    assert!(!net.has_events());
    assert_eq!(net.num_sections(), 1);
    assert_eq!(net.output().adds, 1);
    assert_eq!(net.output().churn, 1);
    let st = net.output().network_structure.last().unwrap();
    assert_eq!(st.size, 1);
    assert_eq!(st.sections, 1);
    let dist = net.age_distribution();
    assert_eq!(dist[4], 1);
    check_invariants(&net);
}

fn split_state() -> Network {
    let mut net = Network::new(params());
    let members: Vec<Node> = (0..16u64).map(|i| Node::new(i << 60, 4)).collect();
    net.insert_section(section(Prefix::empty(), members, 0));
    net.add_node(Node::new(1, 4));
    net.process_events();
    net
}

#[test]
fn one_more_join_triggers_a_split() {
    let net = split_state();
    assert!(!net.has_events());
    assert_eq!(net.num_sections(), 2);
    assert_eq!(net.complete_sections(), 2);
    let keys: Vec<Prefix> = net.nodes.iter().map(|(p, _)| *p).collect();
    assert_eq!(keys, vec![Prefix { bits: 0, len: 1 }, Prefix { bits: 1, len: 1 }]);
    assert_eq!(net.nodes[0].1.nodes().len(), 9);
    assert_eq!(net.nodes[1].1.nodes().len(), 8);
    // One add plus one split.
    assert_eq!(net.output().churn, 2);
    check_invariants(&net);
}

#[test]
fn a_drop_below_group_size_merges_back() {
    let mut net = split_state();
    net.enqueue_event(Prefix { bits: 1, len: 1 }, NetworkEvent::Lost(15 << 60));
    net.process_events();
    assert!(!net.has_events());
    assert!(net.pending_merges.is_empty());
    assert_eq!(net.num_sections(), 1);
    assert_eq!(net.nodes[0].0, Prefix::empty());
    // The dropped node is banked for rejoining.
    assert_eq!(net.left_nodes.len(), 1);
    assert_eq!(net.left_nodes[0].name(), 15 << 60);
    // The merged section keeps the smaller side's elders only through
    // the preamble: the shrunken side's elders leave via `Gone` and the
    // replacement joins are refused while the sections are merging.
    assert_eq!(net.nodes[0].1.nodes().len(), 9);
    assert_eq!(net.output().rejections, 8);
    // The add, the split, and the merge each count once.
    assert_eq!(net.output().churn, 3);
    check_invariants(&net);
}

#[test]
fn an_ageing_tick_relocates_to_the_neighbour() {
    let mut net = Network::new(params());
    net.nodes.clear();
    let p0 = Prefix { bits: 0, len: 1 };
    let p1 = Prefix { bits: 1, len: 1 };
    let mut members: Vec<Node> = (0..8u64).map(|i| Node::new(i << 59, 5)).collect();
    members.push(Node::new(100, 3));
    net.insert_section(section(p0, members, 3));
    net.insert_section(section(p1, vec![Node::new(1 << 63, 5)], 0));
    net.enqueue_event(p0, NetworkEvent::Live(Node::new(200, 4), true));
    net.process_events();
    assert!(!net.has_events());
    assert_eq!(net.output().relocations, 1);
    assert_eq!(net.output().churn, 2);
    assert_eq!(net.num_sections(), 2);
    // The age-3 node moved to the neighbour and aged to 4.
    let dist = net.age_distribution();
    assert_eq!(dist[3], 0);
    assert_eq!(dist[4], 2);
    assert_eq!(dist[5], 9);
    assert_eq!(net.nodes[1].1.nodes().len(), 2);
    check_invariants(&net);
}

#[test]
fn a_wider_merge_request_subsumes_a_pending_one() {
    let mut net = Network::new(params());
    net.nodes.clear();
    let p000 = Prefix { bits: 0b000, len: 3 };
    let p001 = Prefix { bits: 0b001, len: 3 };
    let p01 = Prefix { bits: 0b01, len: 2 };
    let p1 = Prefix { bits: 1, len: 1 };
    net.insert_section(section(p000, (0..8u64).map(|i| Node::new(i, 4)).collect(), 0));
    net.insert_section(section(
        p001,
        (0..8u64).map(|i| Node::new((1 << 61) + i, 4)).collect(),
        0,
    ));
    net.insert_section(section(
        p01,
        (0..8u64).map(|i| Node::new((1 << 62) + i, 4)).collect(),
        0,
    ));
    net.insert_section(section(
        p1,
        (0..8u64).map(|i| Node::new((1 << 63) + i, 4)).collect(),
        0,
    ));
    // One loss under 000 asks for the merge into 00; a loss under 01,
    // processed later in the same cascade, asks for the merge into 0,
    // which is an ancestor of 00 and takes over.
    net.enqueue_event(p000, NetworkEvent::Lost(0));
    net.enqueue_event(p01, NetworkEvent::Lost(1 << 62));
    net.process_events();
    assert!(!net.has_events());
    assert!(net.pending_merges.is_empty());
    assert_eq!(net.num_sections(), 2);
    let keys: Vec<Prefix> = net.nodes.iter().map(|(p, _)| *p).collect();
    assert_eq!(keys, vec![Prefix { bits: 0, len: 1 }, Prefix { bits: 1, len: 1 }]);
    check_invariants(&net);
}

#[test]
fn rejoin_keeps_the_name_and_resets_the_age() {
    let mut net = Network::new(params());
    let name = 0xabcd;
    let mut members: Vec<Node> = (0..8u64).map(|i| Node::new(i, 4)).collect();
    members.push(Node::new(name, 12));
    net.insert_section(section(Prefix::empty(), members, 0));
    net.enqueue_event(Prefix::empty(), NetworkEvent::Lost(name));
    net.process_events();
    assert_eq!(net.left_nodes.len(), 1);
    assert_eq!(net.left_nodes[0].name(), name);
    assert_eq!(net.left_nodes[0].age(), 12);

    net.rejoin_random_node();
    net.process_events();
    assert!(net.left_nodes.is_empty());
    assert_eq!(net.output().rejoins, 1);
    let back = net.nodes[0]
        .1
        .nodes()
        .iter()
        .find(|n| n.name() == name)
        .copied()
        .expect("the node rejoined under its old name");
    assert_eq!(back.age(), 4);
    check_invariants(&net);
}

#[test]
fn snapshots_accumulate_per_step() {
    let mut net = Network::new(params());
    net.process_events();
    net.process_events();
    assert_eq!(net.output().network_structure.len(), 2);
    assert!(!net.has_events());
}

#[test]
fn random_churn_keeps_the_invariants() {
    let mut net = Network::new(params());
    for _ in 0..300 {
        ageing_sim::network::random_event(&mut net, 90, 7);
        net.process_events();
        assert!(!net.has_events());
        check_invariants(&net);
    }
    let out = net.output();
    // A drop step that accepts no victim counts nothing, so the three
    // event counters can fall short of the step count but never pass it.
    assert!(out.adds + out.drops + out.rejoins <= 300);
    assert!(out.adds > 0);
    let snapshots = &out.network_structure;
    assert_eq!(snapshots.len(), 300);
    // Every snapshot is consistent with itself.
    for st in snapshots {
        assert!(st.complete <= st.sections);
    }
}

#[test]
fn a_split_relocates_the_members_due_at_the_carried_counter() {
    let mut net = Network::new(params());
    net.nodes.clear();
    let p0 = Prefix { bits: 0, len: 1 };
    let p1 = Prefix { bits: 1, len: 1 };
    // Sixteen adults split evenly across the second name bit, with the
    // ageing counter one short of a power of two.
    let mut members: Vec<Node> = Vec::new();
    for i in 0..8u64 {
        members.push(Node::new(i << 58, 5));
        members.push(Node::new((1 << 62) + (i << 58), 5));
    }
    net.insert_section(section(p0, members, 7));
    net.insert_section(section(p1, vec![Node::new(1 << 63, 5)], 0));
    // A counting join pushes the counter to eight: the young joiner is
    // immediately due (age 4, counter 2^3), and the split that follows
    // carries the counter into both children, where the due member is
    // relocated again.
    net.enqueue_event(p0, NetworkEvent::Live(Node::new(5, 4), true));
    net.process_events();
    assert!(!net.has_events());
    assert_eq!(net.output().relocations, 2);
    assert_eq!(net.num_sections(), 3);
    let keys: Vec<Prefix> = net.nodes.iter().map(|(p, _)| *p).collect();
    // Keys sit in map order: by bits, then by length.
    assert_eq!(
        keys,
        vec![
            Prefix { bits: 0b00, len: 2 },
            Prefix { bits: 1, len: 1 },
            Prefix { bits: 0b01, len: 2 }
        ]
    );
    let dist = net.age_distribution();
    assert_eq!(dist[4], 0);
    check_invariants(&net);
}

#[test]
fn process_events_reports_convergence() {
    let mut net = Network::new(params());
    net.add_node(Node::new(0x1234, 4));
    assert!(net.process_events(), "a one-event cascade stays under the cap");
    assert!(!net.has_events());
    // A quiescent network converges trivially and still takes a snapshot.
    let before = net.output().network_structure.len();
    assert!(net.process_events());
    assert_eq!(net.output().network_structure.len(), before + 1);
}
