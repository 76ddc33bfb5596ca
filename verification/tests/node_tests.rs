use ageing_sim::node::Node;
use ageing_sim::params::DropDist;
use ageing_sim::prefix::Prefix;

#[test]
fn new_node_carries_name_and_age() {
    let n = Node::new(0xdead, 4);
    assert_eq!(n.name(), 0xdead);
    assert_eq!(n.age(), 4);
}

#[test]
fn adulthood_starts_at_age_four() {
    assert!(!Node::new(1, 0).is_adult());
    assert!(!Node::new(1, 3).is_adult());
    assert!(Node::new(1, 4).is_adult());
    assert!(Node::new(1, 200).is_adult());
}

#[test]
fn rejoined_keeps_name_and_resets_age() {
    let mut n = Node::new(777, 12);
    n.rejoined(4);
    assert_eq!(n.name(), 777);
    assert_eq!(n.age(), 4);
}

#[test]
fn relocate_renames_under_target_and_ages() {
    let target = Prefix { bits: 0b11, len: 2 };
    let mut n = Node::new(0, 5);
    n.relocate(&target, 0x0123_4567_89ab_cdef);
    assert!(target.matches(n.name()));
    assert_eq!(n.age(), 6);

    let root = Prefix { bits: 0, len: 0 };
    let mut m = Node::new(9, 254);
    m.relocate(&root, 42);
    assert_eq!(m.name(), 42);
    assert_eq!(m.age(), 255);
    m.relocate(&root, 43);
    assert_eq!(m.age(), 255);
}

#[test]
fn exponential_drop_modulus_doubles_with_age() {
    assert_eq!(Node::new(1, 0).drop_modulus(DropDist::Exponential), 1);
    assert_eq!(Node::new(1, 3).drop_modulus(DropDist::Exponential), 8);
    assert_eq!(Node::new(1, 10).drop_modulus(DropDist::Exponential), 1024);
    assert_eq!(Node::new(1, 64).drop_modulus(DropDist::Exponential), u64::MAX);
}

#[test]
fn reverse_drop_modulus_is_the_age() {
    assert_eq!(Node::new(1, 0).drop_modulus(DropDist::ReverseProportional), 1);
    assert_eq!(Node::new(1, 1).drop_modulus(DropDist::ReverseProportional), 1);
    assert_eq!(Node::new(1, 5).drop_modulus(DropDist::ReverseProportional), 5);
}

#[test]
fn equal_ages_weigh_equally_and_older_weighs_more() {
    let a = Node::new(1, 7);
    let b = Node::new(2, 7);
    assert_eq!(
        a.drop_modulus(DropDist::Exponential),
        b.drop_modulus(DropDist::Exponential)
    );
    let mut last = Node::new(0, 0).drop_modulus(DropDist::Exponential);
    for age in 1..=63u8 {
        let m = Node::new(0, age).drop_modulus(DropDist::Exponential);
        assert!(m > last);
        last = m;
    }
}

#[test]
fn drop_acceptance_is_divisibility_by_the_modulus() {
    // Age 1 under the exponential distribution has modulus 2: even
    // draws accept, odd draws reject.
    let n = Node::new(5, 1);
    assert!(n.drop_accepts(0, DropDist::Exponential));
    assert!(!n.drop_accepts(1, DropDist::Exponential));
    assert!(n.drop_accepts(2, DropDist::Exponential));
    // Age 0 has modulus 1: every draw accepts.
    let y = Node::new(5, 0);
    assert!(y.drop_accepts(7, DropDist::Exponential));
    // Reverse-proportional: modulus is the age itself.
    let o = Node::new(5, 3);
    assert!(o.drop_accepts(9, DropDist::ReverseProportional));
    assert!(!o.drop_accepts(10, DropDist::ReverseProportional));
}
