use ageing_sim::prefix::Prefix;

fn p(bits: u64, len: u64) -> Prefix {
    Prefix { bits, len }
}

#[test]
fn empty_prefix_matches_all_names() {
    let e = Prefix::empty();
    assert!(e.matches(0));
    assert!(e.matches(u64::MAX));
    assert!(e.matches(0x0123_4567_89ab_cdef));
    assert!(e.matches(1 << 63));
}

#[test]
fn extend_then_shorten_restores_prefix() {
    let cases = [p(0, 0), p(0b101, 3), p(1, 1), p(0x7fff_ffff, 63)];
    for q in cases {
        assert_eq!(q.extend(false).shorten(), q);
        assert_eq!(q.extend(true).shorten(), q);
    }
}

#[test]
fn sibling_twice_is_identity() {
    let cases = [p(1, 1), p(0b10, 2), p(0b111, 3), p(0, 64)];
    for q in cases {
        assert_eq!(q.sibling().sibling(), q);
    }
}

#[test]
fn extend_appends_a_bit() {
    let q = p(0b10, 2);
    assert_eq!(q.extend(false), p(0b100, 3));
    assert_eq!(q.extend(true), p(0b101, 3));
}

#[test]
fn matches_checks_leading_bits() {
    let q = p(0b10, 2);
    assert!(q.matches(0x8000_0000_0000_0000));
    assert!(q.matches(0xbfff_ffff_ffff_ffff));
    assert!(!q.matches(0xc000_0000_0000_0000));
    assert!(!q.matches(0));
    let full = p(42, 64);
    assert!(full.matches(42));
    assert!(!full.matches(43));
}

#[test]
fn ancestry_and_compatibility() {
    let root = Prefix::empty();
    let zero = p(0, 1);
    let one = p(1, 1);
    let zz = p(0b00, 2);
    let zo = p(0b01, 2);
    assert!(root.is_ancestor(&zero));
    assert!(root.is_ancestor(&root));
    assert!(zero.is_ancestor(&zz));
    assert!(zero.is_ancestor(&zo));
    assert!(!one.is_ancestor(&zz));
    assert!(!zz.is_ancestor(&zero));
    assert!(zero.is_compatible_with(&zz));
    assert!(zz.is_compatible_with(&zero));
    assert!(!zz.is_compatible_with(&zo));
    assert!(!zero.is_compatible_with(&one));
}

#[test]
fn neighbours_share_a_parent() {
    let zz = p(0b00, 2);
    let zo = p(0b01, 2);
    let oz = p(0b10, 2);
    assert!(zz.is_neighbour(&zo));
    assert!(zo.is_neighbour(&zz));
    assert!(!zz.is_neighbour(&oz));
    assert!(!zz.is_neighbour(&zz));
    let root = Prefix::empty();
    assert!(!root.is_neighbour(&root));
    assert_eq!(zz.sibling(), zo);
}

#[test]
fn key_order_is_by_bits_then_length() {
    let root = Prefix::empty();
    let zero = p(0, 1);
    let one = p(1, 1);
    assert!(root.lt(&zero));
    assert!(zero.lt(&one));
    assert!(!one.lt(&zero));
    assert!(!zero.lt(&zero));
    assert!(one.lt(&p(1, 2)));
}
