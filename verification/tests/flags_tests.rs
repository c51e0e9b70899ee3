use flashmap::flags::{FMapFlags, BIT_COMPRESSED, BIT_PRESERVE, BIT_RO, BIT_STATIC, KNOWN_BITS};

#[test]
fn the_four_flags() {
    assert_eq!(FMapFlags::Static().bits(), 1);
    assert_eq!(FMapFlags::Compressed().bits(), 2);
    assert_eq!(FMapFlags::RO().bits(), 4);
    assert_eq!(FMapFlags::Preserve().bits(), 8);
    assert_eq!(FMapFlags::empty().bits(), 0);
    assert_eq!(FMapFlags::default(), FMapFlags::empty());
    assert_eq!((BIT_STATIC, BIT_COMPRESSED, BIT_RO, BIT_PRESERVE), (1, 2, 4, 8));
    assert_eq!(KNOWN_BITS, 15);
}

#[test]
fn union_and_contains() {
    let both = FMapFlags::Static() | FMapFlags::Preserve();
    assert_eq!(both.bits(), 9);
    assert_eq!(both, FMapFlags::Preserve().union(FMapFlags::Static()));
    assert!(both.contains(FMapFlags::Static()));
    assert!(both.contains(FMapFlags::Preserve()));
    assert!(both.contains(both));
    assert!(both.contains(FMapFlags::empty()));
    assert!(!both.contains(FMapFlags::RO()));
    assert!(!both.contains(FMapFlags::Static() | FMapFlags::RO()));
    assert!(!FMapFlags::empty().contains(FMapFlags::Static()));
    assert!(FMapFlags::empty().is_empty());
    assert!(!both.is_empty());
}

#[test]
fn from_bits_takes_known_bits_only() {
    assert_eq!(FMapFlags::from_bits(0), Some(FMapFlags::empty()));
    assert_eq!(FMapFlags::from_bits(3), Some(FMapFlags::Static() | FMapFlags::Compressed()));
    assert_eq!(FMapFlags::from_bits(15).map(|f| f.bits()), Some(15));
    assert_eq!(FMapFlags::from_bits(16), None);
    assert_eq!(FMapFlags::from_bits(0x8001), None);
    assert_eq!(FMapFlags::from_bits_truncate(0x8001), FMapFlags::Static());
    assert_eq!(FMapFlags::from_bits_truncate(0xfff0), FMapFlags::empty());
    assert_eq!(FMapFlags::from_bits_truncate(0xffff).bits(), 15);
}
