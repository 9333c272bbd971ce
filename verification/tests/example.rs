use flagset::ExampleFlags;

#[test]
fn example_constructors() {
    assert_eq!(ExampleFlags::empty().bits(), 0);
    assert!(ExampleFlags::empty().is_empty());
    assert_eq!(ExampleFlags::all().bits(), 0xFFFF_FFFF);
    assert_eq!(ExampleFlags::all_bits().bits(), 0xFFFF_FFFF);
    assert!(ExampleFlags::all_bits().is_all_bits());
    assert!(ExampleFlags::all().is_all());

    assert_eq!(ExampleFlags::from_bits(1 << 9), Some(ExampleFlags::from_bits_retain(1 << 9)));
    assert_eq!(ExampleFlags::from_bits_truncate(0xABCD).bits(), 0xABCD);
}

#[test]
fn example_names() {
    assert_eq!(ExampleFlags::from_flag_name("Flag1").unwrap().bits(), 1 << 9);
    assert_eq!(ExampleFlags::from_flag_name("Flag3").unwrap().bits(), 0b10);
    assert_eq!(ExampleFlags::from_flag_name("Flag4").unwrap().bits(), 0xFFFF_FFFD);
    assert_eq!(ExampleFlags::from_flag_name("Flag9").unwrap().bits(), 1);
    assert!(ExampleFlags::from_flag_name("Flag10").is_none());
    assert!(ExampleFlags::from_flag_name("").is_none());
}

#[test]
fn example_algebra() {
    let a = ExampleFlags::from_bits_retain(1 << 9);
    let b = ExampleFlags::from_bits_retain(1 << 12);
    assert_eq!(a.union(b).bits(), (1 << 9) | (1 << 12));
    assert_eq!(a.or(b), a.union(b));
    assert_eq!(a.union(b).intersection(a), a);
    assert_eq!(a.union(b).difference(a), b);
    assert_eq!(a.symmetric_difference(a.union(b)), b);
    assert!(a.union(b).contains(a));
    assert!(a.intersects(a.union(b)));
    assert!(!a.intersects(b));
    assert_eq!(a.not().bits(), 0xFFFF_FFFF ^ (1 << 9));
    assert_eq!(a.complement().bits(), 0xFFFF_FFFF ^ (1 << 9));
    assert!(!a.contains_unknown_bits());

    let mut m = ExampleFlags::empty();
    m.set(a);
    m.set(b);
    assert_eq!(m, a.union(b));
    m.unset(a);
    assert_eq!(m, b);
    m.toggle(b);
    assert!(m.is_empty());

    let mut t = ExampleFlags::from_bits_retain(0x1234);
    t.truncate();
    assert_eq!(t.bits(), 0x1234);
    assert_eq!(ExampleFlags::from_bits_retain(0x1234).truncated().bits(), 0x1234);
}

#[test]
fn example_decomposition() {
    // Flag1 and Flag3 explain every bit in declared order, so the aliasing
    // convenience flag Flag7, which covers the same bits, is never reached.
    let v = ExampleFlags::from_bits_retain((1 << 9) | 0b10);
    let names = v.iter_names();
    assert_eq!(names.len(), 2);
    assert_eq!(names[0].0, "Flag1");
    assert_eq!(names[0].1.bits(), 1 << 9);
    assert_eq!(names[1].0, "Flag3");
    assert_eq!(names[1].1.bits(), 0b10);

    // Folding union over the outer decomposition restores the source.
    let v = ExampleFlags::from_bits_retain(0xDEAD_BEEF);
    let mut folded: u128 = 0;
    for part in v.iter() {
        folded |= part.bits();
    }
    assert_eq!(folded, 0xDEAD_BEEF);
}
