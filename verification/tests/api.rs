use flagset::FlagDef;
use flagset::FlagSetDescriptor;
use flagset::FlagsValue;

fn test_flags() -> FlagSetDescriptor {
    FlagSetDescriptor::new(
        vec![
            FlagDef::new("F1", 1 << 0),
            FlagDef::new("F2", 1 << 1),
            FlagDef::new("F3", 1 << 3),
            FlagDef::new("F4", 1 << 4),
            FlagDef::new("F1_3", (1 << 0) | (1 << 3)),
        ],
        0,
        32,
    )
}

fn v(bits: u128) -> FlagsValue {
    FlagsValue { bits }
}

fn f1() -> FlagsValue {
    v(1 << 0)
}

fn f2() -> FlagsValue {
    v(1 << 1)
}

fn f3() -> FlagsValue {
    v(1 << 3)
}

fn f4() -> FlagsValue {
    v(1 << 4)
}

#[test]
fn constructors_works() {
    let d = test_flags();

    let empty = FlagsValue::empty();
    assert_eq!(empty.bits(), 0);

    let all_known = FlagsValue::all(&d);
    assert_eq!(all_known.bits(), (1 << 0) | (1 << 1) | (1 << 3) | (1 << 4));

    let all_bits_set = FlagsValue::all_bits(&d);
    assert_eq!(all_bits_set.bits(), 0xFFFF_FFFF);

    let from_bits = FlagsValue::from_bits(&d, (1 << 0) | (1 << 1));
    assert!(from_bits.is_some());
    assert_eq!(from_bits, Some(f1().union(f2())));

    let from_bits = FlagsValue::from_bits(&d, 0x1276);
    assert!(from_bits.is_none());

    let from_truncate = FlagsValue::from_bits_truncate(&d, 1 | 2 | 0x20);
    assert_eq!(from_truncate, f1().union(f2()));

    let from_name = FlagsValue::from_flag_name(&d, "F1");
    assert_eq!(from_name, Some(f1()));
    let from_name = FlagsValue::from_flag_name(&d, "F2");
    assert_eq!(from_name, Some(f2()));
    let from_name = FlagsValue::from_flag_name(&d, "F3");
    assert_eq!(from_name, Some(f3()));
    let from_name = FlagsValue::from_flag_name(&d, "F4");
    assert_eq!(from_name, Some(f4()));
    let from_name = FlagsValue::from_flag_name(&d, "F1_3");
    assert_eq!(from_name, Some(f1().union(f3())));
    let from_name = FlagsValue::from_flag_name(&d, "NOOOO");
    assert!(from_name.is_none());
}

#[test]
fn truncate_works() {
    let d = test_flags();

    // Flag with known flags won't change
    let mut test = FlagsValue::all(&d);
    test.truncate(&d);
    assert_eq!(test, f1().union(f2()).union(f3()).union(f4()));

    let test = f1().union(f2()).union(f3());
    let mut truncated = test;
    truncated.truncate(&d);
    assert_eq!(truncated, test);

    let mut test = FlagsValue::all_bits(&d);
    test.truncate(&d);
    assert_eq!(test, FlagsValue::all(&d));
}

#[test]
fn intersects_works() {
    let g1 = f1().union(f3());
    let g2 = f3().union(f4());
    let g3 = f2().union(f4());
    assert!(g1.intersects(g2));
    assert!(!g1.intersects(g3));
    assert!(g2.intersects(g3));
}

#[test]
fn contains_works() {
    let test = f1().union(f3());
    assert!(test.contains(f1()));
    assert!(!test.contains(f2()));
    assert!(test.contains(f3()));
    let f1_3 = f1().union(f3());
    assert!(test.contains(f1_3));
    assert!(test.contains(f1().union(f3())));
}

#[test]
fn set_works() {
    let d = test_flags();

    let mut test = FlagsValue::empty();
    assert!(test.is_empty());
    test.set(f1());
    assert!(!test.is_empty());
    assert!(test.contains(f1()));
    assert_eq!(test, f1());
    test.set(f2());
    assert!(!test.is_empty());
    assert!(test.contains(f2()));
    assert_eq!(test, f1().union(f2()));
    test.set(f3());
    assert!(!test.is_empty());
    assert!(test.contains(f3()));
    assert_eq!(test, f1().union(f2()).union(f3()));
    test.set(f4());
    assert!(!test.is_empty());
    assert!(test.contains(f4()));
    assert_eq!(test, FlagsValue::all(&d));

    let unknown = FlagsValue::from_bits_retain(&d, 1 << 12);
    test.set(unknown);
    assert!(!test.is_empty());
    assert!(test.contains(unknown));
    assert_eq!(test, FlagsValue::all(&d).union(unknown));
}

#[test]
fn unset_works() {
    let d = test_flags();

    let unknown = FlagsValue::from_bits_retain(&d, 1 << 12);
    let mut test = FlagsValue::all(&d).union(unknown);
    assert!(!test.is_empty());
    assert!(test.contains(f1().union(f2()).union(f3()).union(f4())));
    assert!(test.contains(unknown));

    test.unset(f1());
    assert!(!test.is_empty());
    assert!(!test.contains(f1()));
    assert!(test.contains(f2().union(f3()).union(f4()).union(unknown)));

    test.unset(f2());
    assert!(!test.is_empty());
    assert!(!test.contains(f2()));
    assert!(test.contains(f3().union(f4()).union(unknown)));

    test.unset(f3());
    assert!(!test.is_empty());
    assert!(!test.contains(f3()));
    assert!(test.contains(f4().union(unknown)));

    test.unset(f4());
    assert!(!test.is_empty());
    assert!(!test.contains(f4()));
    assert!(test.contains(unknown));

    test.unset(unknown);
    assert!(test.is_empty());
    assert!(!test.contains(unknown));
}

#[test]
fn toggle_works() {
    let mut test = FlagsValue::empty();
    assert!(test.is_empty());

    test.toggle(f1());
    assert!(!test.is_empty());
    assert!(test.contains(f1()));
    test.toggle(f1());
    assert!(test.is_empty());
}

#[test]
fn complement_works() {
    let d = test_flags();

    // Complement should truncate, so assert_eq! should be used instead of contains.
    let test = f1().union(f3());
    assert_eq!(test.complement(&d), f2().union(f4()));

    // The negation operator is defined as complement with truncation.
    let unknown = FlagsValue::from_bits_retain(&d, 1 << 12);
    let test = f3().union(unknown);
    assert_eq!(test.complement(&d), f1().union(f4()).union(f2()));
}

#[test]
fn intersection_works() {
    let g1 = f1();
    let g2 = f1().union(f2());
    let g3 = f3().union(f2());
    assert_eq!(g1.intersection(g2), f1());
    assert!(g1.intersection(g3).is_empty());
    assert_eq!(g2.intersection(g3), f2());
}

#[test]
fn union_works() {
    let g1 = f1();
    let g2 = f1().union(f2());
    let g3 = f3().union(f2());

    assert_eq!(g1.union(g2), g2);
    assert_eq!(g1.union(g3), f3().union(f2()).union(f1()));
    assert_eq!(g2.union(g3), f3().union(f2()).union(f1()));
}

#[test]
fn difference_works() {
    let g1 = f1();
    let g2 = f1().union(f2());
    let g3 = f3().union(f2());

    assert_eq!(g1.difference(g2), FlagsValue::empty());
    assert_eq!(g2.difference(g1), f2());
    assert_eq!(g1.difference(g3), f1());
    assert_eq!(g3.difference(g1), g3);
    assert_eq!(g2.difference(g3), f1());
    assert_eq!(g3.difference(g2), f3());
}

#[test]
fn symmetric_difference_works() {
    let g1 = f1();
    let g2 = f1().union(f2());
    let g3 = f3().union(f2());

    assert_eq!(g1.symmetric_difference(g2), f2());
    assert_eq!(g2.symmetric_difference(g1), f2());
    assert_eq!(g1.symmetric_difference(g3), f1().union(f2()).union(f3()));
    assert_eq!(g3.symmetric_difference(g1), f1().union(f2()).union(f3()));
    assert_eq!(g2.symmetric_difference(g3), f1().union(f3()));
    assert_eq!(g3.symmetric_difference(g2), f1().union(f3()));
}
