use flagset::FlagDef;
use flagset::FlagSetDescriptor;
use flagset::FlagsValue;
use flagset::ParseError;
use flagset::parse::from_text;
use flagset::parse::from_text_strict;
use flagset::parse::from_text_truncate;
use flagset::text::to_writer;
use flagset::text::to_writer_strict;
use flagset::text::to_writer_truncate;

fn v(bits: u128) -> FlagsValue {
    FlagsValue { bits }
}

fn test_flags() -> FlagSetDescriptor {
    FlagSetDescriptor::new(
        vec![
            FlagDef::new("A", 1),
            FlagDef::new("B", 1 << 1),
            FlagDef::new("C", 1 << 2),
            FlagDef::new("ABC", 1 | (1 << 1) | (1 << 2)),
        ],
        0,
        8,
    )
}

fn test_flags_invert() -> FlagSetDescriptor {
    FlagSetDescriptor::new(
        vec![
            FlagDef::new("ABC", 1 | (1 << 1) | (1 << 2)),
            FlagDef::new("A", 1),
            FlagDef::new("B", 1 << 1),
            FlagDef::new("C", 1 << 2),
        ],
        0,
        8,
    )
}

fn test_zero() -> FlagSetDescriptor {
    FlagSetDescriptor::new(vec![FlagDef::new("ZERO", 0)], 0, 8)
}

fn test_unicode() -> FlagSetDescriptor {
    FlagSetDescriptor::new(vec![FlagDef::new("一", 1), FlagDef::new("二", 1 << 1)], 0, 8)
}

fn test_overlapping() -> FlagSetDescriptor {
    FlagSetDescriptor::new(
        vec![FlagDef::new("AB", 1 | (1 << 1)), FlagDef::new("BC", (1 << 1) | (1 << 2))],
        0,
        8,
    )
}

fn test_overlapping_full() -> FlagSetDescriptor {
    FlagSetDescriptor::new(
        vec![
            FlagDef::new("A", 1),
            FlagDef::new("B", 1),
            FlagDef::new("C", 1),
            FlagDef::new("D", 1 << 1),
        ],
        0,
        8,
    )
}

#[test]
fn roundtrip() {
    let d = test_flags();
    for a in 0u8..=255 {
        for b in 0u8..=255 {
            let f = FlagsValue::from_bits_retain(&d, (a | b) as u128);
            let s = to_writer(&d, &f);
            assert_eq!(f, from_text(&d, s.as_str()).unwrap());
        }
    }
}

#[test]
fn roundtrip_truncate() {
    let d = test_flags();
    for a in 0u8..=255 {
        for b in 0u8..=255 {
            let f = FlagsValue::from_bits_retain(&d, (a | b) as u128);
            let s = to_writer_truncate(&d, &f);
            assert_eq!(
                FlagsValue::from_bits_truncate(&d, f.bits()),
                from_text_truncate(&d, s.as_str()).unwrap()
            );
        }
    }
}

#[test]
fn roundtrip_strict() {
    let d = test_flags();
    for a in 0u8..=255 {
        for b in 0u8..=255 {
            let f = FlagsValue::from_bits_retain(&d, (a | b) as u128);
            let s = to_writer_strict(&d, &f);

            let mut strict = FlagsValue::empty();
            let mut it = f.iter_names(&d);
            while let Some((_, flag)) = it.next() {
                strict = strict.union(flag);
            }
            let f = strict;

            if let Ok(parsed) = from_text_strict(&d, s.as_str()) {
                assert_eq!(f, parsed);
            }
        }
    }
}

#[test]
fn parser_valid() {
    let d = test_flags();

    assert_eq!(0, from_text(&d, "").unwrap().bits());

    assert_eq!(1, from_text(&d, "A").unwrap().bits());
    assert_eq!(1, from_text(&d, " A ").unwrap().bits());
    assert_eq!(1 | (1 << 1) | (1 << 2), from_text(&d, "A | B | C").unwrap().bits());
    assert_eq!(1 | (1 << 1) | (1 << 2), from_text(&d, "A\n|\tB\r\n|   C ").unwrap().bits());
    assert_eq!(1 | (1 << 1) | (1 << 2), from_text(&d, "A|B|C").unwrap().bits());

    assert_eq!(1 << 3, from_text(&d, "0x8").unwrap().bits());
    assert_eq!(1 | (1 << 3), from_text(&d, "A | 0x8").unwrap().bits());
    assert_eq!(1 | (1 << 1) | (1 << 3), from_text(&d, "0x1 | 0x8 | B").unwrap().bits());

    let u = test_unicode();
    assert_eq!(1 | (1 << 1), from_text(&u, "一 | 二").unwrap().bits());
}

#[test]
fn parser_invalid() {
    let d = test_flags();

    assert_eq!(from_text(&d, "a").unwrap_err(), ParseError::InvalidNamedFlag);
    assert_eq!(from_text(&d, "A & B").unwrap_err(), ParseError::InvalidNamedFlag);

    assert_eq!(from_text(&d, "0xg").unwrap_err(), ParseError::InvalidHexFlag);
    assert_eq!(from_text(&d, "0xffffffffffff").unwrap_err(), ParseError::InvalidHexFlag);
}

#[test]
fn parser_cases() {
    let d = test_flags();
    assert_eq!("", to_writer(&d, &FlagsValue::empty()));
    assert_eq!("A", to_writer(&d, &v(1)));
    assert_eq!("A | B | C", to_writer(&d, &FlagsValue::all(&d)));
    assert_eq!("0x8", to_writer(&d, &FlagsValue::from_bits_retain(&d, 1 << 3)));
    assert_eq!("A | 0x8", to_writer(&d, &v(1).union(FlagsValue::from_bits_retain(&d, 1 << 3))));

    let z = test_zero();
    assert_eq!("", to_writer(&z, &v(0)));

    let inv = test_flags_invert();
    assert_eq!("ABC", to_writer(&inv, &FlagsValue::all(&inv)));

    let ov = test_overlapping();
    assert_eq!("0x1", to_writer(&ov, &FlagsValue::from_bits_retain(&ov, 1)));

    let full = test_overlapping_full();
    assert_eq!("A", to_writer(&full, &v(1)));
    assert_eq!("A | D", to_writer(&full, &v(1).union(v(1 << 1))));
}

#[test]
fn truncate_valid() {
    let d = test_flags();

    assert_eq!(0, from_text_truncate(&d, "").unwrap().bits());

    assert_eq!(1, from_text_truncate(&d, "A").unwrap().bits());
    assert_eq!(1, from_text_truncate(&d, " A ").unwrap().bits());
    assert_eq!(1 | (1 << 1) | (1 << 2), from_text_truncate(&d, "A | B | C").unwrap().bits());
    assert_eq!(
        1 | (1 << 1) | (1 << 2),
        from_text_truncate(&d, "A\n|\tB\r\n|   C ").unwrap().bits()
    );
    assert_eq!(1 | (1 << 1) | (1 << 2), from_text_truncate(&d, "A|B|C").unwrap().bits());

    assert_eq!(0, from_text_truncate(&d, "0x8").unwrap().bits());
    assert_eq!(1, from_text_truncate(&d, "A | 0x8").unwrap().bits());
    assert_eq!(1 | (1 << 1), from_text_truncate(&d, "0x1 | 0x8 | B").unwrap().bits());

    let u = test_unicode();
    assert_eq!(1 | (1 << 1), from_text_truncate(&u, "一 | 二").unwrap().bits());
}

#[test]
fn writer_truncate_cases() {
    let d = test_flags();
    assert_eq!("", to_writer_truncate(&d, &FlagsValue::empty()));
    assert_eq!("A", to_writer_truncate(&d, &v(1)));
    assert_eq!("A | B | C", to_writer_truncate(&d, &FlagsValue::all(&d)));
    assert_eq!("", to_writer_truncate(&d, &FlagsValue::from_bits_retain(&d, 1 << 3)));
    assert_eq!(
        "A",
        to_writer_truncate(&d, &v(1).union(FlagsValue::from_bits_retain(&d, 1 << 3)))
    );

    let z = test_zero();
    assert_eq!("", to_writer_truncate(&z, &v(0)));

    let inv = test_flags_invert();
    assert_eq!("ABC", to_writer_truncate(&inv, &FlagsValue::all(&inv)));

    let ov = test_overlapping();
    assert_eq!("0x1", to_writer_truncate(&ov, &FlagsValue::from_bits_retain(&ov, 1)));

    let full = test_overlapping_full();
    assert_eq!("A", to_writer_truncate(&full, &v(1)));
    assert_eq!("A | D", to_writer_truncate(&full, &v(1).union(v(1 << 1))));
}

#[test]
fn strict_valid() {
    let d = test_flags();

    assert_eq!(0, from_text_strict(&d, "").unwrap().bits());

    assert_eq!(1, from_text_strict(&d, "A").unwrap().bits());
    assert_eq!(1, from_text_strict(&d, " A ").unwrap().bits());
    assert_eq!(1 | (1 << 1) | (1 << 2), from_text_strict(&d, "A | B | C").unwrap().bits());
    assert_eq!(1 | (1 << 1) | (1 << 2), from_text_strict(&d, "A\n|\tB\r\n|   C ").unwrap().bits());
    assert_eq!(1 | (1 << 1) | (1 << 2), from_text_strict(&d, "A|B|C").unwrap().bits());

    let u = test_unicode();
    assert_eq!(1 | (1 << 1), from_text_strict(&u, "一 | 二").unwrap().bits());
}

#[test]
fn strict_invalid() {
    let d = test_flags();

    assert_eq!(from_text_strict(&d, "a").unwrap_err(), ParseError::InvalidNamedFlag);
    assert_eq!(from_text_strict(&d, "A & B").unwrap_err(), ParseError::InvalidNamedFlag);

    assert_eq!(from_text_strict(&d, "0x1").unwrap_err(), ParseError::InvalidHexFlag);
    assert_eq!(from_text_strict(&d, "0xg").unwrap_err(), ParseError::InvalidHexFlag);
    assert_eq!(from_text_strict(&d, "0xffffffffffff").unwrap_err(), ParseError::InvalidHexFlag);
}

#[test]
fn writer_strict_cases() {
    let d = test_flags();
    assert_eq!("", to_writer_strict(&d, &FlagsValue::empty()));
    assert_eq!("A", to_writer_strict(&d, &v(1)));
    assert_eq!("A | B | C", to_writer_strict(&d, &FlagsValue::all(&d)));
    assert_eq!("", to_writer_strict(&d, &FlagsValue::from_bits_retain(&d, 1 << 3)));
    assert_eq!("A", to_writer_strict(&d, &v(1).union(FlagsValue::from_bits_retain(&d, 1 << 3))));

    let z = test_zero();
    assert_eq!("", to_writer_strict(&z, &v(0)));

    let inv = test_flags_invert();
    assert_eq!("ABC", to_writer_strict(&inv, &FlagsValue::all(&inv)));

    let ov = test_overlapping();
    assert_eq!("", to_writer_strict(&ov, &FlagsValue::from_bits_retain(&ov, 1)));

    let full = test_overlapping_full();
    assert_eq!("A", to_writer_strict(&full, &v(1)));
    assert_eq!("A | D", to_writer_strict(&full, &v(1).union(v(1 << 1))));
}
