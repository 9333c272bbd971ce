use flagset::FlagDef;
use flagset::FlagSetDescriptor;
use flagset::FlagsValue;
use flagset::text::debug_string;

fn v(bits: u128) -> FlagsValue {
    FlagsValue { bits }
}

fn test_flags() -> FlagSetDescriptor {
    FlagSetDescriptor::new(
        vec![
            FlagDef::new("A", 1),
            FlagDef::new("B", 1 << 1),
            FlagDef::new("C", 1 << 2),
            FlagDef::new("ABC", 1 | (1 << 1) | (1 << 2)),
        ],
        0,
        8,
    )
}

fn test_zero() -> FlagSetDescriptor {
    FlagSetDescriptor::new(vec![FlagDef::new("ZERO", 0)], 0, 8)
}

fn test_zero_one() -> FlagSetDescriptor {
    FlagSetDescriptor::new(vec![FlagDef::new("ZERO", 0), FlagDef::new("ONE", 1)], 0, 8)
}

fn test_overlapping() -> FlagSetDescriptor {
    FlagSetDescriptor::new(
        vec![FlagDef::new("AB", 1 | (1 << 1)), FlagDef::new("BC", (1 << 1) | (1 << 2))],
        0,
        8,
    )
}

fn test_external() -> FlagSetDescriptor {
    FlagSetDescriptor::new(
        vec![
            FlagDef::new("A", 1),
            FlagDef::new("B", 1 << 1),
            FlagDef::new("C", 1 << 2),
            FlagDef::new("ABC", 1 | (1 << 1) | (1 << 2)),
        ],
        0xFF,
        8,
    )
}

fn test_external_full() -> FlagSetDescriptor {
    FlagSetDescriptor::new(vec![], 0xFF, 8)
}

fn case(
    d: &FlagSetDescriptor,
    label: &str,
    value: FlagsValue,
    debug: &str,
    uhex: &str,
    lhex: &str,
    oct: &str,
    bin: &str,
) {
    assert_eq!(debug, debug_string(d, label, &value));
    assert_eq!(uhex, value.upper_hex());
    assert_eq!(lhex, value.lower_hex());
    assert_eq!(oct, value.octal());
    assert_eq!(bin, value.binary());
}

#[test]
fn fmt_cases() {
    let d = test_flags();
    case(
        &d,
        "TestFlags",
        FlagsValue::empty(),
        "TestFlags { flags: 0x0, bits: 0b00000000, octal: 0o000, hex: 0x00 }",
        "0",
        "0",
        "0",
        "0",
    );
    case(
        &d,
        "TestFlags",
        v(1),
        "TestFlags { flags: A, bits: 0b00000001, octal: 0o001, hex: 0x01 }",
        "1",
        "1",
        "1",
        "1",
    );
    case(
        &d,
        "TestFlags",
        FlagsValue::all(&d),
        "TestFlags { flags: A | B | C, bits: 0b00000111, octal: 0o007, hex: 0x07 }",
        "7",
        "7",
        "7",
        "111",
    );
    case(
        &d,
        "TestFlags",
        FlagsValue::from_bits_retain(&d, 1 << 3),
        "TestFlags { flags: 0x8, bits: 0b00001000, octal: 0o010, hex: 0x08 }",
        "8",
        "8",
        "10",
        "1000",
    );
    case(
        &d,
        "TestFlags",
        v(1).union(FlagsValue::from_bits_retain(&d, 1 << 3)),
        "TestFlags { flags: A | 0x8, bits: 0b00001001, octal: 0o011, hex: 0x09 }",
        "9",
        "9",
        "11",
        "1001",
    );

    let z = test_zero();
    case(
        &z,
        "TestZero",
        v(0),
        "TestZero { flags: 0x0, bits: 0b00000000, octal: 0o000, hex: 0x00 }",
        "0",
        "0",
        "0",
        "0",
    );
    case(
        &z,
        "TestZero",
        v(0).union(FlagsValue::from_bits_retain(&z, 1)),
        "TestZero { flags: 0x1, bits: 0b00000001, octal: 0o001, hex: 0x01 }",
        "1",
        "1",
        "1",
        "1",
    );

    let zo = test_zero_one();
    case(
        &zo,
        "TestZeroOne",
        v(1),
        "TestZeroOne { flags: ONE, bits: 0b00000001, octal: 0o001, hex: 0x01 }",
        "1",
        "1",
        "1",
        "1",
    );

    let ov = test_overlapping();
    case(
        &ov,
        "TestOverlapping",
        FlagsValue::from_bits_retain(&ov, 1 << 1),
        "TestOverlapping { flags: 0x2, bits: 0b00000010, octal: 0o002, hex: 0x02 }",
        "2",
        "2",
        "2",
        "10",
    );

    let ex = test_external();
    case(
        &ex,
        "TestExternal",
        FlagsValue::from_bits_retain(&ex, 1 | (1 << 1) | (1 << 3)),
        "TestExternal { flags: A | B | 0x8, bits: 0b00001011, octal: 0o013, hex: 0x0B }",
        "B",
        "b",
        "13",
        "1011",
    );

    case(
        &ex,
        "TestExternal",
        FlagsValue::all(&ex),
        "TestExternal { flags: A | B | C | 0xF8, bits: 0b11111111, octal: 0o377, hex: 0xFF }",
        "FF",
        "ff",
        "377",
        "11111111",
    );

    let exf = test_external_full();
    case(
        &exf,
        "TestExternalFull",
        FlagsValue::all(&exf),
        "TestExternalFull { flags: 0xFF, bits: 0b11111111, octal: 0o377, hex: 0xFF }",
        "FF",
        "ff",
        "377",
        "11111111",
    );
}
