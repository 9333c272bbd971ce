use flagset::FlagDef;
use flagset::FlagSetDescriptor;
use flagset::FlagsValue;
use flagset::ParseError;
use flagset::parse::from_text;
use flagset::parse::from_text_strict;
use flagset::text::to_writer;

fn v(bits: u128) -> FlagsValue {
    FlagsValue { bits }
}

fn test_flags() -> FlagSetDescriptor {
    FlagSetDescriptor::new(
        vec![
            FlagDef::new("A", 1),
            FlagDef::new("B", 1 << 1),
            FlagDef::new("C", 1 << 2),
            FlagDef::new("ABC", 1 | (1 << 1) | (1 << 2)),
        ],
        0,
        8,
    )
}

#[test]
fn overlap_decomposition() {
    // A source covered by two partially overlapping definitions yields both
    // full patterns, in declared order, and leaves nothing unattributed.
    let d = FlagSetDescriptor::new(
        vec![FlagDef::new("AB", 0b011), FlagDef::new("BC", 0b110)],
        0,
        8,
    );
    let source = v(0b111);
    let mut it = source.iter_names(&d);

    let (name, flag) = it.next().unwrap();
    assert_eq!(name, "AB");
    assert_eq!(flag.bits(), 0b011);

    let (name, flag) = it.next().unwrap();
    assert_eq!(name, "BC");
    assert_eq!(flag.bits(), 0b110);

    assert!(it.next().is_none());
    assert!(it.remaining().is_empty());
}

#[test]
fn decomposition_fold_restores_source() {
    // Folding union over everything the outer iterator yields, the final
    // remainder included, rebuilds the source exactly.
    let d = test_flags();
    for bits in 0u128..=255 {
        let source = FlagsValue::from_bits_retain(&d, bits);
        let mut folded = FlagsValue::empty();
        let mut it = source.iter(&d);
        while let Some(part) = it.next() {
            folded = folded.union(part);
        }
        assert_eq!(folded, source);
    }
}

#[test]
fn truncation_idempotence() {
    let d = test_flags();
    for bits in 0u128..=255 {
        let value = FlagsValue::from_bits_retain(&d, bits);
        assert_eq!(value.truncated(&d).truncated(&d), value.truncated(&d));
    }
    assert!(FlagsValue::all_bits(&d).truncated(&d).is_all(&d));
}

#[test]
fn zero_bit_flag_containment() {
    let d = FlagSetDescriptor::new(vec![FlagDef::new("Z", 0), FlagDef::new("ONE", 1)], 0, 8);
    let z = FlagsValue::from_flag_name(&d, "Z").unwrap();
    for bits in 0u128..=255 {
        let value = FlagsValue::from_bits_retain(&d, bits);
        assert!(value.contains(z));
        assert!(!value.intersects(z));
    }
    // The zero-bit flag's name resolves, but it is never formatted.
    assert_eq!(z.bits(), 0);
    assert_eq!(to_writer(&d, &v(1)), "ONE");
}

#[test]
fn empty_value_formats_empty() {
    let d = test_flags();
    assert_eq!(to_writer(&d, &FlagsValue::empty()), "");
}

#[test]
fn empty_segment_is_an_error() {
    let d = test_flags();
    assert_eq!(from_text(&d, "A || B").unwrap_err(), ParseError::EmptyFlag);
    assert_eq!(from_text(&d, "| A").unwrap_err(), ParseError::EmptyFlag);
    assert_eq!(from_text(&d, "A |").unwrap_err(), ParseError::EmptyFlag);
    assert_eq!(from_text(&d, "|").unwrap_err(), ParseError::EmptyFlag);
}

#[test]
fn blank_input_is_empty() {
    let d = test_flags();
    assert_eq!(from_text(&d, " \t\r\n ").unwrap(), FlagsValue::empty());
    assert_eq!(from_text_strict(&d, "   ").unwrap(), FlagsValue::empty());
}

#[test]
fn from_flag_name_empty_never_matches() {
    let d = test_flags();
    assert!(FlagsValue::from_flag_name(&d, "").is_none());
    assert!(FlagsValue::from_flag_name(&d, " A").is_none());
}

#[test]
fn first_match_wins_among_aliases() {
    // Several names may alias the same bits; lookup takes declared order.
    let d = FlagSetDescriptor::new(
        vec![FlagDef::new("A", 1), FlagDef::new("B", 1), FlagDef::new("C", 1)],
        0,
        8,
    );
    assert_eq!(FlagsValue::from_flag_name(&d, "B").unwrap().bits(), 1);
    // Formatting always uses the first alias that explains the bit.
    assert_eq!(to_writer(&d, &v(1)), "A");
}

#[test]
fn hex_bound_is_the_width() {
    let d = test_flags();
    assert_eq!(from_text(&d, "0xff").unwrap().bits(), 0xFF);
    assert_eq!(from_text(&d, "0x100").unwrap_err(), ParseError::InvalidHexFlag);
    assert_eq!(from_text(&d, "0x").unwrap_err(), ParseError::InvalidHexFlag);
    assert_eq!(from_text(&d, "0x00000001").unwrap().bits(), 1);
}

#[test]
fn widest_primitive_works() {
    let d = FlagSetDescriptor::new(
        vec![FlagDef::new("LOW", 1), FlagDef::new("HIGH", 1 << 127)],
        0,
        128,
    );
    assert_eq!(FlagsValue::all_bits(&d).bits(), u128::MAX);
    assert_eq!(FlagsValue::all(&d).bits(), 1 | (1 << 127));
    let top = from_text(&d, "0xffffffffffffffffffffffffffffffff").unwrap();
    assert_eq!(top.bits(), u128::MAX);
    assert_eq!(to_writer(&d, &v(1 | (1 << 127))), "LOW | HIGH");
    assert_eq!(from_text(&d, "LOW | HIGH").unwrap().bits(), 1 | (1 << 127));
}

#[test]
fn not_keeps_unknown_bits_complement_drops_them() {
    let d = test_flags();
    let value = v(1).union(v(1 << 6));
    // `not` flips every bit of the width.
    assert_eq!(value.not(&d).bits(), 0xFF ^ 0b0100_0001);
    // `complement` flips and then truncates to known bits.
    assert_eq!(value.complement(&d).bits(), 0b0000_0110);
}

#[test]
fn difference_does_not_truncate_its_argument() {
    let d = test_flags();
    let unknown = FlagsValue::from_bits_retain(&d, 1 << 6);
    let value = v(1).union(unknown);
    // Removing a value that carries unknown bits removes those bits too.
    assert_eq!(value.difference(unknown), v(1));
    // An AND with the truncating complement would have left the unknown bit.
    assert_eq!(value.intersection(unknown.complement(&d)), v(1));
}

#[test]
fn is_all_allows_extra_unknown_bits() {
    let d = test_flags();
    let known = FlagsValue::all(&d);
    let more = known.union(FlagsValue::from_bits_retain(&d, 1 << 7));
    assert!(known.is_all(&d));
    assert!(more.is_all(&d));
    assert!(!known.contains_unknown_bits(&d));
    assert!(more.contains_unknown_bits(&d));
    assert!(!v(1).is_all(&d));
}

#[test]
fn empty_descriptor_has_no_known_bits() {
    let d = FlagSetDescriptor::new(vec![], 0, 8);
    assert_eq!(FlagsValue::all(&d).bits(), 0);
    assert!(FlagsValue::from_bits(&d, 1).is_none());
    assert_eq!(FlagsValue::from_bits(&d, 0), Some(FlagsValue::empty()));
    assert_eq!(to_writer(&d, &FlagsValue::from_bits_retain(&d, 0x55)), "0x55");
}
