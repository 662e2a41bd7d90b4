use dfsdisc::manifest::{is_mos_text, looks_like_basic, FileKind};
use dfsdisc::support::{
    u16_from_le, ArrayFromMinSlice, AsciiName, AsciiPrintingChar, AsciiPrintingCharError,
    CopyFromCommonSliceExt, SliceMinSizeError, BCDError, BCD,
};

#[test]
fn slice_big_enough() {
    let src: [u8; 3] = [1, 2, 3];
    let dst = [1u8, 2];
    assert_eq!(Ok(&dst), src[..2].as_min_slice());
}

#[test]
fn slice_exact_size() {
    let src: [u8; 3] = [1, 2, 3];
    assert_eq!(Ok(&src), src[..].as_min_slice());
}

#[test]
fn slice_too_small() {
    let src: [u8; 3] = [1, 2, 3];
    let got: Result<&[u8; 4], _> = src[..].as_min_slice();
    assert_eq!(Err(SliceMinSizeError), got);
}

#[test]
fn copy_from_common_slice() {
    let full1 = b"01234567";
    let full2 = b"ABCDEFGH";

    let case = |r1: ::std::ops::Range<usize>, r2: ::std::ops::Range<usize>, result: &'static [u8]| {
        let mut buf = [0u8; 8];
        buf.copy_from_slice(full1);
        buf[r1].copy_from_common_slice(&full2[r2]);
        assert_eq!(buf, result);
    };

    case(0..4, 0..4, b"ABCD4567");
    case(2..6, 1..5, b"01BCDE67");
    case(4..8, 0..3, b"0123ABC7");
    case(0..1, 0..8, b"A1234567");
}

#[test]
fn bcd_from_u8_success() {
    let inputs = [5u8, 9u8, 10u8, 25u8, 99u8];
    let outputs = [
        BCD::from_hex(0x05u8).unwrap(),
        BCD::from_hex(0x09u8).unwrap(),
        BCD::from_hex(0x10u8).unwrap(),
        BCD::from_hex(0x25u8).unwrap(),
        BCD::from_hex(0x99u8).unwrap(),
    ];
    for (input, output) in inputs.iter().copied().zip(outputs.iter().copied()) {
        assert_eq!(Ok(output), BCD::try_new(input));
    }
}

#[test]
fn bcd_from_u8_failure() {
    let inputs = [100u8, 255u8];

    for input in inputs.iter().copied() {
        assert_eq!(Err(BCDError::IntValueTooLarge), BCD::try_new(input));
    }
}

#[test]
fn bcd_from_hex_success() {
    let op = |input, output| assert_eq!(Ok(output), BCD::from_hex(input).map(|bcd| bcd.to_hex()));

    op(0x58u8, 0x58);
    op(0x09u8, 0x09);
    op(0x70u8, 0x70);
}

#[test]
fn bcd_from_hex_failure() {
    let op = |input| assert_eq!(Err(BCDError::InvalidHexValue), BCD::from_hex(input));

    op(0x0a);
    op(0xa0);
    op(255);
}

#[test]
fn u16_from_le_success() {
    let op = |input: [u8; 2], output: u16| assert_eq!(output, u16_from_le(&input));

    op([0, 0], 0);
    op([255, 255], 65535);
    op([0x55, 0xaa], 0xaa55);
}

#[test]
fn ascii_printing_char() {
    for i in 32..127 {
        let ch = AsciiPrintingChar::from(i as u8);
        assert!(ch.is_ok());
        let ch = ch.unwrap();
        assert_eq!(i as u8, ch.as_byte());
    }

    for i in (0..32).chain(127..256) {
        let ch = AsciiPrintingChar::from(i as u8);
        assert!(ch.is_err());
    }
}

#[test]
fn bcd_boundary_values() {
    let c99 = BCD::try_new(99).unwrap();
    assert_eq!(99, c99.into_u8());
    assert_eq!(0x99, c99.to_hex());
    assert_eq!(Err(BCDError::IntValueTooLarge), BCD::try_new(100));
    assert_eq!(Err(BCDError::InvalidHexValue), BCD::from_hex(0x9a));
    assert_eq!(Err(BCDError::InvalidHexValue), BCD::from_hex(0xa0));
    assert_eq!(42, BCD::from_hex(0x42).unwrap().into_u8());
    assert_eq!(0, BCD::zero().into_u8());
}

#[test]
fn bcd_decimal_round_trip() {
    for d in 0u8..100 {
        assert_eq!(d, BCD::try_new(d).unwrap().into_u8());
    }
    assert_eq!(0x37, BCD::try_new(37).unwrap().to_hex());
}

#[test]
fn printing_char_errors() {
    assert_eq!(Err(AsciiPrintingCharError::AsciiConversionError), AsciiPrintingChar::from(0x80));
    assert_eq!(Err(AsciiPrintingCharError::NonprintingChar), AsciiPrintingChar::from(0x1f));
    assert_eq!(Err(AsciiPrintingCharError::NonprintingChar), AsciiPrintingChar::from(0x7f));
    assert_eq!(b' ', AsciiPrintingChar::from(b' ').unwrap().as_byte());
    assert_eq!('~', AsciiPrintingChar::from(b'~').unwrap().as_char());
}

#[test]
fn printing_char_from_str() {
    assert_eq!(b'A', AsciiPrintingChar::try_from_str("A").unwrap().as_byte());
    assert_eq!(Err(AsciiPrintingCharError::TooManyChars), AsciiPrintingChar::try_from_str("AB"));
    assert_eq!(Err(AsciiPrintingCharError::TooManyChars), AsciiPrintingChar::try_from_str(""));
    assert_eq!(Err(AsciiPrintingCharError::NonprintingChar), AsciiPrintingChar::try_from_str("\n"));
    assert_eq!(b'$', AsciiPrintingChar::dollar().as_byte());
}

#[test]
fn ascii_name_validation() {
    let name = AsciiName::<7>::try_from(b"HELLO").unwrap();
    assert_eq!(b"HELLO", name.as_bytes());
    assert_eq!("HELLO", name.as_ascii_str());
    assert_eq!(5, name.len());
    assert_eq!(7, AsciiName::<7>::try_from(b"ABCDEFGH").unwrap_err().position());
    assert_eq!(2, AsciiName::<7>::try_from(b"AB\x01CD").unwrap_err().position());
    assert_eq!(0, AsciiName::<12>::try_from(b"\xffABC").unwrap_err().position());
    assert_eq!(0, AsciiName::<12>::empty().len());
    assert_eq!(b"HELLO", name.clone().as_bytes());
}

#[test]
fn content_kinds() {
    assert!(is_mos_text(b"HELLO\rWORLD\r"));
    assert!(is_mos_text(b""));
    assert!(!is_mos_text(b"HELLO WORLD"));
    assert!(!is_mos_text(b"\x00"));
    assert!(looks_like_basic(b"\x0d\x00\x0a"));
    assert!(!looks_like_basic(b"\x0d"));
    assert!(!looks_like_basic(b"\x0d\x01"));

    assert_eq!(FileKind::Basic, FileKind::classify(0x1_801f, b"\x0d\x00\x0a"));
    assert_eq!(FileKind::Basic, FileKind::classify(0x8023, b"\x0d\x00"));
    assert_eq!(FileKind::Data, FileKind::classify(0x801f, b"\x0d\x01"));
    assert_eq!(FileKind::Text, FileKind::classify(0xffff, b"*RUN\r"));
    assert_eq!(FileKind::Data, FileKind::classify(0xffff, b"\x01"));
    assert_eq!(FileKind::Code, FileKind::classify(0x3_1900, b"\x01"));
    assert_eq!(FileKind::Code, FileKind::classify(0x900, b""));
    assert_eq!(FileKind::Data, FileKind::classify(0x8ff, b""));
    assert_eq!(FileKind::Data, FileKind::classify(0x8000, b""));
    assert_eq!("basic", FileKind::Basic.as_str());
    assert_eq!("text", FileKind::Text.as_str());
    assert_eq!("code", FileKind::Code.as_str());
    assert_eq!("data", FileKind::Data.as_str());
}
