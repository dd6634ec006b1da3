use cbor_diag::error::Error;
use cbor_diag::parse::bytes::{parse_bytes, parse_bytes_partial};
use cbor_diag::{ByteString, DataItem, FloatWidth, IntegerWidth, Simple, Tag, TextString};

fn hex(text: &str) -> Vec<u8> {
    let digits: Vec<u8> = text
        .bytes()
        .filter(|b| !b.is_ascii_whitespace())
        .map(|b| (b as char).to_digit(16).unwrap() as u8)
        .collect();
    digits.chunks(2).map(|pair| pair[0] * 16 + pair[1]).collect()
}

fn round_trip(text: &str, expected: DataItem) {
    let bytes = hex(text);
    let item = parse_bytes(&bytes).unwrap();
    assert_eq!(item, expected);
    assert_eq!(item.to_bytes(), bytes);
}

#[test]
fn small_integer_decodes_and_encodes() {
    round_trip("17", DataItem::Integer { value: 23, bitwidth: IntegerWidth::Zero });
}

#[test]
fn one_byte_integer_decodes_and_encodes() {
    round_trip("18 18", DataItem::Integer { value: 24, bitwidth: IntegerWidth::Eight });
}

#[test]
fn negative_integer_decodes_and_encodes() {
    round_trip("37", DataItem::Negative { value: 23, bitwidth: IntegerWidth::Zero });
}

#[test]
fn byte_string_decodes_and_encodes() {
    round_trip(
        "45 68 65 6c 6c 6f",
        DataItem::ByteString(ByteString { data: b"hello".to_vec(), bitwidth: IntegerWidth::Zero }),
    );
}

#[test]
fn empty_byte_string_decodes_and_encodes() {
    round_trip(
        "40",
        DataItem::ByteString(ByteString { data: vec![], bitwidth: IntegerWidth::Zero }),
    );
}

#[test]
fn false_decodes_and_encodes() {
    round_trip("f4", DataItem::Simple(Simple(20)));
}

#[test]
fn widths_are_kept_as_encoded() {
    round_trip("19 0005", DataItem::Integer { value: 5, bitwidth: IntegerWidth::Sixteen });
    round_trip("1a 00000005", DataItem::Integer { value: 5, bitwidth: IntegerWidth::ThirtyTwo });
    round_trip(
        "1b ffffffffffffffff",
        DataItem::Integer { value: u64::MAX, bitwidth: IntegerWidth::SixtyFour },
    );
    round_trip(
        "3b ffffffffffffffff",
        DataItem::Negative { value: u64::MAX, bitwidth: IntegerWidth::SixtyFour },
    );
    round_trip(
        "58 02 cafe",
        DataItem::ByteString(ByteString { data: vec![0xca, 0xfe], bitwidth: IntegerWidth::Eight }),
    );
}

#[test]
fn text_strings_are_utf8() {
    round_trip(
        "63 e6b0b4",
        DataItem::TextString(TextString { data: "水".to_string(), bitwidth: IntegerWidth::Zero }),
    );
    assert_eq!(parse_bytes(&hex("62 c328")), Err(Error::InvalidUtf8));
    assert_eq!(parse_bytes(&hex("63 e6b0")), Err(Error::Truncated));
}

#[test]
fn containers_and_tags() {
    let one = DataItem::Integer { value: 1, bitwidth: IntegerWidth::Zero };
    let two = DataItem::Integer { value: 2, bitwidth: IntegerWidth::Zero };
    round_trip(
        "82 01 02",
        DataItem::Array {
            data: vec![
                DataItem::Integer { value: 1, bitwidth: IntegerWidth::Zero },
                DataItem::Integer { value: 2, bitwidth: IntegerWidth::Zero },
            ],
            bitwidth: Some(IntegerWidth::Zero),
        },
    );
    round_trip(
        "9f 01 02 ff",
        DataItem::Array {
            data: vec![
                DataItem::Integer { value: 1, bitwidth: IntegerWidth::Zero },
                DataItem::Integer { value: 2, bitwidth: IntegerWidth::Zero },
            ],
            bitwidth: None,
        },
    );
    round_trip(
        "b8 01 01 02",
        DataItem::Mapping { data: vec![(one, two)], bitwidth: Some(IntegerWidth::Eight) },
    );
    round_trip(
        "bf 61 61 9f ff ff",
        DataItem::Mapping {
            data: vec![(
                DataItem::TextString(TextString {
                    data: "a".to_string(),
                    bitwidth: IntegerWidth::Zero,
                }),
                DataItem::Array { data: vec![], bitwidth: None },
            )],
            bitwidth: None,
        },
    );
    round_trip(
        "d8 20 c1 00",
        DataItem::Tag {
            tag: Tag(32),
            bitwidth: IntegerWidth::Eight,
            value: Box::new(DataItem::Tag {
                tag: Tag(1),
                bitwidth: IntegerWidth::Zero,
                value: Box::new(DataItem::Integer { value: 0, bitwidth: IntegerWidth::Zero }),
            }),
        },
    );
    round_trip(
        "5f 41 01 58 01 02 40 ff",
        DataItem::IndefiniteByteString(vec![
            ByteString { data: vec![1], bitwidth: IntegerWidth::Zero },
            ByteString { data: vec![2], bitwidth: IntegerWidth::Eight },
            ByteString { data: vec![], bitwidth: IntegerWidth::Zero },
        ]),
    );
    round_trip(
        "7f 61 61 60 ff",
        DataItem::IndefiniteTextString(vec![
            TextString { data: "a".to_string(), bitwidth: IntegerWidth::Zero },
            TextString { data: "".to_string(), bitwidth: IntegerWidth::Zero },
        ]),
    );
}

#[test]
fn floats_keep_their_precision() {
    round_trip("f9 3c00", DataItem::Float { value: 1.0f64.to_bits(), bitwidth: FloatWidth::Sixteen });
    round_trip("f9 c400", DataItem::Float { value: (-4.0f64).to_bits(), bitwidth: FloatWidth::Sixteen });
    round_trip(
        "f9 0001",
        DataItem::Float { value: 5.960464477539063e-8f64.to_bits(), bitwidth: FloatWidth::Sixteen },
    );
    round_trip(
        "f9 03ff",
        DataItem::Float { value: 0.00006097555160522461f64.to_bits(), bitwidth: FloatWidth::Sixteen },
    );
    round_trip("f9 7bff", DataItem::Float { value: 65504.0f64.to_bits(), bitwidth: FloatWidth::Sixteen });
    round_trip("f9 8000", DataItem::Float { value: (-0.0f64).to_bits(), bitwidth: FloatWidth::Sixteen });
    round_trip(
        "f9 7c00",
        DataItem::Float { value: f64::INFINITY.to_bits(), bitwidth: FloatWidth::Sixteen },
    );
    round_trip(
        "f9 7e00",
        DataItem::Float { value: 0x7ff8_0000_0000_0000, bitwidth: FloatWidth::Sixteen },
    );
    round_trip(
        "fa 47c35000",
        DataItem::Float { value: 100000.0f64.to_bits(), bitwidth: FloatWidth::ThirtyTwo },
    );
    round_trip(
        "fa 00000001",
        DataItem::Float { value: (f32::from_bits(1) as f64).to_bits(), bitwidth: FloatWidth::ThirtyTwo },
    );
    round_trip(
        "fa 7f7fffff",
        DataItem::Float { value: (f32::MAX as f64).to_bits(), bitwidth: FloatWidth::ThirtyTwo },
    );
    round_trip(
        "fb 3ff199999999999a",
        DataItem::Float { value: 1.1f64.to_bits(), bitwidth: FloatWidth::SixtyFour },
    );
}

#[test]
fn every_half_widens_as_the_hardware_does() {
    for bits in 0..=u16::MAX {
        let bytes = [0xf9, (bits >> 8) as u8, bits as u8];
        let item = parse_bytes(&bytes).unwrap();
        let exponent = (bits >> 10) & 0x1f;
        let fraction = bits & 0x3ff;
        if exponent != 0x1f {
            let sign = if bits & 0x8000 != 0 { -1.0 } else { 1.0 };
            let value = if exponent == 0 {
                sign * (fraction as f64) * 2f64.powi(-24)
            } else {
                sign * (1.0 + fraction as f64 / 1024.0) * 2f64.powi(exponent as i32 - 15)
            };
            assert_eq!(
                item,
                DataItem::Float { value: value.to_bits(), bitwidth: FloatWidth::Sixteen }
            );
            assert_eq!(item.to_bytes(), bytes);
        } else if fraction == 0 {
            assert_eq!(item.to_bytes(), bytes);
        } else {
            assert_eq!(
                item,
                DataItem::Float { value: 0x7ff8_0000_0000_0000, bitwidth: FloatWidth::Sixteen }
            );
            assert_eq!(item.to_bytes(), [0xf9, 0x7e, 0x00]);
        }
    }
}

#[test]
fn every_nan_is_read_as_the_quiet_nan() {
    let quiet = 0x7ff8_0000_0000_0000;
    let cases: [(&[u8], FloatWidth, &[u8]); 6] = [
        (&[0xf9, 0x7e, 0x00], FloatWidth::Sixteen, &[0xf9, 0x7e, 0x00]),
        (&[0xf9, 0xfc, 0x01], FloatWidth::Sixteen, &[0xf9, 0x7e, 0x00]),
        (&[0xfa, 0x7f, 0x80, 0x00, 0x01], FloatWidth::ThirtyTwo, &[0xfa, 0x7f, 0xc0, 0x00, 0x00]),
        (&[0xfa, 0xff, 0xc0, 0x00, 0x00], FloatWidth::ThirtyTwo, &[0xfa, 0x7f, 0xc0, 0x00, 0x00]),
        (
            &[0xfb, 0x7f, 0xf0, 0, 0, 0, 0, 0, 0x01],
            FloatWidth::SixtyFour,
            &[0xfb, 0x7f, 0xf8, 0, 0, 0, 0, 0, 0],
        ),
        (
            &[0xfb, 0xff, 0xff, 0xff, 0xff, 0xff, 0xff, 0xff, 0xff],
            FloatWidth::SixtyFour,
            &[0xfb, 0x7f, 0xf8, 0, 0, 0, 0, 0, 0],
        ),
    ];
    for (bytes, bitwidth, again) in cases {
        let item = parse_bytes(bytes).unwrap();
        assert_eq!(item, DataItem::Float { value: quiet, bitwidth });
        assert_eq!(item.to_bytes(), again);
    }
    let nested = parse_bytes(&[0x82, 0xf9, 0x7e, 0x01, 0xa1, 0xf9, 0xfe, 0x00, 0xc1, 0xf9, 0x7c, 0x00])
        .unwrap();
    assert_eq!(
        nested.to_bytes(),
        [0x82, 0xf9, 0x7e, 0x00, 0xa1, 0xf9, 0x7e, 0x00, 0xc1, 0xf9, 0x7c, 0x00]
    );
}

#[test]
fn singles_widen_as_the_hardware_does() {
    for bits in [0u32, 1, 2, 3, 0x7f_ffff, 0x80_0000, 0x80_0001, 0x3f80_0000, 0x7f7f_ffff, 0x8000_0001, 0xc2f6_e979] {
        let bytes = [0xfa, (bits >> 24) as u8, (bits >> 16) as u8, (bits >> 8) as u8, bits as u8];
        let item = parse_bytes(&bytes).unwrap();
        assert_eq!(
            item,
            DataItem::Float {
                value: (f32::from_bits(bits) as f64).to_bits(),
                bitwidth: FloatWidth::ThirtyTwo
            }
        );
        assert_eq!(item.to_bytes(), bytes);
    }
}

#[test]
fn unknown_widths_take_the_narrowest() {
    let bytes = |value: u64| DataItem::Integer { value, bitwidth: IntegerWidth::Unknown }.to_bytes();
    assert_eq!(bytes(0), hex("00"));
    assert_eq!(bytes(23), hex("17"));
    assert_eq!(bytes(24), hex("18 18"));
    assert_eq!(bytes(255), hex("18 ff"));
    assert_eq!(bytes(256), hex("19 0100"));
    assert_eq!(bytes(65535), hex("19 ffff"));
    assert_eq!(bytes(65536), hex("1a 00010000"));
    assert_eq!(bytes(0xffff_ffff), hex("1a ffffffff"));
    assert_eq!(bytes(0x1_0000_0000), hex("1b 0000000100000000"));
    let float = |value: f64| DataItem::Float { value: value.to_bits(), bitwidth: FloatWidth::Unknown }.to_bytes();
    assert_eq!(float(1.5), hex("f9 3e00"));
    assert_eq!(float(100000.0), hex("fa 47c35000"));
    assert_eq!(float(1.1), hex("fb 3ff199999999999a"));
}

#[test]
fn malformed_bytes_are_told_from_truncated_ones() {
    assert_eq!(parse_bytes(&hex("1c")), Err(Error::Malformed));
    assert_eq!(parse_bytes(&hex("1d")), Err(Error::Malformed));
    assert_eq!(parse_bytes(&hex("1e")), Err(Error::Malformed));
    assert_eq!(parse_bytes(&hex("1f")), Err(Error::Malformed));
    assert_eq!(parse_bytes(&hex("ff")), Err(Error::Malformed));
    assert_eq!(parse_bytes(&hex("fc")), Err(Error::Malformed));
    assert_eq!(parse_bytes(&hex("f8 05")), Err(Error::Malformed));
    assert_eq!(parse_bytes(&hex("5f 61 61 ff")), Err(Error::Malformed));
    assert_eq!(parse_bytes(&hex("5f 5f ff ff")), Err(Error::Malformed));
    assert_eq!(parse_bytes(&hex("bf 01 ff")), Err(Error::Malformed));
    assert_eq!(parse_bytes(&hex("82 01 ff")), Err(Error::Malformed));
    assert_eq!(parse_bytes(&hex("")), Err(Error::Truncated));
    assert_eq!(parse_bytes(&hex("18")), Err(Error::Truncated));
    assert_eq!(parse_bytes(&hex("82 01")), Err(Error::Truncated));
    assert_eq!(parse_bytes(&hex("9f 01")), Err(Error::Truncated));
    assert_eq!(parse_bytes(&hex("bf 01")), Err(Error::Truncated));
    assert_eq!(parse_bytes(&hex("1b ffffffffffffff")), Err(Error::Truncated));
    assert_eq!(parse_bytes(&hex("5b ffffffffffffffff 00")), Err(Error::Truncated));
    assert_eq!(parse_bytes(&hex("9b ffffffffffffffff 00")), Err(Error::Truncated));
    assert_eq!(parse_bytes(&hex("00 00")), Err(Error::TrailingInput));
    assert_eq!(parse_bytes(&hex("f8 18")), Ok(DataItem::Simple(Simple(24))));
}

#[test]
fn partial_input_waits_for_the_rest() {
    let bytes = hex("bf 61 61 82 f9 3c00 5f 42 0102 ff 63 e6b0b4 d8 20 1a 00010000 ff");
    for end in 0..bytes.len() {
        assert_eq!(parse_bytes_partial(&bytes[..end]), Ok(None), "at {}", end);
    }
    let (item, used) = parse_bytes_partial(&bytes).unwrap().unwrap();
    assert_eq!(used, bytes.len());
    assert_eq!(item.to_bytes(), bytes);
    let mut more = bytes.clone();
    more.extend_from_slice(&[0x01, 0x02]);
    let (again, used) = parse_bytes_partial(&more).unwrap().unwrap();
    assert_eq!(used, bytes.len());
    assert_eq!(again, item);
}

#[test]
fn partial_input_never_claims_more_than_there_is() {
    let mut state: u32 = 12345;
    for _ in 0..2000 {
        let mut bytes = Vec::new();
        state = state.wrapping_mul(1103515245).wrapping_add(12345);
        let len = (state >> 16) % 12;
        for _ in 0..len {
            state = state.wrapping_mul(1103515245).wrapping_add(12345);
            bytes.push((state >> 16) as u8);
        }
        if let Ok(Some((item, used))) = parse_bytes_partial(&bytes) {
            assert!(used <= bytes.len());
            let again = item.to_bytes();
            assert_eq!(again.len(), used);
            assert_eq!(parse_bytes(&again), Ok(item));
        }
    }
}
