use cbor_diag::error::Error;
use cbor_diag::parse::hex::{hex_to_bytes, parse_hex};
use cbor_diag::{DataItem, IntegerWidth};

#[test]
fn digits_pair_up_across_white_space() {
    assert_eq!(hex_to_bytes("1818"), Some(vec![0x18, 0x18]));
    assert_eq!(hex_to_bytes("18 18"), Some(vec![0x18, 0x18]));
    assert_eq!(hex_to_bytes(" 1\t8\r\n1\x0c8 "), Some(vec![0x18, 0x18]));
    assert_eq!(hex_to_bytes("aBcDeF09"), Some(vec![0xab, 0xcd, 0xef, 0x09]));
    assert_eq!(hex_to_bytes(""), Some(vec![]));
}

#[test]
fn comments_run_to_the_end_of_the_line() {
    assert_eq!(hex_to_bytes("18 # unsigned\n18"), Some(vec![0x18, 0x18]));
    assert_eq!(hex_to_bytes("18 # 99 zz # more\n18 # at the end"), Some(vec![0x18, 0x18]));
    assert_eq!(hex_to_bytes("#\n#\n"), Some(vec![]));
}

#[test]
fn what_is_no_hexadecimal_text() {
    assert_eq!(hex_to_bytes("1"), None);
    assert_eq!(hex_to_bytes("181"), None);
    assert_eq!(hex_to_bytes("1g"), None);
    assert_eq!(hex_to_bytes("0x18"), None);
    assert_eq!(hex_to_bytes("18,18"), None);
    assert_eq!(parse_hex("1"), Err(Error::Syntax));
    assert_eq!(parse_hex("zz"), Err(Error::Syntax));
}

#[test]
fn the_annotated_dump_reads_back() {
    let item = DataItem::Array {
        data: vec![
            DataItem::Integer { value: 24, bitwidth: IntegerWidth::Eight },
            DataItem::ByteString(cbor_diag::ByteString {
                data: b"hello".to_vec(),
                bitwidth: IntegerWidth::Zero,
            }),
        ],
        bitwidth: None,
    };
    let dump = item.to_hex(&cbor_diag::float::FloatTable::new());
    assert_eq!(
        dump,
        "9f # array(*)\n   18 18 # unsigned(24)\n   45            # bytes(5)\n      68656c6c6f # \"hello\"\n   ff # break\n"
    );
    assert_eq!(parse_hex(&dump), Ok(item));
    assert_eq!(parse_hex("18"), Err(Error::Truncated));
    assert_eq!(parse_hex("00 00"), Err(Error::TrailingInput));
    assert_eq!(parse_hex("ff"), Err(Error::Malformed));
}
