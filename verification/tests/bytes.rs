use cbor_diag::float::FloatTable;
use cbor_diag::parse::diag::parse_diag;
use cbor_diag::parse::hex::parse_hex;
use cbor_diag::sink::render_plain;
use cbor_diag::{ByteString, DataItem, IntegerWidth};

fn bytes(data: &[u8], bitwidth: IntegerWidth) -> DataItem {
    DataItem::ByteString(ByteString { data: data.to_vec(), bitwidth })
}

fn diag(item: &DataItem) -> String {
    render_plain(&item.compact_diag(&FloatTable::new()))
}

fn hex(item: &DataItem) -> String {
    item.to_hex(&FloatTable::new())
}

fn read_diag(text: &str) -> DataItem {
    parse_diag(text, &FloatTable::new()).unwrap()
}

fn read_hex(text: &str) -> DataItem {
    parse_hex(text).unwrap()
}

#[test]
fn diag_empty() {
    assert_eq!(diag(&bytes(b"", IntegerWidth::Unknown)), "h''");
    assert_eq!(read_diag("h''"), bytes(b"", IntegerWidth::Unknown));
}

#[test]
fn diag_hello() {
    assert_eq!(diag(&bytes(b"hello", IntegerWidth::Unknown)), "h'68656c6c6f'");
    assert_eq!(read_diag("h'68656c6c6f'"), bytes(b"hello", IntegerWidth::Unknown));
}

#[test]
fn diag_alpha() {
    assert_eq!(
        diag(&bytes(b"abcdefghijklmnopqrstuvwxyz", IntegerWidth::Unknown)),
        "h'6162636465666768696a6b6c6d6e6f707172737475767778797a'"
    );
    assert_eq!(
        read_diag("h'6162636465666768696a6b6c6d6e6f707172737475767778797a'"),
        bytes(b"abcdefghijklmnopqrstuvwxyz", IntegerWidth::Unknown)
    );
}

#[test]
fn tiny_empty() {
    assert_eq!(hex(&bytes(b"", IntegerWidth::Zero)), "40  # bytes(0)\n    # \"\"\n");
    assert_eq!(read_hex("40  # bytes(0)\n    # \"\"\n"), bytes(b"", IntegerWidth::Zero));
}

#[test]
fn tiny_hello() {
    assert_eq!(
        hex(&bytes(b"hello", IntegerWidth::Zero)),
        "45            # bytes(5)\n   68656c6c6f # \"hello\"\n"
    );
    assert_eq!(
        read_hex("45            # bytes(5)\n   68656c6c6f # \"hello\"\n"),
        bytes(b"hello", IntegerWidth::Zero)
    );
}

#[test]
fn u8_empty() {
    assert_eq!(hex(&bytes(b"", IntegerWidth::Eight)), "58 00 # bytes(0)\n      # \"\"\n");
    assert_eq!(read_hex("58 00 # bytes(0)\n      # \"\"\n"), bytes(b"", IntegerWidth::Eight));
}

#[test]
fn u8_hello() {
    assert_eq!(
        hex(&bytes(b"hello", IntegerWidth::Eight)),
        "58 05         # bytes(5)\n   68656c6c6f # \"hello\"\n"
    );
    assert_eq!(
        read_hex("58 05         # bytes(5)\n   68656c6c6f # \"hello\"\n"),
        bytes(b"hello", IntegerWidth::Eight)
    );
}

#[test]
fn u8_alpha() {
    assert_eq!(
        hex(&bytes(b"abcdefghijklmnopqrstuvwxyz", IntegerWidth::Eight)),
        "58 1a                               # bytes(26)\n   6162636465666768696a6b6c6d6e6f70 # \"abcdefghijklmnop\"\n   7172737475767778797a             # \"qrstuvwxyz\"\n"
    );
    assert_eq!(
        read_hex(&hex(&bytes(b"abcdefghijklmnopqrstuvwxyz", IntegerWidth::Eight))),
        bytes(b"abcdefghijklmnopqrstuvwxyz", IntegerWidth::Eight)
    );
}

#[test]
fn unknown_width_takes_the_narrowest() {
    assert_eq!(
        hex(&bytes(b"hello", IntegerWidth::Unknown)),
        "45            # bytes(5)\n   68656c6c6f # \"hello\"\n"
    );
    let long = vec![0u8; 255];
    assert!(hex(&bytes(&long, IntegerWidth::Unknown)).starts_with("58 ff "));
    let longer = vec![0u8; 256];
    assert!(hex(&bytes(&longer, IntegerWidth::Unknown)).starts_with("59 0100 "));
}

#[test]
fn bytes_in_comments_are_escaped() {
    assert_eq!(
        hex(&bytes(b"\t\r\n'\"\\ ~\x00\x7f\xff", IntegerWidth::Zero)),
        "4b                        # bytes(11)\n   090d0a27225c207e007fff # \"\\t\\r\\n\\'\\\"\\\\ ~\\x00\\x7f\\xff\"\n"
    );
}
