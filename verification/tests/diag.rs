use cbor_diag::encode::diag::is_trivial;
use cbor_diag::float::FloatTable;
use cbor_diag::sink::{render_ansi, render_plain};
use cbor_diag::{ByteString, DataItem, IntegerWidth, Simple, Tag, TextString};

fn compact(item: &DataItem) -> String {
    render_plain(&item.compact_diag(&FloatTable::new()))
}

fn pretty(item: &DataItem) -> String {
    render_plain(&item.pretty_diag(&FloatTable::new()))
}

fn uint(value: u64) -> DataItem {
    DataItem::Integer { value, bitwidth: IntegerWidth::Zero }
}

fn bytes(data: &[u8]) -> DataItem {
    DataItem::ByteString(ByteString { data: data.to_vec(), bitwidth: IntegerWidth::Unknown })
}

fn text(data: &str) -> DataItem {
    DataItem::TextString(TextString { data: data.to_string(), bitwidth: IntegerWidth::Unknown })
}

#[test]
fn integers_with_their_widths() {
    assert_eq!(compact(&uint(0)), "0");
    assert_eq!(compact(&uint(23)), "23");
    assert_eq!(compact(&DataItem::Integer { value: 24, bitwidth: IntegerWidth::Eight }), "24_0");
    assert_eq!(compact(&DataItem::Integer { value: 24, bitwidth: IntegerWidth::Sixteen }), "24_1");
    assert_eq!(compact(&DataItem::Integer { value: 24, bitwidth: IntegerWidth::ThirtyTwo }), "24_2");
    assert_eq!(compact(&DataItem::Integer { value: 24, bitwidth: IntegerWidth::SixtyFour }), "24_3");
    assert_eq!(
        compact(&DataItem::Integer { value: u64::MAX, bitwidth: IntegerWidth::Unknown }),
        "18446744073709551615"
    );
}

#[test]
fn negatives_reach_below_the_signed_range() {
    assert_eq!(compact(&DataItem::Negative { value: 0, bitwidth: IntegerWidth::Zero }), "-1");
    assert_eq!(compact(&DataItem::Negative { value: 23, bitwidth: IntegerWidth::Zero }), "-24");
    assert_eq!(compact(&DataItem::Negative { value: 24, bitwidth: IntegerWidth::SixtyFour }), "-25_3");
    assert_eq!(
        compact(&DataItem::Negative { value: u64::MAX, bitwidth: IntegerWidth::SixtyFour }),
        "-18446744073709551616_3"
    );
}

#[test]
fn byte_strings_in_base_sixteen() {
    assert_eq!(compact(&bytes(b"")), "h''");
    assert_eq!(compact(&bytes(b"hello")), "h'68656c6c6f'");
    assert_eq!(
        compact(&bytes(b"abcdefghijklmnopqrstuvwxyz")),
        "h'6162636465666768696a6b6c6d6e6f707172737475767778797a'"
    );
}

#[test]
fn simple_values_by_name_or_number() {
    assert_eq!(compact(&DataItem::Simple(Simple(20))), "false");
    assert_eq!(compact(&DataItem::Simple(Simple(21))), "true");
    assert_eq!(compact(&DataItem::Simple(Simple(22))), "null");
    assert_eq!(compact(&DataItem::Simple(Simple(23))), "undefined");
    assert_eq!(compact(&DataItem::Simple(Simple(19))), "simple(19)");
    assert_eq!(compact(&DataItem::Simple(Simple(255))), "simple(255)");
}

#[test]
fn text_strings_escape_quote_and_backslash() {
    assert_eq!(compact(&text("hello")), "\"hello\"");
    assert_eq!(compact(&text("a\"b\\c")), "\"a\\\"b\\\\c\"");
    assert_eq!(compact(&text("line\nbreak")), "\"line\nbreak\"");
}

#[test]
fn base_tags_switch_the_encoding_below_them_only() {
    let tagged = |tag: u64, value: DataItem| DataItem::Tag {
        tag: Tag(tag),
        bitwidth: IntegerWidth::Zero,
        value: Box::new(value),
    };
    let array = DataItem::Array {
        data: vec![
            tagged(21, bytes(&[0xfb, 0xff])),
            tagged(22, bytes(&[0xfb, 0xff])),
            tagged(23, tagged(22, bytes(b"hello"))),
            tagged(22, tagged(23, bytes(b"hello"))),
            tagged(22, tagged(1, text("hello"))),
            bytes(&[0xfb, 0xff]),
        ],
        bitwidth: Some(IntegerWidth::Zero),
    };
    assert_eq!(
        compact(&array),
        "[21(b64'-_8'), 22(b64'+/8'), 23(22(b64'aGVsbG8')), 22(23(h'68656c6c6f')), 22(1(\"hello\")), h'fbff']"
    );
}

#[test]
fn containers_in_both_layouts() {
    let array = DataItem::Array {
        data: vec![uint(1), uint(2), uint(3)],
        bitwidth: Some(IntegerWidth::Zero),
    };
    assert_eq!(compact(&array), "[1, 2, 3]");
    assert_eq!(pretty(&array), "[1, 2, 3]");
    let open = DataItem::Array { data: vec![uint(1), uint(2)], bitwidth: None };
    assert_eq!(compact(&open), "[_1, 2]");
    assert_eq!(pretty(&open), "[_ 1, 2]");
    let map = DataItem::Mapping {
        data: vec![(uint(1), text("a")), (text("b"), array)],
        bitwidth: Some(IntegerWidth::Zero),
    };
    assert_eq!(compact(&map), "{1:\"a\", \"b\":[1, 2, 3]}");
    assert_eq!(pretty(&map), "{1: \"a\", \"b\": [1, 2, 3]}");
    let chunks = DataItem::IndefiniteTextString(vec![
        TextString { data: "a".to_string(), bitwidth: IntegerWidth::Zero },
        TextString { data: "b".to_string(), bitwidth: IntegerWidth::Zero },
    ]);
    assert_eq!(compact(&chunks), "(_\"a\", \"b\")");
    assert_eq!(pretty(&chunks), "(_ \"a\", \"b\")");
    let empty = DataItem::Array { data: vec![], bitwidth: Some(IntegerWidth::Zero) };
    assert_eq!(pretty(&empty), "[]");
    assert_eq!(pretty(&DataItem::Mapping { data: vec![], bitwidth: None }), "{_ }");
}

#[test]
fn long_containers_take_one_line_for_each_element() {
    let inner = DataItem::Array {
        data: vec![text("0123456789012345678901234567890123456789"), text("0123456789abcdef")],
        bitwidth: Some(IntegerWidth::Zero),
    };
    assert!(!is_trivial(&inner, &FloatTable::new()));
    let outer = DataItem::Mapping {
        data: vec![(uint(1), inner)],
        bitwidth: None,
    };
    assert_eq!(
        pretty(&outer),
        "{_\n    1: [\n        \"0123456789012345678901234567890123456789\",\n        \"0123456789abcdef\",\n    ],\n}"
    );
    assert_eq!(
        compact(&outer),
        "{_1:[\"0123456789012345678901234567890123456789\", \"0123456789abcdef\"]}"
    );
}

#[test]
fn styles_of_the_notation() {
    let item = DataItem::Tag {
        tag: Tag(1),
        bitwidth: IntegerWidth::Eight,
        value: Box::new(DataItem::Array {
            data: vec![DataItem::Simple(Simple(20)), bytes(&[1])],
            bitwidth: Some(IntegerWidth::Zero),
        }),
    };
    let spans = item.compact_diag(&FloatTable::new());
    assert_eq!(
        render_ansi(&spans),
        "\x1b[36m1\x1b[2m_0\x1b[22m(\x1b[39;1m[\x1b[32;22mfalse\x1b[0m, \x1b[33;2mh'\x1b[22m01\x1b[2m'\x1b[39;1m]\x1b[36;22m)\x1b[0m"
    );
}
