use cbor_diag::error::Error;
use cbor_diag::float::FloatTable;
use cbor_diag::parse::diag::{parse_diag, parse_diag_with};
use cbor_diag::sink::render_plain;
use cbor_diag::{ByteString, DataItem, FloatWidth, IntegerWidth, Simple, Tag, TextString};

fn double(digits: String, width: FloatWidth) -> Option<u64> {
    match width {
        FloatWidth::ThirtyTwo => digits.parse::<f32>().ok().map(|value| (value as f64).to_bits()),
        _ => digits.parse::<f64>().ok().map(f64::to_bits),
    }
}

fn parse(text: &str) -> Result<DataItem, Error> {
    parse_diag_with(text, &mut FloatTable::new(), &double)
}

fn uint(value: u64) -> DataItem {
    DataItem::Integer { value, bitwidth: IntegerWidth::Unknown }
}

fn bytes(data: &[u8]) -> DataItem {
    DataItem::ByteString(ByteString { data: data.to_vec(), bitwidth: IntegerWidth::Unknown })
}

fn text(data: &str) -> DataItem {
    DataItem::TextString(TextString { data: data.to_string(), bitwidth: IntegerWidth::Unknown })
}

#[test]
fn integers_in_every_base() {
    assert_eq!(parse("0"), Ok(uint(0)));
    assert_eq!(parse("23"), Ok(uint(23)));
    assert_eq!(parse("  24 \n"), Ok(uint(24)));
    assert_eq!(parse("0x1f"), Ok(uint(31)));
    assert_eq!(parse("0xFF"), Ok(uint(255)));
    assert_eq!(parse("0o17"), Ok(uint(15)));
    assert_eq!(parse("0b101"), Ok(uint(5)));
    assert_eq!(parse("18446744073709551615"), Ok(uint(u64::MAX)));
    assert_eq!(parse("18446744073709551616"), Err(Error::Syntax));
    assert_eq!(parse("99999999999999999999999999999999999999999999"), Err(Error::Syntax));
    assert_eq!(parse("0x"), Err(Error::Syntax));
    assert_eq!(parse("0b2"), Err(Error::Syntax));
    assert_eq!(parse(""), Err(Error::Syntax));
    assert_eq!(parse("12 13"), Err(Error::Syntax));
}

#[test]
fn widths_of_integers() {
    assert_eq!(parse("24_0"), Ok(DataItem::Integer { value: 24, bitwidth: IntegerWidth::Eight }));
    assert_eq!(parse("24_1"), Ok(DataItem::Integer { value: 24, bitwidth: IntegerWidth::Sixteen }));
    assert_eq!(parse("24_2"), Ok(DataItem::Integer { value: 24, bitwidth: IntegerWidth::ThirtyTwo }));
    assert_eq!(parse("24_3"), Ok(DataItem::Integer { value: 24, bitwidth: IntegerWidth::SixtyFour }));
    assert_eq!(parse("24_4"), Err(Error::Syntax));
    assert_eq!(parse("24_"), Err(Error::Syntax));
    assert_eq!(parse("256_0"), Err(Error::WidthOverflow));
    assert_eq!(parse("65536_1"), Err(Error::WidthOverflow));
    assert_eq!(parse("4294967296_2"), Err(Error::WidthOverflow));
    assert_eq!(parse("255_0"), Ok(DataItem::Integer { value: 255, bitwidth: IntegerWidth::Eight }));
}

#[test]
fn negative_integers() {
    assert_eq!(parse("-1"), Ok(DataItem::Negative { value: 0, bitwidth: IntegerWidth::Unknown }));
    assert_eq!(parse("-25_3"), Ok(DataItem::Negative { value: 24, bitwidth: IntegerWidth::SixtyFour }));
    assert_eq!(
        parse("-18446744073709551616"),
        Ok(DataItem::Negative { value: u64::MAX, bitwidth: IntegerWidth::Unknown })
    );
    assert_eq!(parse("-18446744073709551617"), Err(Error::Syntax));
    assert_eq!(parse("-0"), Err(Error::Syntax));
    assert_eq!(parse("-"), Err(Error::Syntax));
    assert_eq!(parse("-257_0"), Err(Error::WidthOverflow));
    assert_eq!(parse("-256_0"), Ok(DataItem::Negative { value: 255, bitwidth: IntegerWidth::Eight }));
    assert_eq!(parse("-0x10"), Ok(DataItem::Negative { value: 15, bitwidth: IntegerWidth::Unknown }));
}

#[test]
fn floats_are_resolved_from_their_digits() {
    let float = |value: f64, bitwidth: FloatWidth| DataItem::Float { value: value.to_bits(), bitwidth };
    assert_eq!(parse("1.5"), Ok(float(1.5, FloatWidth::Unknown)));
    assert_eq!(parse("1.5_1"), Ok(float(1.5, FloatWidth::Sixteen)));
    assert_eq!(parse("-4.0_1"), Ok(float(-4.0, FloatWidth::Sixteen)));
    assert_eq!(parse("0.1_2"), Ok(float(0.1f32 as f64, FloatWidth::ThirtyTwo)));
    assert_eq!(parse("1e3"), Ok(float(1000.0, FloatWidth::Unknown)));
    assert_eq!(parse("2.5E-3_3"), Ok(float(0.0025, FloatWidth::SixtyFour)));
    assert_eq!(parse("1e+2"), Ok(float(100.0, FloatWidth::Unknown)));
    assert_eq!(parse("1.1_1"), Err(Error::WidthOverflow));
    assert_eq!(parse("1.5_0"), Err(Error::Syntax));
    assert_eq!(parse("1.5_4"), Err(Error::Syntax));
    assert_eq!(parse("1e"), Err(Error::Syntax));
    assert_eq!(parse("NaN"), Ok(DataItem::Float { value: 0x7ff8_0000_0000_0000, bitwidth: FloatWidth::Unknown }));
    assert_eq!(parse("NaN_1"), Ok(DataItem::Float { value: 0x7ff8_0000_0000_0000, bitwidth: FloatWidth::Sixteen }));
    assert_eq!(parse("Infinity_2"), Ok(float(f64::INFINITY, FloatWidth::ThirtyTwo)));
    assert_eq!(parse("-Infinity"), Ok(float(f64::NEG_INFINITY, FloatWidth::Unknown)));
    assert_eq!(parse_diag("1.5", &FloatTable::new()), Err(Error::Syntax));
    let mut table = FloatTable::new();
    assert_eq!(
        parse_diag_with("[1.5, 1.5, 2.5_1]", &mut table, &double),
        Ok(DataItem::Array {
            data: vec![
                float(1.5, FloatWidth::Unknown),
                float(1.5, FloatWidth::Unknown),
                float(2.5, FloatWidth::Sixteen)
            ],
            bitwidth: Some(IntegerWidth::Unknown),
        })
    );
    assert_eq!(table.entries.len(), 2);
    assert_eq!(parse_diag("2.5_1", &table), Ok(float(2.5, FloatWidth::Sixteen)));
    assert_eq!(parse_diag("2.5", &table), Err(Error::Syntax));
}

#[test]
fn text_strings_and_their_escapes() {
    assert_eq!(parse("\"hello\""), Ok(text("hello")));
    assert_eq!(parse("\"\""), Ok(text("")));
    assert_eq!(parse("\"a\\\"b\\\\c\\n\\t\\r\""), Ok(text("a\"b\\c\n\t\r")));
    assert_eq!(parse("\"\\u{e9}\\u{1F600}\""), Ok(text("é😀")));
    assert_eq!(parse("\"line\nbreak é\""), Ok(text("line\nbreak é")));
    assert_eq!(parse("\"open"), Err(Error::Syntax));
    assert_eq!(parse("\"\\x\""), Err(Error::Syntax));
    assert_eq!(parse("\"\\u{}\""), Err(Error::Syntax));
    assert_eq!(parse("\"\\u{d800}\""), Err(Error::Syntax));
    assert_eq!(parse("\"\\u{110000}\""), Err(Error::Syntax));
    assert_eq!(parse("\"\\u{0000041}\""), Err(Error::Syntax));
    assert_eq!(parse("\"\\u{41\""), Err(Error::Syntax));
}

#[test]
fn byte_strings_in_every_base() {
    assert_eq!(parse("h''"), Ok(bytes(b"")));
    assert_eq!(parse("h'68656c6c6f'"), Ok(bytes(b"hello")));
    assert_eq!(parse("h'68 65 6C\n6c 6F'"), Ok(bytes(b"hello")));
    assert_eq!(parse("h'686'"), Err(Error::Syntax));
    assert_eq!(parse("h'6g'"), Err(Error::Syntax));
    assert_eq!(parse("h'68"), Err(Error::Syntax));
    assert_eq!(parse("b64'aGVsbG8'"), Ok(bytes(b"hello")));
    assert_eq!(parse("b64'aGVs bG8'"), Ok(bytes(b"hello")));
    assert_eq!(parse("b64'+/8'"), Ok(bytes(&[0xfb, 0xff])));
    assert_eq!(parse("b64'-_8'"), Ok(bytes(&[0xfb, 0xff])));
    assert_eq!(parse("b64'QQ'"), Ok(bytes(b"A")));
    assert_eq!(parse("b64'QUI'"), Ok(bytes(b"AB")));
    assert_eq!(parse("b64'QUJD'"), Ok(bytes(b"ABC")));
    assert_eq!(parse("b64'Q'"), Err(Error::Syntax));
    assert_eq!(parse("b64'QR'"), Err(Error::Syntax));
    assert_eq!(parse("b64'QQ=='"), Err(Error::Syntax));
    assert_eq!(parse("b32'NBSWY3DP'"), Ok(bytes(b"hello")));
    assert_eq!(parse("b32'MY'"), Ok(bytes(b"f")));
    assert_eq!(parse("b32'MZXQ'"), Ok(bytes(b"fo")));
    assert_eq!(parse("b32'MZXW6'"), Ok(bytes(b"foo")));
    assert_eq!(parse("b32'MZXW6YQ'"), Ok(bytes(b"foob")));
    assert_eq!(parse("b32'MZXW6YTB'"), Ok(bytes(b"fooba")));
    assert_eq!(parse("b32'M'"), Err(Error::Syntax));
    assert_eq!(parse("b32'MZ1'"), Err(Error::Syntax));
    assert_eq!(parse("'hello'"), Ok(bytes(b"hello")));
    assert_eq!(parse("'it\\'s\\n'"), Ok(bytes(b"it's\n")));
    assert_eq!(parse("'é'"), Err(Error::Syntax));
}

#[test]
fn containers_and_tags_in_notation() {
    assert_eq!(parse("[]"), Ok(DataItem::Array { data: vec![], bitwidth: Some(IntegerWidth::Unknown) }));
    assert_eq!(parse("[_ ]"), Ok(DataItem::Array { data: vec![], bitwidth: None }));
    assert_eq!(
        parse("[1, 2,3 , ]"),
        Ok(DataItem::Array { data: vec![uint(1), uint(2), uint(3)], bitwidth: Some(IntegerWidth::Unknown) })
    );
    assert_eq!(parse("[_1,2]"), Ok(DataItem::Array { data: vec![uint(1), uint(2)], bitwidth: None }));
    assert_eq!(
        parse("{1: \"a\", \"b\": [2]}"),
        Ok(DataItem::Mapping {
            data: vec![
                (uint(1), text("a")),
                (text("b"), DataItem::Array { data: vec![uint(2)], bitwidth: Some(IntegerWidth::Unknown) })
            ],
            bitwidth: Some(IntegerWidth::Unknown),
        })
    );
    assert_eq!(
        parse("{_ 1:2,}"),
        Ok(DataItem::Mapping { data: vec![(uint(1), uint(2))], bitwidth: None })
    );
    assert_eq!(
        parse("1(2)"),
        Ok(DataItem::Tag { tag: Tag(1), bitwidth: IntegerWidth::Unknown, value: Box::new(uint(2)) })
    );
    assert_eq!(
        parse("32_1( h'00' )"),
        Ok(DataItem::Tag { tag: Tag(32), bitwidth: IntegerWidth::Sixteen, value: Box::new(bytes(&[0])) })
    );
    assert_eq!(
        parse("(_ \"a\", \"b\")"),
        Ok(DataItem::IndefiniteTextString(vec![
            TextString { data: "a".to_string(), bitwidth: IntegerWidth::Unknown },
            TextString { data: "b".to_string(), bitwidth: IntegerWidth::Unknown },
        ]))
    );
    assert_eq!(
        parse("(_ h'01' 'a' b64'QQ')"),
        Ok(DataItem::IndefiniteByteString(vec![
            ByteString { data: vec![1], bitwidth: IntegerWidth::Unknown },
            ByteString { data: b"a".to_vec(), bitwidth: IntegerWidth::Unknown },
            ByteString { data: b"A".to_vec(), bitwidth: IntegerWidth::Unknown },
        ]))
    );
    assert_eq!(parse("(_)"), Ok(DataItem::IndefiniteByteString(vec![])));
    assert_eq!(parse("[1 2]"), Err(Error::Syntax));
    assert_eq!(parse("[1,"), Err(Error::Syntax));
    assert_eq!(parse("[,]"), Err(Error::Syntax));
    assert_eq!(parse("{1}"), Err(Error::Syntax));
    assert_eq!(parse("{1:}"), Err(Error::Syntax));
    assert_eq!(parse("1(2"), Err(Error::Syntax));
    assert_eq!(parse("(\"a\")"), Err(Error::Syntax));
    assert_eq!(parse("(_ \"a\" h'00')"), Err(Error::Syntax));
    assert_eq!(parse("]"), Err(Error::Syntax));
}

#[test]
fn simple_values_in_notation() {
    assert_eq!(parse("false"), Ok(DataItem::Simple(Simple(20))));
    assert_eq!(parse("true"), Ok(DataItem::Simple(Simple(21))));
    assert_eq!(parse("null"), Ok(DataItem::Simple(Simple(22))));
    assert_eq!(parse("undefined"), Ok(DataItem::Simple(Simple(23))));
    assert_eq!(parse("simple(0)"), Ok(DataItem::Simple(Simple(0))));
    assert_eq!(parse("simple(255)"), Ok(DataItem::Simple(Simple(255))));
    assert_eq!(parse("simple(256)"), Err(Error::Syntax));
    assert_eq!(parse("simple(0x10)"), Err(Error::Syntax));
    assert_eq!(parse("simple(1"), Err(Error::Syntax));
    assert_eq!(parse("falsey"), Err(Error::Syntax));
    assert_eq!(parse("nul"), Err(Error::Syntax));
}

#[test]
fn comments_are_taken_out_first() {
    assert_eq!(parse("[1, # one\n 2] # two"), parse("[1, 2]"));
    assert_eq!(parse("# nothing"), Err(Error::Syntax));
    assert_eq!(parse("\"a#b\"\n"), Err(Error::Syntax));
}

#[test]
fn compact_notation_reads_back() {
    let texts = [
        "[1, 2_0, -3_1, h'00ff', \"a\\\"b\\\\\", false, simple(7), NaN_1, -Infinity_3]",
        "{1:{_\"a\":[_]}, 21(b64'-_8'):22(b64'+/8'), 23(h'fbff'):(_\"a\", \"b\")}",
        "(_h'00', h'')",
        "55799_1(1_3(18446744073709551615_3))",
        "-18446744073709551616_3",
    ];
    for text in texts {
        let item = parse(text).unwrap();
        assert_eq!(render_plain(&item.compact_diag(&FloatTable::new())), text);
    }
}

#[test]
fn what_notation_gives_can_be_encoded() {
    let item = parse("[1, 24_1, -1, h'0102', \"é\", [_ ], {1: false}, 21(h'00'), 1.5_1, NaN_2]")
        .unwrap();
    assert!(item.is_well_formed());
    assert_eq!(
        item.to_bytes(),
        [
            0x8a, 0x01, 0x19, 0x00, 0x18, 0x20, 0x42, 0x01, 0x02, 0x62, 0xc3, 0xa9, 0x9f, 0xff,
            0xa1, 0x01, 0xf4, 0xd5, 0x41, 0x00, 0xf9, 0x3e, 0x00, 0xfa, 0x7f, 0xc0, 0x00, 0x00,
        ]
    );
    assert_eq!(parse("1.1_1"), Err(Error::WidthOverflow));
    assert!(parse("(_ \"a\", \"\")").unwrap().is_well_formed());
    assert!(parse("(_ h'00' 'ab')").unwrap().is_well_formed());
}
