use cbor_diag::float::FloatTable;
use cbor_diag::output::{output_item, output_sequence_item, Coloring, To};
use cbor_diag::{DataItem, IntegerWidth, Simple, TextString};

fn item() -> DataItem {
    DataItem::Array {
        data: vec![
            DataItem::Simple(Simple(20)),
            DataItem::TextString(TextString { data: "é".to_string(), bitwidth: IntegerWidth::Zero }),
        ],
        bitwidth: Some(IntegerWidth::Zero),
    }
}

fn out(to: To, color: Coloring) -> Vec<u8> {
    output_item(&item(), to, color, &FloatTable::new())
}

#[test]
fn each_form_of_output() {
    assert_eq!(out(To::Bytes, Coloring::Auto), [0x82, 0xf4, 0x62, 0xc3, 0xa9]);
    assert_eq!(out(To::Hex, Coloring::Auto), b"82f462c3a9");
    assert_eq!(
        out(To::Annotated, Coloring::Auto),
        "82 # array(2)\n   f4 # false, simple(20)\n   62      # text(2)\n      c3a9 # \"\\xc3\\xa9\"\n"
            .as_bytes()
    );
    assert_eq!(out(To::Diag, Coloring::Never), "[false, \"é\"]\n".as_bytes());
    assert_eq!(out(To::Compact, Coloring::Never), "[false, \"é\"]\n".as_bytes());
    assert_eq!(
        out(To::Compact, Coloring::Always),
        "\x1b[1m[\x1b[32;22mfalse\x1b[0m, \x1b[34m\"é\"\x1b[39;1m]\x1b[0m\n".as_bytes()
    );
    assert_eq!(out(To::Diag, Coloring::Auto), out(To::Diag, Coloring::Always));
}

#[test]
fn items_of_a_sequence_are_separated() {
    let each = |to: To| output_sequence_item(&item(), to, Coloring::Never, &FloatTable::new());
    assert_eq!(each(To::Bytes), [0x82, 0xf4, 0x62, 0xc3, 0xa9]);
    assert_eq!(each(To::Hex), b"82f462c3a9\n");
    assert_eq!(each(To::Diag), "[false, \"é\"]\n\n".as_bytes());
    assert_eq!(each(To::Compact), "[false, \"é\"]\n".as_bytes());
    assert!(each(To::Annotated).ends_with(b"\"\n\n"));
}

fn without_escape_codes(bytes: &[u8]) -> Vec<u8> {
    let mut out = Vec::new();
    let mut i = 0;
    while i < bytes.len() {
        if bytes[i] == 0x1b && i + 1 < bytes.len() && bytes[i + 1] == b'[' {
            let mut end = i + 2;
            while end < bytes.len() && (bytes[end].is_ascii_digit() || bytes[end] == b';') {
                end += 1;
            }
            if end < bytes.len() && bytes[end] == b'm' {
                i = end + 1;
                continue;
            }
        }
        out.push(bytes[i]);
        i += 1;
    }
    out
}

#[test]
fn plain_notation_is_the_coloured_one_without_its_escape_codes() {
    for to in [To::Diag, To::Compact] {
        let coloured = out(to, Coloring::Always);
        let plain = out(to, Coloring::Never);
        assert_ne!(coloured, plain);
        assert_eq!(without_escape_codes(&coloured), plain);
        assert!(!plain.contains(&0x1b));
    }
}

#[test]
fn each_form_asks_only_for_what_it_needs() {
    let wide = DataItem::Integer { value: 300, bitwidth: IntegerWidth::Eight };
    assert!(!wide.is_well_formed());
    let table = FloatTable::new();
    assert_eq!(output_item(&wide, To::Compact, Coloring::Never, &table), b"300_0\n");
    assert!(wide.is_precise());
    assert!(!output_item(&wide, To::Annotated, Coloring::Never, &table).is_empty());
    let half = DataItem::Float { value: 1.5f64.to_bits(), bitwidth: cbor_diag::FloatWidth::Sixteen };
    assert!(half.is_well_formed());
    assert!(!table.has_all(&half));
    assert_eq!(output_item(&half, To::Bytes, Coloring::Never, &table), [0xf9, 0x3e, 0x00]);
    assert_eq!(output_item(&half, To::Hex, Coloring::Never, &table), b"f93e00");
}
