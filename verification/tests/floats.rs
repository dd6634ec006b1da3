use cbor_diag::float::FloatTable;
use cbor_diag::parse::bytes::parse_bytes;
use cbor_diag::sink::{render_ansi, render_plain};
use cbor_diag::{DataItem, FloatWidth, IntegerWidth};

fn digits(bits: u64, width: FloatWidth) -> String {
    let value = f64::from_bits(bits);
    match width {
        FloatWidth::ThirtyTwo => (value as f32).to_string(),
        _ => value.to_string(),
    }
}

fn float(value: f64, bitwidth: FloatWidth) -> DataItem {
    DataItem::Float { value: value.to_bits(), bitwidth }
}

fn compact(item: &DataItem) -> String {
    let table = FloatTable::for_item(item, &digits);
    assert!(table.has_all(item));
    render_plain(&item.compact_diag(&table))
}

#[test]
fn floats_in_diagnostic_notation() {
    assert_eq!(compact(&float(1.0, FloatWidth::Unknown)), "1.0");
    assert_eq!(compact(&float(1.5, FloatWidth::Sixteen)), "1.5_1");
    assert_eq!(compact(&float(-4.0, FloatWidth::Sixteen)), "-4.0_1");
    assert_eq!(compact(&float(100000.0, FloatWidth::ThirtyTwo)), "100000.0_2");
    assert_eq!(compact(&float(0.1f32 as f64, FloatWidth::ThirtyTwo)), "0.1_2");
    assert_eq!(compact(&float(1.1, FloatWidth::SixtyFour)), "1.1_3");
    assert_eq!(compact(&float(1e300, FloatWidth::SixtyFour)).len(), 301 + 2 + 2);
    assert_eq!(compact(&float(f64::NAN, FloatWidth::Sixteen)), "NaN_1");
    assert_eq!(compact(&float(f64::INFINITY, FloatWidth::ThirtyTwo)), "Infinity_2");
    assert_eq!(compact(&float(f64::NEG_INFINITY, FloatWidth::Unknown)), "-Infinity");
    assert_eq!(compact(&DataItem::Float { value: 0xfff8_0000_0000_0001, bitwidth: FloatWidth::SixtyFour }), "NaN_3");
}

#[test]
fn floats_in_the_annotated_dump() {
    let dump = |item: &DataItem| item.to_hex(&FloatTable::for_item(item, &digits));
    assert_eq!(dump(&float(1.5, FloatWidth::Sixteen)), "f9 3e00 # float(1.5)");
    assert_eq!(dump(&float(1.5, FloatWidth::Unknown)), "f9 3e00 # float(1.5)");
    assert_eq!(dump(&float(100000.0, FloatWidth::ThirtyTwo)), "fa 47c35000 # float(100000.0)");
    assert_eq!(dump(&float(1.1, FloatWidth::SixtyFour)), "fb 3ff199999999999a # float(1.1)");
    assert_eq!(dump(&float(f64::NEG_INFINITY, FloatWidth::Sixteen)), "f9 fc00 # float(-Infinity)");
}

#[test]
fn the_table_is_filled_once_for_each_float() {
    let item = DataItem::Array {
        data: vec![
            float(1.5, FloatWidth::Sixteen),
            float(1.5, FloatWidth::Sixteen),
            float(1.5, FloatWidth::SixtyFour),
            float(f64::NAN, FloatWidth::Sixteen),
            DataItem::Mapping {
                data: vec![(float(2.5, FloatWidth::Sixteen), float(1.5, FloatWidth::Sixteen))],
                bitwidth: None,
            },
        ],
        bitwidth: Some(IntegerWidth::Zero),
    };
    let table = FloatTable::for_item(&item, &digits);
    assert_eq!(table.entries.len(), 3);
    assert!(table.has_all(&item));
    assert!(!FloatTable::new().has_all(&item));
    assert_eq!(
        render_plain(&item.pretty_diag(&table)),
        "[1.5_1, 1.5_1, 1.5_3, NaN_1, {_ 2.5_1: 1.5_1}]"
    );
    assert_eq!(
        render_ansi(&float(1.5, FloatWidth::Sixteen).compact_diag(&table)),
        "1.5\x1b[2m_1\x1b[0m"
    );
}

#[test]
fn precision_is_checked_before_encoding() {
    assert!(float(1.5, FloatWidth::Sixteen).is_well_formed());
    assert!(!float(1.1, FloatWidth::Sixteen).is_well_formed());
    assert!(!float(1.1, FloatWidth::ThirtyTwo).is_precise());
    assert!(float(1.1, FloatWidth::SixtyFour).is_precise());
    assert!(!float(65536.0, FloatWidth::Sixteen).is_precise());
    assert!(float(65504.0, FloatWidth::Sixteen).is_precise());
    assert!(!float(2f64.powi(-25), FloatWidth::Sixteen).is_precise());
    assert!(float(2f64.powi(-24), FloatWidth::Sixteen).is_precise());
    assert!(float(2f64.powi(-149), FloatWidth::ThirtyTwo).is_precise());
    assert!(!float(2f64.powi(-150), FloatWidth::ThirtyTwo).is_precise());
    assert!(!float(f64::from_bits(1), FloatWidth::ThirtyTwo).is_precise());
    let item = parse_bytes(&[0xfa, 0x7f, 0x80, 0x00, 0x01]).unwrap();
    assert!(item.is_well_formed());
    assert_eq!(item.to_bytes(), [0xfa, 0x7f, 0xc0, 0x00, 0x00]);
    let payload = DataItem::Float { value: 0x7ff0_0400_0000_0000, bitwidth: FloatWidth::Sixteen };
    assert!(payload.is_well_formed());
    assert_eq!(payload.to_bytes(), [0xf9, 0x7c, 0x01]);
}
