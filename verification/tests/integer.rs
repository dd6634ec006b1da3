use cbor_diag::float::FloatTable;
use cbor_diag::parse::diag::parse_diag;
use cbor_diag::parse::hex::parse_hex;
use cbor_diag::sink::render_plain;
use cbor_diag::{DataItem, IntegerWidth};

fn diag(item: &DataItem) -> String {
    render_plain(&item.compact_diag(&FloatTable::new()))
}

fn hex(item: &DataItem) -> String {
    item.to_hex(&FloatTable::new())
}

/// The item as notation gives it back: notation shows no width for an
/// argument in the initial byte.
fn as_read(item: &DataItem) -> DataItem {
    let open = |bitwidth: IntegerWidth| match bitwidth {
        IntegerWidth::Zero => IntegerWidth::Unknown,
        other => other,
    };
    match *item {
        DataItem::Integer { value, bitwidth } => DataItem::Integer { value, bitwidth: open(bitwidth) },
        DataItem::Negative { value, bitwidth } => DataItem::Negative { value, bitwidth: open(bitwidth) },
        _ => unreachable!(),
    }
}

fn reads_back(item: DataItem) {
    assert_eq!(parse_diag(&diag(&item), &FloatTable::new()), Ok(as_read(&item)));
    assert_eq!(parse_hex(&hex(&item)), Ok(item));
}

#[test]
fn utiny_zero() {
    let item = DataItem::Integer { value: 0, bitwidth: IntegerWidth::Zero };
    assert_eq!(diag(&item), "0");
    assert_eq!(hex(&item), "00 # unsigned(0)");
    reads_back(item);
}

#[test]
fn utiny_one() {
    let item = DataItem::Integer { value: 1, bitwidth: IntegerWidth::Zero };
    assert_eq!(diag(&item), "1");
    assert_eq!(hex(&item), "01 # unsigned(1)");
    reads_back(item);
}

#[test]
fn utiny_twenty_three() {
    let item = DataItem::Integer { value: 23, bitwidth: IntegerWidth::Zero };
    assert_eq!(diag(&item), "23");
    assert_eq!(hex(&item), "17 # unsigned(23)");
    reads_back(item);
}

#[test]
fn u8_zero() {
    let item = DataItem::Integer { value: 0, bitwidth: IntegerWidth::Eight };
    assert_eq!(diag(&item), "0_0");
    assert_eq!(hex(&item), "18 00 # unsigned(0)");
    reads_back(item);
}

#[test]
fn u8_one() {
    let item = DataItem::Integer { value: 1, bitwidth: IntegerWidth::Eight };
    assert_eq!(diag(&item), "1_0");
    assert_eq!(hex(&item), "18 01 # unsigned(1)");
    reads_back(item);
}

#[test]
fn u8_twenty_four() {
    let item = DataItem::Integer { value: 24, bitwidth: IntegerWidth::Eight };
    assert_eq!(diag(&item), "24_0");
    assert_eq!(hex(&item), "18 18 # unsigned(24)");
    reads_back(item);
}

#[test]
fn u16_zero() {
    let item = DataItem::Integer { value: 0, bitwidth: IntegerWidth::Sixteen };
    assert_eq!(diag(&item), "0_1");
    assert_eq!(hex(&item), "19 0000 # unsigned(0)");
    reads_back(item);
}

#[test]
fn u16_one() {
    let item = DataItem::Integer { value: 1, bitwidth: IntegerWidth::Sixteen };
    assert_eq!(diag(&item), "1_1");
    assert_eq!(hex(&item), "19 0001 # unsigned(1)");
    reads_back(item);
}

#[test]
fn u16_twenty_four() {
    let item = DataItem::Integer { value: 24, bitwidth: IntegerWidth::Sixteen };
    assert_eq!(diag(&item), "24_1");
    assert_eq!(hex(&item), "19 0018 # unsigned(24)");
    reads_back(item);
}

#[test]
fn u32_zero() {
    let item = DataItem::Integer { value: 0, bitwidth: IntegerWidth::ThirtyTwo };
    assert_eq!(diag(&item), "0_2");
    assert_eq!(hex(&item), "1a 00000000 # unsigned(0)");
    reads_back(item);
}

#[test]
fn u32_one() {
    let item = DataItem::Integer { value: 1, bitwidth: IntegerWidth::ThirtyTwo };
    assert_eq!(diag(&item), "1_2");
    assert_eq!(hex(&item), "1a 00000001 # unsigned(1)");
    reads_back(item);
}

#[test]
fn u32_twenty_four() {
    let item = DataItem::Integer { value: 24, bitwidth: IntegerWidth::ThirtyTwo };
    assert_eq!(diag(&item), "24_2");
    assert_eq!(hex(&item), "1a 00000018 # unsigned(24)");
    reads_back(item);
}

#[test]
fn u64_zero() {
    let item = DataItem::Integer { value: 0, bitwidth: IntegerWidth::SixtyFour };
    assert_eq!(diag(&item), "0_3");
    assert_eq!(hex(&item), "1b 0000000000000000 # unsigned(0)");
    reads_back(item);
}

#[test]
fn u64_one() {
    let item = DataItem::Integer { value: 1, bitwidth: IntegerWidth::SixtyFour };
    assert_eq!(diag(&item), "1_3");
    assert_eq!(hex(&item), "1b 0000000000000001 # unsigned(1)");
    reads_back(item);
}

#[test]
fn u64_twenty_four() {
    let item = DataItem::Integer { value: 24, bitwidth: IntegerWidth::SixtyFour };
    assert_eq!(diag(&item), "24_3");
    assert_eq!(hex(&item), "1b 0000000000000018 # unsigned(24)");
    reads_back(item);
}

#[test]
fn negative_utiny_one() {
    let item = DataItem::Negative { value: 0, bitwidth: IntegerWidth::Zero };
    assert_eq!(diag(&item), "-1");
    assert_eq!(hex(&item), "20 # negative(0)");
    reads_back(item);
}

#[test]
fn negative_utiny_twenty_four() {
    let item = DataItem::Negative { value: 23, bitwidth: IntegerWidth::Zero };
    assert_eq!(diag(&item), "-24");
    assert_eq!(hex(&item), "37 # negative(23)");
    reads_back(item);
}

#[test]
fn negative_u8_one() {
    let item = DataItem::Negative { value: 0, bitwidth: IntegerWidth::Eight };
    assert_eq!(diag(&item), "-1_0");
    assert_eq!(hex(&item), "38 00 # negative(0)");
    reads_back(item);
}

#[test]
fn negative_u8_twenty_five() {
    let item = DataItem::Negative { value: 24, bitwidth: IntegerWidth::Eight };
    assert_eq!(diag(&item), "-25_0");
    assert_eq!(hex(&item), "38 18 # negative(24)");
    reads_back(item);
}

#[test]
fn negative_u16_one() {
    let item = DataItem::Negative { value: 0, bitwidth: IntegerWidth::Sixteen };
    assert_eq!(diag(&item), "-1_1");
    assert_eq!(hex(&item), "39 0000 # negative(0)");
    reads_back(item);
}

#[test]
fn negative_u16_twenty_five() {
    let item = DataItem::Negative { value: 24, bitwidth: IntegerWidth::Sixteen };
    assert_eq!(diag(&item), "-25_1");
    assert_eq!(hex(&item), "39 0018 # negative(24)");
    reads_back(item);
}

#[test]
fn negative_u32_one() {
    let item = DataItem::Negative { value: 0, bitwidth: IntegerWidth::ThirtyTwo };
    assert_eq!(diag(&item), "-1_2");
    assert_eq!(hex(&item), "3a 00000000 # negative(0)");
    reads_back(item);
}

#[test]
fn negative_u32_twenty_five() {
    let item = DataItem::Negative { value: 24, bitwidth: IntegerWidth::ThirtyTwo };
    assert_eq!(diag(&item), "-25_2");
    assert_eq!(hex(&item), "3a 00000018 # negative(24)");
    reads_back(item);
}

#[test]
fn negative_u64_one() {
    let item = DataItem::Negative { value: 0, bitwidth: IntegerWidth::SixtyFour };
    assert_eq!(diag(&item), "-1_3");
    assert_eq!(hex(&item), "3b 0000000000000000 # negative(0)");
    reads_back(item);
}

#[test]
fn negative_u64_twenty_five() {
    let item = DataItem::Negative { value: 24, bitwidth: IntegerWidth::SixtyFour };
    assert_eq!(diag(&item), "-25_3");
    assert_eq!(hex(&item), "3b 0000000000000018 # negative(24)");
    reads_back(item);
}

