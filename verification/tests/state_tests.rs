use bit64::state::{Bit64, BitOps, Repr};

#[test]
fn default_state() {
    let s = Bit64::default();
    assert_eq!(s.data, 0);
    assert_eq!(s.expression, "");
    assert_eq!(s.hex, "");
    assert_eq!(s.dec, "");
    assert_eq!(s.oct, "");
    assert_eq!(s.bin, "");
    assert_eq!(s.size, "0 B");
    assert_eq!(s.size_input, "0 B");
}

#[test]
fn hex_edit_synchronizes_all_fields() {
    let mut s = Bit64::default();
    s.update(BitOps::HexChanged(String::from("ff")));
    assert_eq!(s.data, 255);
    assert_eq!(s.hex, "FF");
    assert_eq!(s.dec, "255");
    assert_eq!(s.oct, "377");
    assert_eq!(s.bin, "11111111");
    assert_eq!(s.size, "255B");
    assert_eq!(s.size_input, "255B");
}

#[test]
fn numeric_edit_failure_resets() {
    let mut s = Bit64::default();
    s.update(BitOps::DecChanged(String::from("1025")));
    assert_eq!(s.data, 1025);
    s.update(BitOps::HexChanged(String::from("xyz")));
    assert_eq!(s.data, 0);
    assert_eq!(s.hex, "");
    assert_eq!(s.dec, "");
    assert_eq!(s.oct, "");
    assert_eq!(s.bin, "");
    assert_eq!(s.size, "0 B");
    assert_eq!(s.size_input, "0 B");
}

#[test]
fn size_edit_success_writes_canonical_text() {
    let mut s = Bit64::default();
    s.update(BitOps::DataSizeChanged(String::from("1k1b")));
    assert_eq!(s.data, 1025);
    assert_eq!(s.size, "1K 1B");
    assert_eq!(s.size_input, "1K 1B");
    assert_eq!(s.hex, "401");
    assert_eq!(s.dec, "1025");
}

#[test]
fn size_edit_failure_keeps_typed_text() {
    let mut s = Bit64::default();
    s.update(BitOps::DecChanged(String::from("7")));
    s.update(BitOps::DataSizeChanged(String::from("1KB")));
    assert_eq!(s.data, 0);
    assert_eq!(s.hex, "");
    assert_eq!(s.dec, "");
    assert_eq!(s.oct, "");
    assert_eq!(s.bin, "");
    assert_eq!(s.size, "0 B");
    assert_eq!(s.size_input, "1KB");
}

#[test]
fn size_edit_empty_resets() {
    let mut s = Bit64::default();
    s.update(BitOps::DecChanged(String::from("7")));
    s.update(BitOps::DataSizeChanged(String::new()));
    assert_eq!(s.data, 0);
    assert_eq!(s.size, "0 B");
    assert_eq!(s.size_input, "");
}

#[test]
fn size_edit_whitespace_only_resets() {
    let mut s = Bit64::default();
    s.update(BitOps::DecChanged(String::from("7")));
    s.update(BitOps::DataSizeChanged(String::from("   ")));
    assert_eq!(s.data, 0);
    assert_eq!(s.hex, "");
    assert_eq!(s.dec, "");
    assert_eq!(s.oct, "");
    assert_eq!(s.bin, "");
    assert_eq!(s.size, "0 B");
    assert_eq!(s.size_input, "   ");
}

#[test]
fn set_from_text_each_base() {
    let mut s = Bit64::default();
    s.set_from_text(Repr::Bin, "0b1011");
    assert_eq!(s.data, 11);
    s.set_from_text(Repr::Oct, "0o777");
    assert_eq!(s.data, 511);
    s.set_from_text(Repr::Dec, " 42 ");
    assert_eq!(s.data, 42);
    s.set_from_text(Repr::Hex, "0xDEADBEEF");
    assert_eq!(s.data, 0xDEAD_BEEF);
    s.set_from_text(Repr::Size, "1M 12B");
    assert_eq!(s.data, 1024 * 1024 + 12);
}

#[test]
fn toggle_updates_value_and_text() {
    let mut s = Bit64::default();
    s.update(BitOps::Toggled(0, 0));
    assert_eq!(s.data, 1);
    assert_eq!(s.bin, "1");
    s.update(BitOps::Toggled(1, 2));
    assert_eq!(s.data, 1 | (1u64 << 18));
    assert_eq!(s.hex, "40001");
}

#[test]
fn toggle_twice_is_involution() {
    let mut s = Bit64::default();
    s.update(BitOps::DecChanged(String::from("123456789")));
    let before = s.data;
    s.toggle_bit(37);
    assert_ne!(s.data, before);
    s.toggle_bit(37);
    assert_eq!(s.data, before);
    assert_eq!(s.dec, "123456789");
}

#[test]
fn shift_left_behavior() {
    let mut s = Bit64::default();
    s.update(BitOps::DecChanged(String::from("5")));
    s.update(BitOps::ShiftLeft(1));
    assert_eq!(s.data, 10);
    assert_eq!(s.dec, "10");
    s.update(BitOps::ShiftLeft(0));
    assert_eq!(s.data, 10);
    s.update(BitOps::ShiftLeft(64));
    assert_eq!(s.data, 0);
    assert_eq!(s.dec, "0");
    assert_eq!(s.size, "0 B");
}

#[test]
fn shift_right_behavior() {
    let mut s = Bit64::default();
    s.update(BitOps::DecChanged(String::from("10")));
    s.update(BitOps::ShiftRight(1));
    assert_eq!(s.data, 5);
    s.update(BitOps::ShiftRight(0));
    assert_eq!(s.data, 5);
    s.update(BitOps::ShiftRight(100));
    assert_eq!(s.data, 0);
}

#[test]
fn shift_discards_overflowed_bits() {
    let mut s = Bit64::default();
    s.set_from_text(Repr::Hex, "8000000000000001");
    s.shift_left(1);
    assert_eq!(s.data, 2);
}

#[test]
fn expression_parses_to_shift_amount() {
    let mut s = Bit64::default();
    assert_eq!(s.parse_shift_amount(), 1);
    s.update(BitOps::ExpressionChanged(String::from("5")));
    assert_eq!(s.expression, "5");
    assert_eq!(s.parse_shift_amount(), 5);
    s.set_expression(String::from("+7"));
    assert_eq!(s.parse_shift_amount(), 7);
    s.set_expression(String::from("0"));
    assert_eq!(s.parse_shift_amount(), 0);
    s.set_expression(String::from("100"));
    assert_eq!(s.parse_shift_amount(), 64);
    s.set_expression(String::from("abc"));
    assert_eq!(s.parse_shift_amount(), 1);
    s.set_expression(String::from("99999999999999"));
    assert_eq!(s.parse_shift_amount(), 1);
    s.set_expression(String::from("+"));
    assert_eq!(s.parse_shift_amount(), 1);
}

#[test]
fn expression_change_touches_nothing_else() {
    let mut s = Bit64::default();
    s.update(BitOps::HexChanged(String::from("A")));
    s.update(BitOps::ExpressionChanged(String::from("3")));
    assert_eq!(s.data, 10);
    assert_eq!(s.hex, "A");
    assert_eq!(s.size, "10B");
}
