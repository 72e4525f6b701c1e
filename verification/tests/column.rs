use shelve::{ColumnNumber, ParseColumnError};

#[test]
fn column_one_is_index_zero() {
    let c = ColumnNumber::from_str("1").expect("1 is a column");
    assert_eq!(c.index(), 0);
    assert_eq!(c.get(), 1);
}

#[test]
fn column_beyond_u8_range_parses() {
    let c = ColumnNumber::from_str("256").expect("256 is a column");
    assert_eq!(c.index(), 255);
}

#[test]
fn zero_column_is_rejected() {
    assert_eq!(ColumnNumber::from_str("0"), Err(ParseColumnError::Zero));
    assert_eq!(ColumnNumber::from_str("000"), Err(ParseColumnError::Zero));
    assert_eq!(ColumnNumber::new(0), None);
}

#[test]
fn non_integer_column_is_an_invalid_digit() {
    assert_eq!(ColumnNumber::from_str("abc"), Err(ParseColumnError::InvalidDigit));
    assert_eq!(ColumnNumber::from_str("1a"), Err(ParseColumnError::InvalidDigit));
    assert_eq!(ColumnNumber::from_str("-1"), Err(ParseColumnError::InvalidDigit));
    assert_eq!(ColumnNumber::from_str("+"), Err(ParseColumnError::InvalidDigit));
    assert_eq!(ColumnNumber::from_str("-"), Err(ParseColumnError::InvalidDigit));
    assert_eq!(ColumnNumber::from_str(" 1"), Err(ParseColumnError::InvalidDigit));
    assert_eq!(ColumnNumber::from_str("é"), Err(ParseColumnError::InvalidDigit));
}

#[test]
fn empty_column_is_rejected() {
    assert_eq!(ColumnNumber::from_str(""), Err(ParseColumnError::Empty));
}

#[test]
fn plus_sign_and_leading_zeros_are_accepted() {
    assert_eq!(ColumnNumber::from_str("+7").map(ColumnNumber::get), Ok(7));
    assert_eq!(ColumnNumber::from_str("007").map(ColumnNumber::get), Ok(7));
}

#[test]
fn too_large_column_overflows() {
    let max = usize::MAX.to_string();
    assert_eq!(ColumnNumber::from_str(&max).map(ColumnNumber::get), Ok(usize::MAX));
    let over = format!("{max}0");
    assert_eq!(ColumnNumber::from_str(&over), Err(ParseColumnError::PosOverflow));
    // The first failure from the left decides, as in `usize::from_str`.
    let over_then_letter = format!("{max}0x");
    assert_eq!(ColumnNumber::from_str(&over_then_letter), Err(ParseColumnError::PosOverflow));
}

#[test]
fn column_new_keeps_the_number() {
    let c = ColumnNumber::new(5).expect("5 is a column");
    assert_eq!(c.get(), 5);
    assert_eq!(c.index(), 4);
    assert_eq!(ColumnNumber::from_str("5"), Ok(c));
}
