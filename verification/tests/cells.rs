use texttable::cell::{Cell, CellType};

#[test]
fn test_cell_01() {
    let c = Cell::new("hello", CellType::Str);
    assert_eq!(c.value, "hello");
}

#[test]
fn test_cell_02() {
    let c = Cell::new("123", CellType::Int);
    assert_eq!(c.value, "123");
}

#[should_panic]
#[test]
fn test_cell_03() {
    let c = Cell::new("hello", CellType::Int);
    assert_eq!(c.value, "hello");
}

#[test]
fn test_cell_04() {
    let c = Cell::new("123.4", CellType::Dbl);
    assert_eq!(c.value, "123.400");
}

#[test]
fn test_cell_05() {
    let c = Cell::new("123", CellType::Dbl);
    assert_eq!(c.value, "123.000");
}

#[test]
fn test_cell_06() {
    let c = Cell::new("123.0004", CellType::Dbl);
    assert_eq!(c.value, "123.000");
}

#[test]
fn test_cell_07() {
    let c = Cell::new("3", CellType::Dbl);
    assert_eq!(c.value, "3.000");
}

#[test]
fn int_cell_keeps_sign_and_zeros() {
    assert_eq!(Cell::new("-42", CellType::Int).value, "-42");
    assert_eq!(Cell::new("+7", CellType::Int).value, "+7");
    assert_eq!(Cell::new("007", CellType::Int).value, "007");
}

#[test]
fn int_cell_accepts_i64_bounds() {
    assert_eq!(
        Cell::new("9223372036854775807", CellType::Int).value,
        "9223372036854775807"
    );
    assert_eq!(
        Cell::new("-9223372036854775808", CellType::Int).value,
        "-9223372036854775808"
    );
}

#[test]
fn int_cell_rejects_bad_text() {
    assert!(Cell::try_new("hello", CellType::Int).is_none());
    assert!(Cell::try_new("", CellType::Int).is_none());
    assert!(Cell::try_new("+", CellType::Int).is_none());
    assert!(Cell::try_new("-", CellType::Int).is_none());
    assert!(Cell::try_new("12a", CellType::Int).is_none());
    assert!(Cell::try_new(" 12", CellType::Int).is_none());
    assert!(Cell::try_new("1.5", CellType::Int).is_none());
}

#[test]
fn int_cell_rejects_out_of_range() {
    assert!(Cell::try_new("9223372036854775808", CellType::Int).is_none());
    assert!(Cell::try_new("-9223372036854775809", CellType::Int).is_none());
    assert!(Cell::try_new("99999999999999999999", CellType::Int).is_none());
}

#[test]
fn dbl_cell_rejects_bad_text() {
    assert!(Cell::try_new("hello", CellType::Dbl).is_none());
    assert!(Cell::try_new("", CellType::Dbl).is_none());
    assert!(Cell::try_new(".", CellType::Dbl).is_none());
    assert!(Cell::try_new("-", CellType::Dbl).is_none());
    assert!(Cell::try_new("1.2.3", CellType::Dbl).is_none());
    assert!(Cell::try_new("--1", CellType::Dbl).is_none());
    assert!(Cell::try_new("1e5", CellType::Dbl).is_none());
}

#[test]
fn dbl_cell_normalizes() {
    assert_eq!(Cell::new("-2.5", CellType::Dbl).value, "-2.500");
    assert_eq!(Cell::new("+1.5", CellType::Dbl).value, "1.500");
    assert_eq!(Cell::new(".5", CellType::Dbl).value, "0.500");
    assert_eq!(Cell::new("5.", CellType::Dbl).value, "5.000");
    assert_eq!(Cell::new("007.5", CellType::Dbl).value, "7.500");
}

#[test]
fn dbl_cell_rounds_on_fourth_digit() {
    assert_eq!(Cell::new("0.0005", CellType::Dbl).value, "0.001");
    assert_eq!(Cell::new("0.0004", CellType::Dbl).value, "0.000");
    assert_eq!(Cell::new("9.9996", CellType::Dbl).value, "10.000");
    assert_eq!(Cell::new("999.9995", CellType::Dbl).value, "1000.000");
    assert_eq!(Cell::new("-0.0006", CellType::Dbl).value, "-0.001");
}

#[test]
fn dbl_cell_keeps_minus_on_zero() {
    assert_eq!(Cell::new("-0", CellType::Dbl).value, "-0.000");
    assert_eq!(Cell::new("-0.0001", CellType::Dbl).value, "-0.000");
}

#[test]
fn str_and_date_cells_store_verbatim() {
    let c = Cell::new("2020-13-45", CellType::Date);
    assert_eq!(c.value, "2020-13-45");
    let d = Cell::new("", CellType::Str);
    assert_eq!(d.value, "");
    assert!(Cell::try_new("anything at all", CellType::Date).is_some());
}

#[test]
fn type_labels() {
    assert_eq!(CellType::Str.label(), "Str");
    assert_eq!(CellType::Int.label(), "Int");
    assert_eq!(CellType::Dbl.label(), "Dbl");
    assert_eq!(CellType::Date.label(), "Date");
}
