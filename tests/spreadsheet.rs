use packet_router::spreadsheet::Spreadsheet;

#[test]
fn new_sheet_reads_zero() {
    let s = Spreadsheet::new(3);
    assert_eq!(s.get_value("=A1".to_string()), 0);
    assert_eq!(s.get_value("=Z3".to_string()), 0);
}

#[test]
fn formula_sums_cells_and_numbers() {
    let mut s = Spreadsheet::new(3);
    s.set_cell("A1".to_string(), 10);
    s.set_cell("B2".to_string(), 15);
    assert_eq!(s.get_value("=A1+B2".to_string()), 25);
    assert_eq!(s.get_value("=5+7".to_string()), 12);
    assert_eq!(s.get_value("=A1+6".to_string()), 16);
}

#[test]
fn reset_cell_sets_zero() {
    let mut s = Spreadsheet::new(3);
    s.set_cell("A1".to_string(), 10);
    s.set_cell("B2".to_string(), 15);
    s.reset_cell("A1".to_string());
    assert_eq!(s.get_value("=A1+B2".to_string()), 15);
}

#[test]
fn text_without_equals_is_zero() {
    let mut s = Spreadsheet::new(2);
    s.set_cell("A1".to_string(), 4);
    assert_eq!(s.get_value("A1".to_string()), 0);
    assert_eq!(s.get_value("".to_string()), 0);
    assert_eq!(s.get_value("5+5".to_string()), 0);
}

#[test]
fn whitespace_and_repeated_equals() {
    let mut s = Spreadsheet::new(2);
    s.set_cell("A1".to_string(), 4);
    assert_eq!(s.get_value("= 5 + A1 ".to_string()), 9);
    assert_eq!(s.get_value("==3+4".to_string()), 7);
    assert_eq!(s.get_value("=\u{3000}7\t+\u{A0}1".to_string()), 8);
}

#[test]
fn signed_numbers_and_limits() {
    let s = Spreadsheet::new(1);
    assert_eq!(s.get_value("=-5+3".to_string()), -2);
    assert_eq!(s.get_value("=2147483647".to_string()), i32::MAX);
    assert_eq!(s.get_value("=-2147483648".to_string()), i32::MIN);
    assert_eq!(s.get_value("=007+-0".to_string()), 7);
}

#[test]
fn references_outside_grid() {
    let mut s = Spreadsheet::new(3);
    s.set_cell("Z100".to_string(), 5);
    assert_eq!(s.get_value("=Z100".to_string()), 0);
    s.set_cell("a1".to_string(), 9);
    assert_eq!(s.get_value("=a1".to_string()), 0);
    s.set_cell("C3".to_string(), 8);
    assert_eq!(s.get_value("=C3+C4".to_string()), 8);
}

#[test]
fn reference_without_row_number_reads_first_row() {
    let mut s = Spreadsheet::new(3);
    s.set_cell("B1".to_string(), 21);
    assert_eq!(s.get_value("=B".to_string()), 21);
    assert_eq!(s.get_value("=Bx".to_string()), 21);
    assert_eq!(s.get_value("=B99999999999999999999999".to_string()), 21);
    s.set_cell("B".to_string(), 3);
    assert_eq!(s.get_value("=B1".to_string()), 3);
}

#[test]
fn zero_rows_sheet() {
    let mut s = Spreadsheet::new(0);
    s.set_cell("A1".to_string(), 3);
    assert_eq!(s.get_value("=A1+1".to_string()), 1);
}
