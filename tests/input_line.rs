use brainfuck_rs::input::{is_terminator_line, parse_cell_value};
use brainfuck_rs::Error;

#[test]
fn parses_a_decimal_byte() {
    assert_eq!(parse_cell_value("65\n"), Ok(65));
    assert_eq!(parse_cell_value("0"), Ok(0));
    assert_eq!(parse_cell_value("255"), Ok(255));
    assert_eq!(parse_cell_value("0065"), Ok(65));
    assert_eq!(parse_cell_value("+5"), Ok(5));
}

#[test]
fn surrounding_white_space_is_ignored() {
    assert_eq!(parse_cell_value("  7 \r\n"), Ok(7));
    assert_eq!(parse_cell_value("\t12\u{3000}"), Ok(12));
    assert_eq!(parse_cell_value("\u{A0}200\u{2003}"), Ok(200));
}

#[test]
fn anything_else_is_a_read_failure() {
    assert_eq!(parse_cell_value("256"), Err(Error::StdinReadFail));
    assert_eq!(parse_cell_value("99999999999"), Err(Error::StdinReadFail));
    assert_eq!(parse_cell_value("-1"), Err(Error::StdinReadFail));
    assert_eq!(parse_cell_value(""), Err(Error::StdinReadFail));
    assert_eq!(parse_cell_value("   \n"), Err(Error::StdinReadFail));
    assert_eq!(parse_cell_value("+"), Err(Error::StdinReadFail));
    assert_eq!(parse_cell_value("1a"), Err(Error::StdinReadFail));
    assert_eq!(parse_cell_value("1 2"), Err(Error::StdinReadFail));
    assert_eq!(parse_cell_value("++1"), Err(Error::StdinReadFail));
}

#[test]
fn a_lone_semicolon_line_is_a_terminator() {
    assert!(is_terminator_line(";"));
    assert!(is_terminator_line("  ;\n"));
    assert!(!is_terminator_line(""));
    assert!(!is_terminator_line(";;"));
    assert!(!is_terminator_line("+;"));
    assert!(!is_terminator_line(":"));
}
