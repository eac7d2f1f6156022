use lib::error::offset_to_line_col;
use lib::ir::ir_lexer::{Token, TokenKind};
use lib::module::instruction::{bytes_eq, copy_bytes};
use lib::text::{append_bytes, append_decimal, append_hex_byte, append_slice};

#[test]
fn line_and_column_of_a_token() {
    let src = "ab\ncd\nef";
    assert_eq!(offset_to_line_col(&Token::new((6, 8), TokenKind::Vreg), src), (3, 1));
    assert_eq!(offset_to_line_col(&Token::new((4, 5), TokenKind::Vreg), src), (2, 2));
    assert_eq!(offset_to_line_col(&Token::new((0, 1), TokenKind::Vreg), src), (1, 1));
}

#[test]
fn columns_count_characters_not_bytes() {
    let src = "é x";
    // 'é' is two bytes; the 'x' starts at byte 3 and is the third character
    assert_eq!(offset_to_line_col(&Token::new((3, 4), TokenKind::Vreg), src), (1, 3));
}

#[test]
fn offset_past_the_end_stops_at_the_end() {
    assert_eq!(offset_to_line_col(&Token::new((100, 101), TokenKind::Eof), "a\nb"), (2, 2));
}

#[test]
fn decimal_and_hex_text() {
    let mut out = Vec::new();
    append_decimal(&mut out, 0);
    append_slice(&mut out, b" ");
    append_decimal(&mut out, 1234567890);
    append_slice(&mut out, b" ");
    append_hex_byte(&mut out, 0x0a);
    append_slice(&mut out, b" ");
    append_hex_byte(&mut out, 0xff);
    append_bytes(&mut out, &b"!".to_vec());
    assert_eq!(out, b"0 1234567890 0x0a 0xff!".to_vec());
}

#[test]
fn byte_strings_compare_and_copy() {
    let a = b"abc".to_vec();
    let b = copy_bytes(&a);
    assert_eq!(a, b);
    assert!(bytes_eq(&a, &b));
    assert!(!bytes_eq(&a, &b"abd".to_vec()));
    assert!(!bytes_eq(&a, &b"ab".to_vec()));
}
