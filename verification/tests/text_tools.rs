use puzzles::numbers::{parse_digits, parse_i64, parse_usize};
use puzzles::text::{first_line_len, grid_shape, is_rectangular_bytes, is_space_byte, symbol, trim_bounds};
use puzzles::words::{
    find_first, lines_of, same_bytes, split_bytes, split_once_bytes, split_str_bytes,
    strip_prefix, trim_bytes,
};

fn owned(pieces: &[&str]) -> Vec<Vec<u8>> {
    pieces.iter().map(|p| p.as_bytes().to_vec()).collect()
}

#[test]
fn white_space_is_the_ascii_kind() {
    for b in [b' ', b'\t', b'\n', 11, 12, b'\r'] {
        assert!(is_space_byte(b));
    }
    for b in [b'a', b'0', 0, 8, 14, 0xA0] {
        assert!(!is_space_byte(b));
    }
}

#[test]
fn trimming_keeps_the_middle() {
    assert_eq!(trim_bounds(b"  ab c \n"), (2, 6));
    assert_eq!(trim_bounds(b"abc"), (0, 3));
    assert_eq!(trim_bounds(b""), (0, 0));
    assert_eq!(trim_bounds(b" \n\t "), (4, 4));
    assert_eq!(trim_bytes(b"\n x y \r\n"), b"x y");
}

#[test]
fn the_shape_of_a_text_is_its_columns_and_rows() {
    assert_eq!(first_line_len(b"abc\nde"), 3);
    assert_eq!(first_line_len(b"\nabc"), 0);
    assert_eq!(grid_shape(b"abc\ndef"), Some((3, 2)));
    assert_eq!(grid_shape(b"abc"), Some((3, 1)));
    assert_eq!(grid_shape(b"a\nb\nc"), Some((1, 3)));
    assert_eq!(grid_shape(b"abc\nde"), None);
    assert_eq!(grid_shape(b"abc\ndef\n"), None);
    assert_eq!(grid_shape(b""), None);
    assert!(is_rectangular_bytes(b""));
    assert!(is_rectangular_bytes(b"\n\n"));
    assert!(!is_rectangular_bytes(b"ab\n\ncd"));
}

#[test]
fn symbols_are_found_by_column_and_row() {
    let text = b"abc\ndef";
    assert_eq!(symbol(text, 3, 2, 0, 0), b'a');
    assert_eq!(symbol(text, 3, 2, 2, 0), b'c');
    assert_eq!(symbol(text, 3, 2, 0, 1), b'd');
    assert_eq!(symbol(text, 3, 2, 2, 1), b'f');
}

#[test]
fn a_text_of_n_separators_has_n_plus_one_pieces() {
    assert_eq!(split_bytes(b"a,,b", b','), owned(&["a", "", "b"]));
    assert_eq!(split_bytes(b"", b','), owned(&[""]));
    assert_eq!(split_bytes(b",", b','), owned(&["", ""]));
    assert_eq!(split_bytes(b"abc", b','), owned(&["abc"]));
}

#[test]
fn the_empty_text_has_no_lines() {
    assert_eq!(lines_of(""), owned(&[]));
    assert_eq!(lines_of(" \n "), owned(&[]));
    assert_eq!(lines_of("\n a\n\nb \n"), owned(&["a", "", "b"]));
    assert_eq!(lines_of("a\r\nb"), owned(&["a", "b"]));
}

#[test]
fn strings_are_cut_at_strings() {
    assert_eq!(split_str_bytes(b"a; b; c", b"; "), owned(&["a", "b", "c"]));
    assert_eq!(split_str_bytes(b"a;b", b"; "), owned(&["a;b"]));
    assert_eq!(split_str_bytes(b"; ", b"; "), owned(&["", ""]));
    assert_eq!(split_str_bytes(b"aaa", b"aa"), owned(&["", "a"]));
    assert_eq!(split_str_bytes(b"abc", b""), owned(&["abc"]));
    assert_eq!(find_first(b"abcabc", b"ca"), Some(2));
    assert_eq!(find_first(b"abcabc", b"cb"), None);
    assert_eq!(find_first(b"ab", b"abc"), None);
    assert_eq!(find_first(b"ab", b""), Some(0));
    assert_eq!(
        split_once_bytes(b"key: a: b", b": "),
        Some((b"key".as_slice(), b"a: b".as_slice()))
    );
    assert_eq!(split_once_bytes(b"key", b": "), None);
    assert_eq!(strip_prefix(b"Game 12", b"Game "), Some(b"12".as_slice()));
    assert_eq!(strip_prefix(b"Gam", b"Game "), None);
    assert_eq!(strip_prefix(b"game 12", b"Game "), None);
    assert!(same_bytes(b"abc", b"abc"));
    assert!(!same_bytes(b"abc", b"abd"));
    assert!(!same_bytes(b"abc", b"ab"));
}

#[test]
fn numbers_are_read_with_their_signs() {
    assert_eq!(parse_usize(b"42"), Some(42));
    assert_eq!(parse_usize(b"+7"), Some(7));
    assert_eq!(parse_usize(b"007"), Some(7));
    assert_eq!(parse_usize(b"0"), Some(0));
    assert_eq!(parse_usize(b""), None);
    assert_eq!(parse_usize(b"+"), None);
    assert_eq!(parse_usize(b"-1"), None);
    assert_eq!(parse_usize(b"4 2"), None);
    assert_eq!(parse_usize(b"12a"), None);
    assert_eq!(parse_i64(b"-12"), Some(-12));
    assert_eq!(parse_i64(b"+12"), Some(12));
    assert_eq!(parse_i64(b"12"), Some(12));
    assert_eq!(parse_i64(b"-"), None);
    assert_eq!(parse_i64(b"--1"), None);
    assert_eq!(parse_i64(b"-+1"), None);
    assert_eq!(parse_digits(b"ab12", 2), Some(12));
    assert_eq!(parse_digits(b"ab12", 4), None);
}

#[test]
fn numbers_that_do_not_fit_are_not_read() {
    assert_eq!(parse_usize(b"18446744073709551615"), Some(usize::MAX));
    assert_eq!(parse_usize(b"18446744073709551616"), None);
    assert_eq!(parse_usize(b"99999999999999999999999999"), None);
    assert_eq!(parse_i64(b"9223372036854775807"), Some(i64::MAX));
    assert_eq!(parse_i64(b"9223372036854775808"), None);
    assert_eq!(parse_i64(b"-9223372036854775808"), Some(i64::MIN));
    assert_eq!(parse_i64(b"-9223372036854775809"), None);
}
