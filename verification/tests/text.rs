use logic_lib::text::{
    chars_of, decimal_text, parse_number, parse_string_to_coordinate, parse_u32, same_text,
};
use logic_lib::types::Coordinate;

#[test]
fn chars_of_keeps_every_character() {
    assert_eq!(chars_of(""), Vec::<char>::new());
    assert_eq!(chars_of("a,b"), vec!['a', ',', 'b']);
    assert_eq!(chars_of("é1"), vec!['é', '1']);
}

#[test]
fn same_text_compares_by_content() {
    assert!(same_text("comp", "comp"));
    assert!(!same_text("comp", "comp "));
    assert!(!same_text("comp", "Comp"));
    assert!(same_text("", ""));
}

#[test]
fn parse_u32_reads_plain_digits() {
    assert_eq!(parse_u32("0"), Some(0));
    assert_eq!(parse_u32("7"), Some(7));
    assert_eq!(parse_u32("160"), Some(160));
    assert_eq!(parse_u32("4294967295"), Some(4294967295));
}

#[test]
fn parse_u32_takes_a_leading_plus_and_leading_zeros() {
    assert_eq!(parse_u32("+5"), Some(5));
    assert_eq!(parse_u32("007"), Some(7));
    assert_eq!(parse_u32("+000"), Some(0));
    assert_eq!(parse_u32("00000000000000000000004294967295"), Some(4294967295));
}

#[test]
fn parse_u32_refuses_what_is_no_number() {
    assert_eq!(parse_u32(""), None);
    assert_eq!(parse_u32("+"), None);
    assert_eq!(parse_u32("-5"), None);
    assert_eq!(parse_u32("++5"), None);
    assert_eq!(parse_u32("5+"), None);
    assert_eq!(parse_u32(" 5"), None);
    assert_eq!(parse_u32("5 "), None);
    assert_eq!(parse_u32("1.5"), None);
    assert_eq!(parse_u32("12a"), None);
    assert_eq!(parse_u32("٣"), None);
}

#[test]
fn parse_u32_refuses_what_does_not_fit() {
    assert_eq!(parse_u32("4294967296"), None);
    assert_eq!(parse_u32("99999999999999999999999999"), None);
    assert_eq!(parse_u32("42949672950"), None);
}

#[test]
fn parse_u32_agrees_with_the_standard_library() {
    for s in ["0", "12", "+12", "-12", "", "+", "4294967295", "4294967296", "0x10", "1_000", "١٢"]
    {
        assert_eq!(parse_u32(s), s.parse::<u32>().ok());
    }
}

#[test]
fn parse_number_reads_a_range() {
    let chars: Vec<char> = "ab123,45".chars().collect();
    assert_eq!(parse_number(&chars, 2, 5), Some(123));
    assert_eq!(parse_number(&chars, 6, 8), Some(45));
    assert_eq!(parse_number(&chars, 2, 6), None);
    assert_eq!(parse_number(&chars, 3, 3), None);
    assert_eq!(parse_number(&chars, 0, 2), None);
}

#[test]
fn decimal_text_writes_base_ten() {
    assert_eq!(decimal_text(0), "0");
    assert_eq!(decimal_text(7), "7");
    assert_eq!(decimal_text(10), "10");
    assert_eq!(decimal_text(409), "409");
    assert_eq!(decimal_text(1234567890), "1234567890");
    assert_eq!(decimal_text(usize::MAX), format!("{}", usize::MAX));
}

#[test]
fn coordinate_in_brackets() {
    assert_eq!(parse_string_to_coordinate("(160,130)"), Some(Coordinate { x: 160, y: 130 }));
    assert_eq!(parse_string_to_coordinate("(160, 130)"), Some(Coordinate { x: 160, y: 130 }));
    assert_eq!(parse_string_to_coordinate("(0,0)"), Some(Coordinate { x: 0, y: 0 }));
    assert_eq!(
        parse_string_to_coordinate("(4294967295,4294967295)"),
        Some(Coordinate { x: 4294967295, y: 4294967295 })
    );
}

#[test]
fn coordinate_without_brackets_or_with_stray_ones() {
    assert_eq!(parse_string_to_coordinate("3,4"), Some(Coordinate { x: 3, y: 4 }));
    assert_eq!(parse_string_to_coordinate(" ( 3 , 4 ) "), Some(Coordinate { x: 3, y: 4 }));
    assert_eq!(parse_string_to_coordinate("((3)),(4"), Some(Coordinate { x: 3, y: 4 }));
    assert_eq!(parse_string_to_coordinate("1 2,3"), Some(Coordinate { x: 12, y: 3 }));
    assert_eq!(parse_string_to_coordinate("+3,+4"), Some(Coordinate { x: 3, y: 4 }));
}

#[test]
fn coordinate_passes_over_fields_behind_the_second() {
    assert_eq!(parse_string_to_coordinate("(1,2,3)"), Some(Coordinate { x: 1, y: 2 }));
    assert_eq!(parse_string_to_coordinate("1,2,"), Some(Coordinate { x: 1, y: 2 }));
    assert_eq!(parse_string_to_coordinate("1,2,x,é"), Some(Coordinate { x: 1, y: 2 }));
}

#[test]
fn malformed_coordinates() {
    assert_eq!(parse_string_to_coordinate(""), None);
    assert_eq!(parse_string_to_coordinate("()"), None);
    assert_eq!(parse_string_to_coordinate("(5)"), None);
    assert_eq!(parse_string_to_coordinate("(5,)"), None);
    assert_eq!(parse_string_to_coordinate("(,5)"), None);
    assert_eq!(parse_string_to_coordinate(","), None);
    assert_eq!(parse_string_to_coordinate("(a,b)"), None);
    assert_eq!(parse_string_to_coordinate("(-1,2)"), None);
    assert_eq!(parse_string_to_coordinate("(1;2)"), None);
    assert_eq!(parse_string_to_coordinate("(1,,2)"), None);
    assert_eq!(parse_string_to_coordinate("(4294967296,0)"), None);
    assert_eq!(parse_string_to_coordinate("(1\t,2)"), None);
}
