use seq_expand::decimal::{decimal_string, read_number};
use seq_expand::error::{Error, ErrorKind};
use seq_expand::token::{check_depth, Delimiter, Position, Spacing, Token};

fn at(line: usize, column: usize) -> Position {
    Position { line, column, iteration: None }
}

fn ident(text: &str, column: usize) -> Token {
    Token::Ident { text: text.to_string(), pos: at(1, column) }
}

fn group(inner: Vec<Token>, column: usize) -> Token {
    Token::Group { delimiter: Delimiter::Brace, inner, pos: at(1, column) }
}

#[test]
fn numbers_are_written_in_base_ten() {
    assert_eq!(decimal_string(0), "0");
    assert_eq!(decimal_string(7), "7");
    assert_eq!(decimal_string(9), "9");
    assert_eq!(decimal_string(10), "10");
    assert_eq!(decimal_string(11), "11");
    assert_eq!(decimal_string(100), "100");
    assert_eq!(decimal_string(1234567890), "1234567890");
    assert_eq!(decimal_string(u64::MAX), "18446744073709551615");
}

#[test]
fn every_number_is_written_as_std_writes_it() {
    let mut n: u64 = 1;
    for _ in 0..63 {
        assert_eq!(decimal_string(n), n.to_string());
        assert_eq!(decimal_string(n - 1), (n - 1).to_string());
        n *= 2;
    }
}

#[test]
fn a_position_is_made_and_tagged() {
    let p = Position::new(3, 14);
    assert_eq!(p, at(3, 14));
    assert_eq!(p.tag(9), Position { line: 3, column: 14, iteration: Some(9) });
    assert_eq!(p.tag(9).tag(2), Position { line: 3, column: 14, iteration: Some(2) });
}

#[test]
fn a_token_knows_its_position() {
    assert_eq!(ident("a", 4).position(), at(1, 4));
    assert_eq!(group(Vec::new(), 6).position(), at(1, 6));
    let p = Token::Punct { ch: '+', spacing: Spacing::Joint, pos: at(2, 0) };
    assert_eq!(p.position(), at(2, 0));
    let l = Token::Literal { text: "1".to_string(), pos: at(2, 2) };
    assert_eq!(l.position(), at(2, 2));
}

#[test]
fn a_mark_against_the_next_token_is_joint() {
    assert_eq!(Spacing::of(false, at(1, 4), Some(at(1, 5))), Spacing::Joint);
    assert_eq!(Spacing::of(true, at(1, 4), Some(at(1, 9))), Spacing::Joint);
    assert_eq!(Spacing::of(true, at(0, 0), None), Spacing::Joint);
}

#[test]
fn a_mark_apart_from_the_next_token_is_isolated() {
    assert_eq!(Spacing::of(false, at(1, 4), Some(at(1, 6))), Spacing::Isolated);
    assert_eq!(Spacing::of(false, at(1, 4), Some(at(2, 5))), Spacing::Isolated);
    assert_eq!(Spacing::of(false, at(1, 4), Some(at(1, 4))), Spacing::Isolated);
    assert_eq!(Spacing::of(false, at(1, 4), Some(at(1, 0))), Spacing::Isolated);
    assert_eq!(Spacing::of(false, at(1, 4), None), Spacing::Isolated);
}

#[test]
fn a_mark_at_an_unknown_place_counts_as_joint() {
    assert_eq!(Spacing::of(false, at(0, 0), Some(at(0, 1))), Spacing::Joint);
    assert_eq!(Spacing::of(false, at(0, 7), Some(at(0, 3))), Spacing::Joint);
    assert_eq!(Spacing::of(false, at(0, 0), Some(at(4, 9))), Spacing::Joint);
    assert_eq!(Spacing::of(false, at(4, 9), Some(at(0, 0))), Spacing::Joint);
    assert_eq!(Spacing::of(false, at(0, 0), None), Spacing::Isolated);
}

#[test]
fn a_forest_without_groups_has_depth_zero() {
    assert_eq!(check_depth(&vec![ident("a", 0), ident("b", 2)], 0), None);
    assert_eq!(check_depth(&Vec::new(), 0), None);
}

#[test]
fn the_first_group_that_lies_too_deep_is_reported() {
    let forest = vec![
        ident("a", 0),
        group(vec![ident("b", 3), group(Vec::new(), 5), group(vec![group(Vec::new(), 9)], 8)], 2),
        group(Vec::new(), 20),
    ];
    assert_eq!(check_depth(&forest, 0), Some(at(1, 2)));
    assert_eq!(check_depth(&forest, 1), Some(at(1, 5)));
    assert_eq!(check_depth(&forest, 2), Some(at(1, 9)));
    assert_eq!(check_depth(&forest, 3), None);
    assert_eq!(check_depth(&forest, 4), None);
}

#[test]
fn a_copy_equals_what_it_was_made_from() {
    let forest = vec![
        ident("a", 0),
        Token::Punct { ch: '~', spacing: Spacing::Joint, pos: at(1, 1) },
        group(vec![Token::Literal { text: "\"s\"".to_string(), pos: at(1, 4) }], 3),
    ];
    assert_eq!(forest.clone(), forest);
    assert_eq!(forest[2].clone(), forest[2]);
}

#[test]
fn an_error_carries_the_message_of_its_kind() {
    let kinds = [
        (ErrorKind::ExpectedIdent, "expected identifier"),
        (ErrorKind::ExpectedIn, "expected `in`"),
        (ErrorKind::InvalidBound, "expected integer literal"),
        (ErrorKind::ExpectedDotDot, "expected `..`"),
        (ErrorKind::ExpectedBraces, "expected curly braces"),
        (ErrorKind::UnexpectedToken, "unexpected token"),
        (ErrorKind::NestingTooDeep, "token groups are nested too deeply"),
    ];
    for (kind, message) in kinds {
        assert_eq!(kind.message(), message);
        assert_eq!(
            Error::new(kind, at(2, 3)),
            Error { kind, message: message.to_string(), pos: at(2, 3) }
        );
    }
}

#[test]
fn digits_are_read_as_the_number_they_write() {
    assert_eq!(read_number("0"), Some(0));
    assert_eq!(read_number("7"), Some(7));
    assert_eq!(read_number("10"), Some(10));
    assert_eq!(read_number("0042"), Some(42));
    assert_eq!(read_number("18446744073709551615"), Some(u64::MAX));
    assert_eq!(read_number("000018446744073709551615"), Some(u64::MAX));
}

#[test]
fn what_is_no_number_of_64_bits_is_not_read() {
    assert_eq!(read_number(""), None);
    assert_eq!(read_number("18446744073709551616"), None);
    assert_eq!(read_number("99999999999999999999"), None);
    assert_eq!(read_number("184467440737095516150"), None);
    assert_eq!(read_number("-1"), None);
    assert_eq!(read_number("+1"), None);
    assert_eq!(read_number("1 "), None);
    assert_eq!(read_number("1_0"), None);
    assert_eq!(read_number("0x10"), None);
    assert_eq!(read_number("१२"), None);
    assert_eq!(read_number("1é"), None);
}

#[test]
fn what_is_written_is_read_back() {
    let mut n: u64 = 1;
    for _ in 0..63 {
        assert_eq!(read_number(&decimal_string(n)), Some(n));
        assert_eq!(read_number(&decimal_string(n - 1)), Some(n - 1));
        assert_eq!(read_number(&n.to_string()), n.to_string().parse::<u64>().ok());
        n *= 2;
    }
    assert_eq!(read_number(&decimal_string(u64::MAX)), Some(u64::MAX));
}
