use pandoc_norg_converter::table::{consume_while, parse_row, parse_table_location, TableParsingError};

#[test]
fn test_parse_row() {
    assert_eq!(parse_row("C"), 2);
    assert_eq!(parse_row("F"), 5);
    assert_eq!(parse_row("AC"), 28);
    assert_eq!(parse_row("ABC"), 730);
}

#[test]
fn test_parse_table_location() {
    assert_eq!(parse_table_location("C1"), Ok((2, 0)));
    assert_eq!(parse_table_location("AC21"), Ok((28, 20)));
    assert_eq!(
        parse_table_location("1C"),
        Err(TableParsingError::InvalidLocation)
    );
    assert_eq!(
        parse_table_location("C1C"),
        Err(TableParsingError::InvalidLocation)
    );
    assert_eq!(
        parse_table_location(".?;"),
        Err(TableParsingError::InvalidLocation)
    );
}

#[test]
fn location_rejects_zero_column() {
    // The column is one-based: a leading zero digit is not a valid start.
    assert_eq!(
        parse_table_location("A0"),
        Err(TableParsingError::InvalidLocation)
    );
}

#[test]
fn location_rejects_empty_and_letters_only() {
    assert_eq!(
        parse_table_location(""),
        Err(TableParsingError::InvalidLocation)
    );
    assert_eq!(
        parse_table_location("ABC"),
        Err(TableParsingError::InvalidLocation)
    );
}

#[test]
fn location_overflow_is_invalid() {
    // A column value beyond the machine word is reported, not wrapped.
    assert_eq!(
        parse_table_location("A99999999999999999999999999"),
        Err(TableParsingError::InvalidLocation)
    );
}

#[test]
fn consume_while_splits_at_the_first_rejection() {
    let (taken, rest) = consume_while("ABC12", |c| 'A' <= c && c <= 'Z');
    assert_eq!(taken, "ABC");
    assert_eq!(rest, "12");
}
