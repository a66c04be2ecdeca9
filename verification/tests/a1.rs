use quadrille::a1::{
    cell_name, column_index, column_name, parse_cell, parse_columns, parse_range, split_range,
    A1Error, Range,
};

#[test]
fn columns_round_trip_at_every_boundary() {
    for (letters, index) in [
        ("A", 0),
        ("z", 25),
        ("AA", 26),
        ("aB", 27),
        ("AZ", 51),
        ("BA", 52),
        ("ZZ", 701),
        ("AAA", 702),
        ("XFD", 16_383),
        ("XFE", 16_384),
    ] {
        assert_eq!(column_index(letters), Ok(index), "{letters}");
        assert_eq!(column_name(index), letters.to_ascii_uppercase());
    }
    for index in (0..20_000).chain([usize::MAX / 26, usize::MAX - 1]) {
        assert_eq!(column_index(&column_name(index)), Ok(index), "{index}");
    }
    // The one-based value must fit, so usize::MAX itself has a name but no index.
    assert_eq!(
        column_index(&column_name(usize::MAX)),
        Err(A1Error::ColumnTooLarge)
    );
    assert_eq!(
        column_index("ZZZZZZZZZZZZZZZZZZZZZZZZ"),
        Err(A1Error::ColumnTooLarge)
    );
    for bad in ["", " A", "A ", "A1", "Õ", "$A", "-"] {
        assert_eq!(
            column_index(bad),
            Err(A1Error::Letters(bad.into())),
            "{bad:?}"
        );
    }
}

#[test]
fn column_lists_are_sorted_and_unique() {
    assert_eq!(parse_columns("c,b,B"), Ok(vec![1, 2]));
    assert_eq!(parse_columns("XFD"), Ok(vec![16_383]));
    for (bad, letters) in [
        ("", ""),
        ("A,,B", ""),
        ("A, B", " B"),
        ("A,", ""),
        ("B1", "B1"),
    ] {
        assert_eq!(parse_columns(bad), Err(A1Error::Letters(letters.into())));
    }
    assert_eq!(
        parse_columns("A,ZZZZZZZZZZZZZZZZZZZZZZZZ"),
        Err(A1Error::ColumnTooLarge)
    );
}

#[test]
fn cells_parse_and_format() {
    for (text, address, name) in [
        ("A1", (0, 0), "A1"),
        ("aa65", (64, 26), "AA65"),
        ("XFD1048576", (1_048_575, 16_383), "XFD1048576"),
        ("XFE1048577", (1_048_576, 16_384), "XFE1048577"),
        ("B007", (6, 1), "B7"),
        (
            "A18446744073709551615",
            (u64::MAX - 1, 0),
            "A18446744073709551615",
        ),
    ] {
        assert_eq!(parse_cell(text), Ok(address), "{text}");
        assert_eq!(cell_name(address), name);
    }
    for bad in [
        "", "A", "1", "12", "A-1", "A1x", "A1 ", " A1", "🦀1", "$A$1", "A$1", "1A",
    ] {
        assert_eq!(parse_cell(bad), Err(A1Error::Cell), "{bad:?}");
    }
    // Syntax errors win over an oversized column.
    assert_eq!(parse_cell("ZZZZZZZZZZZZZZZZZZZZZZZZ1x"), Err(A1Error::Cell));
    assert_eq!(
        parse_cell("ZZZZZZZZZZZZZZZZZZZZZZZZ1"),
        Err(A1Error::ColumnTooLarge)
    );
    // An oversized column wins over an oversized or zero row.
    assert_eq!(
        parse_cell("ZZZZZZZZZZZZZZZZZZZZZZZZ0"),
        Err(A1Error::ColumnTooLarge)
    );
    assert_eq!(
        parse_cell("A18446744073709551616"),
        Err(A1Error::RowTooLarge)
    );
    assert_eq!(parse_cell("A0"), Err(A1Error::RowZero));
    assert_eq!(parse_cell("A00"), Err(A1Error::RowZero));
}

#[test]
fn ranges_parse_measure_and_format() {
    let range = parse_range("B2:D11").unwrap();
    assert_eq!((range.first, range.last), ((1, 1), (10, 3)));
    assert_eq!((range.rows(), range.columns()), (10, 3));
    assert_eq!(range.to_string(), "B2:D11");
    let single = parse_range("c3").unwrap();
    assert_eq!((single.first, single.last), ((2, 2), (2, 2)));
    assert_eq!((single.rows(), single.columns()), (1, 1));
    assert_eq!(single.to_string(), "C3:C3");
    let ends = |text: &str| split_range(text);
    assert_eq!(ends("A1:B2"), ("A1".into(), "B2".into()));
    assert_eq!(ends("A1"), ("A1".into(), "A1".into()));
    assert_eq!(ends("A1:B2:C3"), ("A1".into(), "B2:C3".into()));
    for (bad, error) in [
        ("B2:A1", A1Error::Reversed),
        ("B1:A2", A1Error::Reversed),
        ("A2:B1", A1Error::Reversed),
        ("A1:B2:C3", A1Error::Cell),
        ("A1:", A1Error::Cell),
        (":A1", A1Error::Cell),
        ("A0:A1", A1Error::RowZero),
        ("A1:A0", A1Error::RowZero),
    ] {
        assert_eq!(parse_range(bad), Err(error), "{bad}");
    }
    assert_eq!(Range::new((0, 0), (0, 0)).unwrap().to_string(), "A1:A1");
}

#[test]
fn errors_read_as_the_cli_reports_them() {
    for (error, text) in [
        (
            A1Error::Letters(" B".into()),
            r#"Use column letters such as B, not " B""#,
        ),
        (A1Error::ColumnTooLarge, "Column address is too large"),
        (A1Error::Cell, "Use a cell address such as B7"),
        (
            A1Error::RowTooLarge,
            "number too large to fit in target type",
        ),
        (A1Error::RowZero, "Rows start at 1"),
        (
            A1Error::Reversed,
            "Range must run from top-left to bottom-right",
        ),
    ] {
        assert_eq!(error.to_string(), text);
        assert_eq!(quadrille::Error::A1(error).to_string(), text);
    }
}

#[test]
fn range_texts_read_back() {
    for range in [
        Range::new((0, 0), (0, 0)).unwrap(),
        Range::new((6, 1), (999_999, 16_383)).unwrap(),
        Range::new((u64::MAX - 1, 26), (u64::MAX - 1, usize::MAX - 1)).unwrap(),
    ] {
        assert_eq!(parse_range(&range.to_string()), Ok(range));
    }
}

#[test]
fn column_letters_escape_what_does_not_print() {
    assert_eq!(
        A1Error::Letters("a\"\n".into()).to_string(),
        "Use column letters such as B, not \"a\\\"\\n\""
    );
}
