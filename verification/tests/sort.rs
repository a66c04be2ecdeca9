use quadrille::ops::{self, Wait};
use quadrille::save::{Destination, Save};
use quadrille::sort::read_number;
use quadrille::{parse_sort, Error, Sheet, SortKey};

fn open(bytes: &[u8]) -> Sheet {
    let mut sheet = Sheet::open("data.csv".into(), bytes.to_vec(), b',').unwrap();
    ops::wait_for_index(&mut sheet, Wait::All).unwrap();
    sheet
}

fn sorted(sheet: &mut Sheet, spec: &str, header: bool) {
    let order = sheet.start_sort(parse_sort(spec).unwrap(), header).unwrap();
    sheet.apply_sort(order).unwrap();
}

fn saved(sheet: &Sheet) -> Vec<u8> {
    let to = Destination {
        extension: "csv".into(),
        is_source: false,
        exists: false,
    };
    match sheet.save_as(&to).unwrap() {
        Save::Csv(bytes) => bytes,
        Save::Native => panic!(),
    }
}

fn records(bytes: &[u8]) -> Vec<csv::StringRecord> {
    csv::ReaderBuilder::new()
        .has_headers(false)
        .flexible(true)
        .from_reader(bytes)
        .records()
        .map(|r| r.unwrap())
        .collect()
}

#[test]
fn multi_column_numeric_sort_keeps_edits_attached_and_saves_visible_order() {
    let original = "\u{feff}group,amount,note\r\nb,2,\"line 1\nline 2\"\r\na,10,ten\r\na,2,two\r\na,2,second two\r\na,,empty\r\nb,9007199254740993,big\r\nb,9007199254740992,smaller";
    let mut sheet = open(original.as_bytes());
    sheet.set(3, 2, "before sort".into()).unwrap();
    sorted(&mut sheet, "A,B:n", true);
    let rows = sheet.window(0, 8);
    assert_eq!(
        rows.iter().map(|r| r[1].as_str()).collect::<Vec<_>>(),
        [
            "amount",
            "2",
            "2",
            "10",
            "",
            "2",
            "9007199254740992",
            "9007199254740993"
        ]
    );
    assert_eq!(sheet.value(1, 2, &rows[1][2]), "before sort");
    sheet.set(1, 2, "after sort".into()).unwrap();
    let output = saved(&sheet);
    let values = records(&output);
    assert_eq!(values.len(), 8);
    assert_eq!(&values[1][2], "after sort");
    assert_eq!(&values[5][2], "line 1\nline 2");
    assert!(output.starts_with(b"\xef\xbb\xbf"));
    assert_eq!(
        String::from_utf8(output).unwrap(),
        "\u{feff}group,amount,note\na,2,after sort\na,2,second two\na,10,ten\na,,empty\nb,2,\"line 1\nline 2\"\nb,9007199254740992,smaller\nb,9007199254740993,big\n"
    );
    assert!(sheet.undo());
    assert_eq!(sheet.value(1, 2, &rows[1][2]), "before sort");
    sheet.clear_sort();
    assert_eq!(sheet.value(3, 2, "two"), "before sort");
    assert!(sheet.undo());
    assert_eq!(saved(&sheet), original.as_bytes());
    assert_eq!(sheet.data, original.as_bytes());
}

#[test]
fn sort_failures_keep_order_and_do_not_round_large_numbers() {
    for invalid in [
        "",
        "A1",
        "A,,B",
        "A,A",
        "A:x",
        "-",
        "AAAAAAAAAAAAAAAAAAAAAAAA",
    ] {
        assert!(parse_sort(invalid).is_err(), "{invalid}");
    }
    let mut sheet = open(b"3,x\n2,y\n1,z");
    sorted(&mut sheet, "A:n", false);
    assert_eq!(sheet.window(0, 1)[0][0], "1");
    sorted(&mut sheet, "-A:n", false);
    assert_eq!(sheet.window(0, 1)[0][0], "3");
    assert!(sheet.start_sort(parse_sort("B:n").unwrap(), false).is_err());
    assert_eq!(sheet.window(0, 1)[0][0], "3");
    let stale = sheet.start_sort(parse_sort("A").unwrap(), false).unwrap();
    sheet.set(0, 0, "4".into()).unwrap();
    assert!(sheet.apply_sort(stale).is_err());
    sheet
        .set(1, 0, "0.00000000000000000000000000001".into())
        .unwrap();
    assert!(sheet.start_sort(parse_sort("A:n").unwrap(), false).is_err());
}

#[test]
fn specifications_trim_signs_and_suffixes() {
    let key = |column, descending, numeric| SortKey {
        column,
        descending,
        numeric,
    };
    assert_eq!(
        parse_sort(" b , -AA:n,+c\u{a0}").unwrap(),
        [key(1, false, false), key(26, true, true), key(2, false, false)]
    );
    for (spec, message) in [
        (
            "A,b2",
            "Use column letters, commas, - for descending and :n for numbers; e.g. B,-D:n",
        ),
        ("B,-b:n", "A sort column may only appear once"),
        ("ZZZZZZZZZZZZZZZZZZZZZZZZ", "Column is too large"),
    ] {
        assert_eq!(parse_sort(spec).unwrap_err().to_string(), message);
    }
}

#[test]
fn numbers_compare_by_value_and_empties_come_last() {
    let data = b"n\n10\n9.5\n\n-1\n 9.50 \n0.1\n-0\n\"\"\n1e2\n";
    let sheet = open(data);
    let error = sheet
        .start_sort(parse_sort("A:n").unwrap(), true)
        .unwrap_err();
    assert_eq!(
        error.to_string(),
        "Record 9, column 1 is not an exact decimal (maximum scale 28); choose text sorting for mixed values"
    );
    let mut sheet = open(b"n\n10\n9.5\n-1\n 9.50 \n0.1\n-0\n\"\"\n100000000000000000000\n");
    sorted(&mut sheet, "A:n", true);
    let column: Vec<String> = sheet.window(0, 9).into_iter().map(|r| r[0].clone()).collect();
    assert_eq!(
        column,
        ["n", "-1", "-0", "0.1", "9.5", " 9.50 ", "10", "100000000000000000000", ""]
    );
    sorted(&mut sheet, "-A:n", true);
    let column: Vec<String> = sheet.window(0, 9).into_iter().map(|r| r[0].clone()).collect();
    assert_eq!(
        column,
        ["n", "100000000000000000000", "10", "9.5", " 9.50 ", "0.1", "-0", "-1", ""]
    );
    assert_eq!(
        (0..9).map(|row| sheet.source_row(row)).collect::<Vec<_>>(),
        [0, 8, 1, 2, 4, 5, 6, 3, 7]
    );
}

#[test]
fn sorts_are_refused_before_they_start() {
    let mut unready = Sheet::open("data.csv".into(), b"b\na\n".to_vec(), b',').unwrap();
    let message = |sheet: &Sheet, spec: Vec<SortKey>, header: bool| {
        sheet.start_sort(spec, header).unwrap_err().to_string()
    };
    let keys = || parse_sort("A").unwrap();
    assert_eq!(
        message(&unready, keys(), false),
        "Wait for indexing to finish before sorting"
    );
    ops::wait_for_index(&mut unready, Wait::All).unwrap();
    assert_eq!(
        message(&unready, Vec::new(), false),
        "Choose at least one sort column"
    );
    assert_eq!(
        message(&unready, parse_sort("C").unwrap(), true),
        "Sort column 3 is outside the header"
    );
    let many: Vec<SortKey> = (0..20_000_000)
        .map(|column| SortKey {
            column,
            descending: false,
            numeric: false,
        })
        .collect();
    assert_eq!(
        message(&unready, many, false),
        "Sort keys exceed the 512 MiB budget; try fewer columns. Disk-backed sorting is not implemented yet"
    );
}

#[test]
fn numbers_are_read_up_to_a_length() {
    let zeros = |n: usize| format!("{}7", "0".repeat(n - 1));
    assert_eq!(read_number(&zeros(512)), read_number("7"));
    assert!(read_number("7").is_some());
    assert_eq!(read_number(&zeros(513)), None);
    assert_eq!(read_number(&format!("1{}", "_".repeat(100_000))), None);
    let mut sheet = open(b"2\n1\n");
    sheet.set(0, 0, format!(" {} ", zeros(512))).unwrap();
    sorted(&mut sheet, "A:n", false);
    assert_eq!(sheet.window(0, 1)[0][0], "1");
    sheet.set(0, 0, zeros(513)).unwrap();
    let refused = sheet.start_sort(parse_sort("A:n").unwrap(), false);
    assert_eq!(refused.err().unwrap(), Error::NotDecimal(2, 1));
}
