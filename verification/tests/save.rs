use quadrille::ops::{self, Wait};
use quadrille::save::{Destination, Save};
use quadrille::Sheet;

fn open(bytes: &[u8], delimiter: u8) -> Sheet {
    let mut sheet = Sheet::open("data.csv".into(), bytes.to_vec(), delimiter).unwrap();
    ops::wait_for_index(&mut sheet, Wait::All).unwrap();
    sheet
}

fn to(extension: &str, is_source: bool, exists: bool) -> Destination {
    Destination {
        extension: extension.into(),
        is_source,
        exists,
    }
}

fn saved(sheet: &Sheet) -> Vec<u8> {
    match sheet.save_as(&to("csv", false, false)).unwrap() {
        Save::Csv(bytes) => bytes,
        Save::Native => panic!(),
    }
}

#[test]
fn csv_edit_save_and_undo_preserve_data_and_untouched_bytes() {
    for (case, bytes, delimiter) in [
        ("lf", b"id,name,note\n00123,\"Tallinn\",\"line 1\nline 2\"\n00456,\"Tartu\",\"a \"\"quote\"\"\"".as_slice(), b','),
        ("crlf", b"\xef\xbb\xbfid;name;note\r\n\r\n00123;\"Tallinn\";\"line 1\r\nline 2\"\r\n00456;\"Tartu\";\"a \"\"quote\"\"\"\r\n".as_slice(), b';'),
        ("blank", b"\n\nid,name,note\n\n00123,Tallinn,note\n\n00456,Tartu,last\n\n".as_slice(), b','),
    ] {
        let mut sheet = open(bytes, delimiter);
        assert_eq!(sheet.progress().rows, 3);
        assert_eq!(sheet.window(1, 1)[0][0], "00123");
        assert_eq!(saved(&sheet), bytes, "{case}");
        sheet.set(1, 1, "New, \"quoted\"\ncity 🦀".into()).unwrap();
        sheet.set(1, 0, "00000".into()).unwrap();
        sheet.set(2, 2, String::new()).unwrap();
        let written = saved(&sheet);
        let copy = open(&written, delimiter);
        let records = copy.window(0, 9);
        assert_eq!(records.len(), 3);
        assert_eq!(records[1][0], "00000");
        assert_eq!(records[1][1], "New, \"quoted\"\ncity 🦀");
        assert_eq!(records[2][2], "");
        assert!(written.starts_with(&bytes[..bytes.iter().position(|&b| b == b'\n').unwrap() + 1]));
        assert_eq!(sheet.data, bytes);
        // The source itself may be replaced; any other file that exists may not.
        assert!(sheet.save_as(&to("csv", true, true)).is_ok());
        assert!(sheet.save_as(&to("csv", false, true)).is_err());
        assert!(sheet.undo());
        assert!(sheet.undo());
        assert!(sheet.undo());
        assert!(!sheet.undo());
        assert_eq!(sheet.edit_count(), 0);
        assert_eq!(saved(&sheet), bytes);
    }
}

#[test]
fn sparse_seeks_ragged_rows_and_external_changes() {
    let mut writer = csv::WriterBuilder::new()
        .flexible(true)
        .from_writer(Vec::new());
    for i in 0..1000 {
        writer
            .write_record([i.to_string(), format!("line {i}\nsecond line")])
            .unwrap();
    }
    writer.write_record(["ragged"]).unwrap();
    let mut sheet = open(&writer.into_inner().unwrap(), b',');
    assert_eq!(sheet.progress().rows, 1001);
    assert_eq!(sheet.progress().index_bytes, 8 * 16);
    for row in [0, 1, 63, 64, 65, 127, 128, 999] {
        assert_eq!(sheet.window(row, 1)[0][0], row.to_string());
    }
    assert_eq!(sheet.window(998, 50).len(), 3);
    assert!(sheet.window(1001, 50).is_empty());
    sheet.set(64, 0, "changed".into()).unwrap();
    sheet.set(999, 1, "last".into()).unwrap();
    let copied = open(&saved(&sheet), b',');
    assert_eq!(copied.window(64, 1)[0][0], "changed");
    assert_eq!(copied.window(999, 1)[0][1], "last");
    assert!(sheet.set(1000, 1, "missing".into()).is_err());
}

#[test]
fn empty_invalid_utf8_and_destination_races() {
    let empty = open(b"", b',');
    assert_eq!(empty.progress().rows, 0);
    assert!(empty.window(0, 50).is_empty());
    assert!(saved(&empty).is_empty());
    let mut invalid = Sheet::open("bad.csv".into(), b"a,b\n\xff,c\n".to_vec(), b',').unwrap();
    assert!(ops::wait_for_index(&mut invalid, Wait::All).is_err());
    assert!(invalid.progress().done);
    assert_eq!(
        invalid.progress().error.as_deref(),
        Some("CSV parse error: record 1 (line 2, field: 0, byte: 4): invalid utf-8: invalid UTF-8 in field 0 near byte index 0")
    );
    assert!(invalid.save_as(&to("csv", false, false)).is_err());
    assert!(invalid.set(0, 0, "x".into()).is_err());
}

#[test]
fn destinations_are_refused_by_rule() {
    let mut sheet = Sheet::open("data.csv".into(), b"a\n".to_vec(), b',').unwrap();
    let error = |sheet: &Sheet, to: &Destination| sheet.save_as(to).unwrap_err().to_string();
    assert_eq!(
        error(&sheet, &to("csv", false, false)),
        "Wait for indexing to finish before saving"
    );
    ops::wait_for_index(&mut sheet, Wait::All).unwrap();
    assert_eq!(
        error(&sheet, &to("csv", false, true)),
        "Destination already exists; choose a new filename"
    );
    for extension in ["xlsx", "ods"] {
        assert_eq!(
            error(&sheet, &to(extension, false, false)),
            "CSV to workbook conversion is not supported; use a CSV destination"
        );
    }
    sheet.edits.insert((0, 3), "x".into());
    assert_eq!(
        error(&sheet, &to("csv", false, false)),
        "Edited column no longer exists"
    );
    let order = sheet
        .start_sort(quadrille::parse_sort("A").unwrap(), false)
        .unwrap();
    sheet.apply_sort(order).unwrap();
    assert_eq!(
        error(&sheet, &to("csv", false, false)),
        "Missing edited column during save"
    );
}

#[test]
fn delimiters_are_checked() {
    for bad in [b'\r', b'\n', b'"', 0, 128, 255] {
        assert_eq!(
            Sheet::open("data.csv".into(), Vec::new(), bad)
                .err()
                .unwrap()
                .to_string(),
            "Delimiter must be a single ASCII byte other than a quote, CR, LF or NUL"
        );
    }
    let sheet = open(b"a\tb\n1\t2\n", b'\t');
    assert_eq!(sheet.window(0, 2), [["a", "b"], ["1", "2"]]);
}

#[test]
fn only_the_content_of_edited_records_changes() {
    let mut sheet = open(b"\xef\xbb\xbf\r\n a ,\"b\"\r\nc,d\re,f", b',');
    sheet.set(0, 1, "x y".into()).unwrap();
    sheet.set(2, 0, "1,2".into()).unwrap();
    assert_eq!(
        saved(&sheet),
        b"\xef\xbb\xbf\r\n a ,x y\r\nc,d\r\"1,2\",f"
    );
    assert!(sheet.is_edited(0, 1) && !sheet.is_edited(1, 1));
    // Back to the stored text leaves no edit.
    sheet.set(0, 1, "b".into()).unwrap();
    assert!(!sheet.is_edited(0, 1));
    assert_eq!(sheet.edit_count(), 1);
}

#[test]
fn a_mark_inside_the_source_stays_in_its_value() {
    let sheet = open("\u{feff}a,b\n\u{feff}c,d\n".as_bytes(), b',');
    assert_eq!(sheet.window(0, 2), [["a", "b"], ["\u{feff}c", "d"]]);
}

#[test]
fn an_open_quote_leaves_blank_lines_behind_the_new_values() {
    let mut sheet = open(b"a\n\"b\n\n", b',');
    assert_eq!(sheet.window(1, 1)[0], ["b\n\n"]);
    sheet.set(1, 0, "c".into()).unwrap();
    assert_eq!(saved(&sheet), b"a\nc\n\n");
    let again = open(&saved(&sheet), b',');
    assert_eq!(again.index.rows, 2);
    assert_eq!(again.window(0, 9), [["a"], ["c"]]);
}
