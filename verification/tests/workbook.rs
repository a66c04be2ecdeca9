//! Workbook sheets and headless operations on packages built here.
use quadrille::a1::{self, parse_range};
use quadrille::book::{choose_sheet, import, open_as, Grid};
use quadrille::json::Json;
use quadrille::native::Native;
use quadrille::ops::{self, Change, Changes, Read, Report, Sorted, Source, Wait};
use quadrille::save::{Destination, Save};
use quadrille::stamp::Stamp;
use quadrille::workbook::{address, cell_range, Format};
use quadrille::{package, scan, tree, xml};
use quadrille::{Error, FindQuery, FindResult, Sheet};
use serde_json::Value;
use std::io::{Cursor, Write};
use zip::write::SimpleFileOptions;
use zip::ZipWriter;

const CSV: &str = "id,name,note\n00123,Tallinn,\"line 1\nline 2\"\n00456,Tartu\n";

fn pack(entries: &[(&str, String)]) -> Vec<u8> {
    let mut zip = ZipWriter::new(Cursor::new(Vec::new()));
    for (name, text) in entries {
        zip.start_file(*name, SimpleFileOptions::default()).unwrap();
        zip.write_all(text.as_bytes()).unwrap();
    }
    zip.finish().unwrap().into_inner()
}

const X: &str = "http://schemas.openxmlformats.org/spreadsheetml/2006/main";
const R: &str = "http://schemas.openxmlformats.org/officeDocument/2006/relationships";
const P: &str = "http://schemas.openxmlformats.org/package/2006/relationships";
const T: &str = "urn:oasis:names:tc:opendocument:xmlns:table:1.0";
const O: &str = "urn:oasis:names:tc:opendocument:xmlns:office:1.0";
const TX: &str = "urn:oasis:names:tc:opendocument:xmlns:text:1.0";

/// Data: A1:E5 with a cached formula (D2), an uncached one (E2) and blank rows/cells.
fn book_xlsx() -> Vec<u8> {
    let inline = |r: &str, t: &str| format!(r#"<c r="{r}" t="inlineStr"><is><t>{t}</t></is></c>"#);
    let data = format!(
        r#"<worksheet xmlns="{X}"><sheetData><row r="1">{}{}{}{}</row><row r="2">{}<c r="B2"><v>10</v></c>{}<c r="D2"><f>SUM(B2:B3)</f><v>12</v></c><c r="E2"><f>1+1</f></c></row><row r="3">{}<c r="B3"><v>2</v></c></row><row r="5">{}</row></sheetData></worksheet>"#,
        inline("A1", "id"),
        inline("B1", "amount"),
        inline("C1", "note"),
        inline("D1", "formula"),
        inline("A2", "00123"),
        inline("C2", "Tallinn"),
        inline("A3", "00456"),
        inline("C5", "end"),
    );
    pack(&[
        ("[Content_Types].xml", r#"<Types xmlns="http://schemas.openxmlformats.org/package/2006/content-types"><Default Extension="rels" ContentType="application/vnd.openxmlformats-package.relationships+xml"/><Default Extension="xml" ContentType="application/xml"/><Override PartName="/xl/workbook.xml" ContentType="application/vnd.openxmlformats-officedocument.spreadsheetml.sheet.main+xml"/><Override PartName="/xl/worksheets/sheet1.xml" ContentType="application/vnd.openxmlformats-officedocument.spreadsheetml.worksheet+xml"/><Override PartName="/xl/worksheets/sheet2.xml" ContentType="application/vnd.openxmlformats-officedocument.spreadsheetml.worksheet+xml"/></Types>"#.into()),
        ("_rels/.rels", format!(r#"<Relationships xmlns="{P}"><Relationship Id="b" Type="{R}/officeDocument" Target="xl/workbook.xml"/></Relationships>"#)),
        ("xl/workbook.xml", format!(r#"<workbook xmlns="{X}" xmlns:r="{R}"><sheets><sheet name="Data" sheetId="1" r:id="r1"/><sheet name="Notes õ" sheetId="2" r:id="r2"/></sheets></workbook>"#)),
        ("xl/_rels/workbook.xml.rels", format!(r#"<Relationships xmlns="{P}"><Relationship Id="r1" Type="{R}/worksheet" Target="worksheets/sheet1.xml"/><Relationship Id="r2" Type="{R}/worksheet" Target="worksheets/sheet2.xml"/></Relationships>"#)),
        ("xl/worksheets/sheet1.xml", data),
        ("xl/worksheets/sheet2.xml", format!(r#"<worksheet xmlns="{X}"><sheetData><row r="3">{}</row></sheetData></worksheet>"#, inline("B3", "Tallinn notes"))),
    ])
}

/// The same Data layout, with ODS formulas in D2 (cached) and E2 (uncached).
fn book_ods() -> Vec<u8> {
    let text = |t: &str| {
        format!(
            r#"<table:table-cell office:value-type="string"><text:p>{t}</text:p></table:table-cell>"#
        )
    };
    let float = |v: &str| {
        format!(
            r#"<table:table-cell office:value-type="float" office:value="{v}"><text:p>{v}</text:p></table:table-cell>"#
        )
    };
    let content = format!(
        r#"<office:document-content xmlns:office="{O}" xmlns:table="{T}" xmlns:text="{TX}" xmlns:of="urn:oasis:names:tc:opendocument:xmlns:of:1.2" office:version="1.2"><office:body><office:spreadsheet><table:table table:name="Data"><table:table-row>{}{}{}{}</table:table-row><table:table-row>{}{}{}<table:table-cell table:formula="of:=SUM([.B2:.B3])" office:value-type="float" office:value="12"><text:p>12</text:p></table:table-cell><table:table-cell table:formula="of:=1+1"/></table:table-row><table:table-row>{}{}</table:table-row><table:table-row/><table:table-row><table:table-cell table:number-columns-repeated="2"/>{}</table:table-row></table:table><table:table table:name="Notes õ"><table:table-row table:number-rows-repeated="2"/><table:table-row><table:table-cell/>{}</table:table-row></table:table></office:spreadsheet></office:body></office:document-content>"#,
        text("id"),
        text("amount"),
        text("note"),
        text("formula"),
        text("00123"),
        float("10"),
        text("Tallinn"),
        text("00456"),
        float("2"),
        text("end"),
        text("Tallinn notes"),
    );
    pack(&[
        ("mimetype", "application/vnd.oasis.opendocument.spreadsheet".into()),
        ("META-INF/manifest.xml", r#"<manifest:manifest xmlns:manifest="urn:oasis:names:tc:opendocument:xmlns:manifest:1.0" manifest:version="1.2"><manifest:file-entry manifest:full-path="/" manifest:media-type="application/vnd.oasis.opendocument.spreadsheet"/><manifest:file-entry manifest:full-path="content.xml" manifest:media-type="text/xml"/></manifest:manifest>"#.into()),
        ("content.xml", content),
    ])
}

fn open_sheet(
    path: &str,
    data: &[u8],
    extension: &str,
    delimiter: u8,
    sheet: &Option<String>,
) -> Result<Sheet, String> {
    let say = |error: quadrille::Error| error.to_string();
    match open_as(extension, delimiter, sheet).map_err(say)? {
        None => Sheet::open(path.into(), data.to_vec(), delimiter).map_err(say),
        Some(format) => match quadrille::book::open_sheet(path.into(), data, format, sheet) {
            Some(opened) => opened.map_err(say),
            None => panic!("the cells of the sheet cannot be read"),
        },
    }
}

fn value(json: &Json) -> Value {
    match json {
        Json::Null => Value::Null,
        Json::Bool(b) => Value::Bool(*b),
        Json::Number(n) => Value::from(*n),
        Json::Real(text) => Value::from(text.parse::<f64>().unwrap()),
        Json::Text(text) => Value::from(text.as_str()),
        Json::List(list) => Value::Array(list.iter().map(value).collect()),
        Json::Object(fields) => {
            Value::Object(fields.iter().map(|(key, v)| (key.clone(), value(v))).collect())
        }
    }
}

fn v(text: &str) -> Value {
    serde_json::from_str(text).unwrap()
}

fn csv() -> Sheet {
    let mut sheet = Sheet::open("/work/data.csv".into(), CSV.into(), b',').unwrap();
    ops::wait_for_index(&mut sheet, Wait::All).unwrap();
    sheet
}

fn open(data: &[u8], extension: &str, name: Option<&str>) -> Sheet {
    let path = format!("/work/book.{extension}");
    let name = name.map(str::to_owned);
    let mut sheet = open_sheet(&path, data, extension, b',', &name).unwrap();
    ops::wait_for_index(&mut sheet, Wait::All).unwrap();
    sheet
}

fn error<T: std::fmt::Debug>(result: Result<T, Error>) -> String {
    result.unwrap_err().to_string()
}

fn query(text: &str, exact: bool) -> FindQuery {
    FindQuery {
        text: text.into(),
        exact,
        ..FindQuery::default()
    }
}

fn cells(result: &FindResult) -> Vec<(u64, usize, &str)> {
    result
        .matches
        .iter()
        .map(|&((row, col), ref value)| (row, col, value.as_str()))
        .collect()
}

fn find(sheet: &Sheet, text: &str, exact: bool) -> Vec<(u64, usize, String)> {
    let result = sheet.find(&query(text, exact), (0, 0), 1000).unwrap();
    assert_eq!(result.next, None);
    cells(&result)
        .into_iter()
        .map(|(row, col, value)| (row, col, value.to_owned()))
        .collect()
}

fn paged(sheet: &Sheet, query: &FindQuery, expected: &FindResult) {
    for limit in 1..=expected.matches.len() + 1 {
        let (mut from, mut seen) = ((0, 0), Vec::new());
        loop {
            let page = sheet.find(query, from, limit).unwrap();
            assert_eq!(page.next.is_some(), page.matches.len() == limit);
            seen.extend(page.matches);
            match page.next {
                Some(next) => from = next,
                None => break,
            }
        }
        assert_eq!(seen, expected.matches, "limit {limit}");
    }
}

#[test]
fn addresses_strip_anchors_and_keep_workbook_bounds_and_wording() {
    for (text, at) in [
        ("A1", (0, 0)),
        ("$A$1", (0, 0)),
        ("a$65", (64, 0)),
        ("$$B$2$", (1, 1)),
        ("XFD1048576", (1_048_575, 16_383)),
    ] {
        assert_eq!(address(text).unwrap(), at, "{text}");
    }
    for (text, message) in [
        ("", "Invalid workbook cell address"),
        ("A", "Invalid workbook cell address"),
        ("1", "Invalid workbook cell address"),
        ("A1x", "Invalid workbook cell address"),
        ("Õ1", "Invalid workbook cell address"),
        ("ZZZZZZZZZZZZZZZZZZZZZZZZ1", "Workbook column overflow"),
        (
            "A18446744073709551616",
            "number too large to fit in target type",
        ),
        ("A0", "Workbook rows start at 1"),
        ("$A$0", "Workbook rows start at 1"),
        ("XFE1", "Workbook cell exceeds supported sheet dimensions"),
        (
            "A1048577",
            "Workbook cell exceeds supported sheet dimensions",
        ),
    ] {
        assert_eq!(error(address(text)), message, "{text}");
    }
}

#[test]
fn cell_ranges_use_workbook_wording() {
    assert_eq!(cell_range("A1:$D$5").unwrap(), ((0, 0), (4, 3)));
    assert_eq!(cell_range("B2").unwrap(), ((1, 1), (1, 1)));
    assert_eq!(error(cell_range("B2:A1")), "Invalid workbook cell range");
    assert_eq!(error(cell_range("A1:B")), "Invalid workbook cell address");
    assert_eq!(error(cell_range("A0:B1")), "Workbook rows start at 1");
    assert_eq!(
        error(cell_range("A1:XFE1")),
        "Workbook cell exceeds supported sheet dimensions"
    );
}

#[test]
fn workbook_values_and_blank_rectangle() {
    for (data, extension) in [(book_xlsx(), "xlsx"), (book_ods(), "ods")] {
        let mut sheet = open(&data, extension, None);
        let name = sheet.format().to_owned();
        let s = |v: &str| v.to_owned();
        // Cached result present: its value is searched, never the formula text.
        assert_eq!(find(&sheet, "12", true), [(1, 3, s("12"))], "{name}");
        assert!(find(&sheet, "SUM", false).is_empty(), "{name}");
        assert!(find(&sheet, "1+1", false).is_empty(), "{name}");
        // Blanks inside A1:E5 are searched (including the uncached E2), none beyond it.
        let blanks = [
            (0, 4),
            (1, 4),
            (2, 2),
            (2, 3),
            (2, 4),
            (3, 0),
            (3, 1),
            (3, 2),
            (3, 3),
            (3, 4),
            (4, 0),
            (4, 1),
            (4, 3),
            (4, 4),
        ];
        let empty = find(&sheet, "", true);
        assert_eq!(
            empty,
            blanks.map(|(row, col)| (row, col, String::new())),
            "{name}"
        );
        let all = sheet.find(&query("", true), (0, 0), 1000).unwrap();
        paged(&sheet, &query("", true), &all);
        let rest = sheet.find(&query("", true), (4, 2), 1).unwrap();
        assert_eq!((cells(&rest), rest.next), (vec![(4, 3, "")], Some((4, 4))));
        assert_eq!(find(&sheet, "end", true), [(4, 2, s("end"))]);
        // Editing an input leaves the cached result stale, as a read shows it.
        sheet.set(1, 1, "100".into()).unwrap();
        assert_eq!(find(&sheet, "100", false), [(1, 1, s("100"))]);
        assert!(find(&sheet, "10", true).is_empty());
        assert_eq!(find(&sheet, "12", true), [(1, 3, s("12"))]);
        assert!(sheet.set(1, 3, "13".into()).is_err());
        let notes = open(&data, extension, Some("Notes õ"));
        assert_eq!(find(&notes, "Tallinn", false), [(2, 1, s("Tallinn notes"))]);
        assert_eq!(find(&sheet, "Tallinn", false), [(1, 2, s("Tallinn"))]);
    }
}

#[test]
fn xlsx_formula_overlay_and_edits_beyond_the_rectangle() {
    let mut sheet = open(&book_xlsx(), "xlsx", None);
    sheet.set(1, 6, "=SUM(B2:B3)".into()).unwrap();
    sheet.set(1, 16_383, "far".into()).unwrap();
    sheet.set(4, 16_383, "=far".into()).unwrap();
    let far = sheet.find(&query("far", false), (0, 0), 1000).unwrap();
    assert_eq!(cells(&far), [(1, 16_383, "far"), (4, 16_383, "=far")]);
    paged(&sheet, &query("far", false), &far);
    let first = sheet.find(&query("far", false), (0, 0), 1).unwrap();
    assert_eq!(first.next, Some((1, 16_384)));
    let empty = sheet.find(&query("far", true), (4, 16_384), 1).unwrap();
    assert_eq!((empty.matches.len(), empty.next), (0, None));
    assert_eq!(
        cells(&sheet.find(&query("=SUM", false), (0, 0), 9).unwrap()),
        [(1, 6, "=SUM(B2:B3)")]
    );
    // Unedited virtual columns beyond the rectangle are not searched.
    let filtered = FindQuery {
        columns: Some(vec![5, 6, 7]),
        ..query("", true)
    };
    assert!(sheet.find(&filtered, (0, 0), 9).unwrap().matches.is_empty());
    let blank = sheet.find(&query("", true), (1, 5), 9).unwrap();
    assert_eq!(cells(&blank)[0], (2, 2, ""));
}

fn entry(fields: &[(&str, Json)]) -> Json {
    let copy = |value: &Json| match value {
        Json::Text(text) => Json::Text(text.clone()),
        Json::Number(n) => Json::Number(*n),
        _ => Json::Null,
    };
    Json::Object(
        fields.iter().map(|(key, value)| (key.to_string(), copy(value))).collect(),
    )
}

#[test]
fn patch_entries_parse_or_fail_in_order() {
    let t = |text: &str| Json::Text(text.into());
    let edits = |value: Json| ops::parse_edits(&value);
    assert_eq!(
        edits(Json::List(vec![
            entry(&[("cell", t("B2")), ("value", t("x"))]),
            entry(&[("cell", t("aa65")), ("value", t(""))]),
        ]))
        .unwrap(),
        [((1, 1), "x".into()), ((64, 26), String::new())]
    );
    assert!(edits(Json::List(vec![])).unwrap().is_empty());
    for (patch, message) in [
        (
            Json::Object(vec![]),
            "Patch must be an array of {cell, value} objects",
        ),
        (
            t("B2"),
            "Patch must be an array of {cell, value} objects",
        ),
        (
            Json::List(vec![Json::Number(1)]),
            "Each patch entry must be an object",
        ),
        (
            Json::List(vec![entry(&[("cell", t("A1"))])]),
            "Each patch entry must contain only cell and value",
        ),
        (
            Json::List(vec![entry(&[
                ("cell", t("A1")),
                ("note", t("y")),
                ("value", t("x")),
            ])]),
            "Each patch entry must contain only cell and value",
        ),
        (
            Json::List(vec![entry(&[("cell", Json::Number(1)), ("value", t("x"))])]),
            "Patch cell must be an A1-style string",
        ),
        (
            Json::List(vec![entry(&[("a", t("A1")), ("b", t("x"))])]),
            "Patch cell must be an A1-style string",
        ),
        (
            Json::List(vec![entry(&[("cell", t("A1")), ("value", Json::Number(1))])]),
            "Patch value must be a string; no automatic type conversion",
        ),
        (
            Json::List(vec![entry(&[("cell", t("A1")), ("value", Json::Null)])]),
            "Patch value must be a string; no automatic type conversion",
        ),
        (
            Json::List(vec![entry(&[("cell", t("A0")), ("value", t("x"))])]),
            "Rows start at 1",
        ),
        (
            Json::List(vec![entry(&[("cell", t("$A$1")), ("value", t("x"))])]),
            "Use a cell address such as B7",
        ),
        // The first bad entry wins; within an entry the value is checked before the cell.
        (
            Json::List(vec![
                entry(&[("cell", t("A0")), ("value", Json::Number(1))]),
                Json::Number(1),
            ]),
            "Patch value must be a string; no automatic type conversion",
        ),
        (
            Json::List(vec![
                entry(&[("cell", t("A0")), ("value", t("x"))]),
                Json::Number(1),
            ]),
            "Rows start at 1",
        ),
    ] {
        let shown = format!("{patch:?}");
        assert_eq!(error(edits(patch)), message, "{shown}");
    }
}

#[test]
fn edits_report_net_changes_by_cell() {
    let mut sheet = csv();
    let changes = ops::apply_edits(
        &mut sheet,
        vec![
            ((2, 0), "x".into()),
            ((1, 2), "c".into()),
            ((2, 0), "y".into()),
            ((1, 0), "00123".into()),
            ((1, 1), "gone".into()),
            ((1, 1), "Tallinn".into()),
        ],
    )
    .unwrap();
    let change = |cell, before: &str, after: &str| Change {
        cell,
        before: before.into(),
        after: after.into(),
    };
    assert_eq!(
        changes,
        Changes(vec![
            change((1, 2), "line 1\nline 2", "c"),
            change((2, 0), "00456", "y")
        ])
    );
    assert_eq!(
        value(&changes.to_json()),
        v(r#"[
            {"cell": "C2", "before": "line 1\nline 2", "after": "c"},
            {"cell": "A3", "before": "00456", "after": "y"}
        ]"#)
    );
    assert_eq!(sheet.edit_count(), 2);
    assert_eq!(
        ops::apply_edits(&mut sheet, vec![]).unwrap(),
        Changes(vec![])
    );
    assert_eq!(value(&Changes(vec![]).to_json()), v("[]"));
    // A ragged record has no field to edit; earlier edits of the batch stay applied.
    assert_eq!(
        error(ops::apply_edits(
            &mut sheet,
            vec![((0, 0), "ID".into()), ((2, 2), "x".into())]
        )),
        "No cell at this position"
    );
    assert_eq!(sheet.edit_count(), 3);
}

#[test]
fn reads_are_bounded_and_show_edits_formulas_and_sorting() {
    let range = |text: &str| parse_range(text).unwrap();
    let widest = format!("A1:{}1", a1::column_name(ops::READ_CELLS - 1));
    let too_wide = format!("A1:{}1", a1::column_name(ops::READ_CELLS));
    for (text, ok) in [
        ("A1:A10000", true),
        ("A1:A10001", false),
        ("B2:B10001", true),
        ("A1:J10000", true),
        ("A1:K10000", false),
        (&widest, true),
        (&too_wide, false),
        ("A1:ZZZ100", false),
    ] {
        assert_eq!(ops::read_range(text).is_ok(), ok, "{text}");
    }
    // Rows × columns beyond usize is refused, not wrapped.
    let huge = format!("A1:{}2", a1::column_name(usize::MAX - 1));
    assert_eq!(
        error(ops::read_range(&huge)),
        "Read at most 100,000 cells and 10,000 rows at a time; request large datasets in chunks"
    );
    assert_eq!(
        error(ops::read_range("B2:A1")),
        "Range must run from top-left to bottom-right"
    );
    assert_eq!(error(ops::read_range("A0")), "Rows start at 1");

    let mut sheet = csv();
    ops::apply_edits(&mut sheet, vec![((1, 1), "changed".into())]).unwrap();
    let read = ops::read(&mut sheet, ops::read_range("A2:D3").unwrap()).unwrap();
    let text = |v: &str| Some(v.to_owned());
    assert_eq!(
        read,
        Read {
            range: range("A2:D3"),
            rows: vec![
                vec![text("00123"), text("changed"), text("line 1\nline 2"), None],
                vec![text("00456"), text("Tartu"), None, None]
            ],
            formulas: None
        }
    );
    assert_eq!(
        value(&read.to_json()),
        v(r#"{
            "range": "A2:D3",
            "rows": [["00123", "changed", "line 1\nline 2", null], ["00456", "Tartu", null, null]]
        }"#)
    );
    assert_eq!(
        error(ops::read(&mut sheet, range("A4"))),
        "Requested range extends beyond the last row"
    );
    let sorted = ops::sort(&mut sheet, "-A", true).unwrap();
    assert_eq!(
        sorted,
        Sorted {
            columns: "-A".into(),
            header: true
        }
    );
    assert_eq!(
        value(&sorted.to_json()),
        v(r#"{"columns": "-A", "header": true, "changes_coordinates": "source", "read_coordinates": "sorted_view"}"#)
    );
    assert_eq!(
        ops::read(&mut sheet, range("A1:A3")).unwrap().rows,
        [[text("id")], [text("00456")], [text("00123")]]
    );
    for (spec, message) in [
        ("A,A", "A sort column may only appear once"),
        ("D", "Sort column 4 is outside the header"),
    ] {
        assert_eq!(error(ops::sort(&mut sheet, spec, true)), message);
    }
    assert_eq!(
        value(&ops::sort(&mut sheet, "B", false).unwrap().to_json())["header"],
        false
    );

    let mut sheet = open(&book_xlsx(), "xlsx", None);
    ops::apply_edits(&mut sheet, vec![((1, 6), "=1+1".into())]).unwrap();
    let read = ops::read(&mut sheet, range("C2:G3")).unwrap();
    assert_eq!(
        read.formulas.as_ref().unwrap().entries,
        [
            ((1, 3), "SUM(B2:B3)".to_owned()),
            ((1, 4), "1+1".to_owned()),
            ((1, 6), "1+1".to_owned())
        ]
    );
    assert_eq!(
        value(&read.to_json()),
        v(r#"{
            "range": "C2:G3",
            "rows": [["Tallinn", "12", "", "", "=1+1"], ["", "", "", "", ""]],
            "formulas": {"D2": "SUM(B2:B3)", "E2": "1+1", "G2": "1+1"}
        }"#)
    );
    let read = ops::read(&mut open(&book_ods(), "ods", None), range("A1")).unwrap();
    assert_eq!(
        value(&read.to_json()),
        v(r#"{"range": "A1:A1", "rows": [["id"]], "formulas": {}}"#)
    );
}

#[test]
fn finds_render_their_query_sort_and_preview() {
    let mut sheet = Sheet::open("/work/data.csv".into(), CSV.into(), b',').unwrap();
    let query = |text: &str| FindQuery {
        text: text.into(),
        ..FindQuery::default()
    };
    // Find needs no index; defaults are A1 and 100 matches.
    let found = ops::find(&sheet, query("0"), None, None).unwrap();
    assert_eq!((found.from, found.limit), ((0, 0), ops::FIND_LIMIT));
    assert_eq!(
        value(&found.to_json()),
        v(r#"{
            "source": "/work/data.csv",
            "find": {"text": "0", "columns": null, "exact": false, "ignore_case": false, "from": "A1", "limit": 100},
            "coordinates": "source",
            "matches": [{"cell": "A2", "value": "00123"}, {"cell": "A3", "value": "00456"}],
            "next": null,
            "records_scanned": 3
        }"#)
    );
    ops::wait_for_index(&mut sheet, Wait::All).unwrap();
    let changes = ops::apply_edits(&mut sheet, vec![((2, 1), "Tallinn".into())]).unwrap();
    let sorted = ops::sort(&mut sheet, "B", true).unwrap();
    let mut found = ops::find(
        &sheet,
        FindQuery {
            columns: Some(vec![2, 1]),
            ignore_case: true,
            exact: true,
            ..query("TALLINN")
        },
        Some((1, 1)),
        Some(1),
    )
    .unwrap();
    found.sort = Some(sorted);
    found.preview = Some(changes);
    assert_eq!(
        value(&found.to_json()),
        v(r#"{
            "source": "/work/data.csv",
            "find": {"text": "TALLINN", "columns": ["C", "B"], "exact": true, "ignore_case": true, "from": "B2", "limit": 1},
            "coordinates": "sorted_view",
            "matches": [{"cell": "B2", "value": "Tallinn"}],
            "next": "C2",
            "records_scanned": 1,
            "sort": {"columns": "B", "header": true, "changes_coordinates": "source", "read_coordinates": "sorted_view"},
            "changes": [{"cell": "B3", "before": "Tartu", "after": "Tallinn"}],
            "dry_run": true
        }"#)
    );
    assert_eq!(
        error(ops::find(&sheet, query(""), None, None)),
        "Search text must not be empty unless the match is exact"
    );
    for bad in [0, ops::FIND_LIMIT_MAX + 1] {
        assert_eq!(
            error(ops::find(&sheet, query("a"), None, Some(bad))),
            "limit must be a whole number from 1 to 10,000"
        );
    }
    assert_eq!(ops::find_limit(None).unwrap(), ops::FIND_LIMIT);
    assert_eq!(
        ops::find_limit(Some(ops::FIND_LIMIT_MAX)).unwrap(),
        ops::FIND_LIMIT_MAX
    );
    let notes = open(&book_xlsx(), "xlsx", Some("Notes õ"));
    let doc = value(&ops::find(&notes, query("notes"), None, Some(5)).unwrap().to_json());
    assert_eq!(
        (&doc["sheet"], &doc["format"]),
        (&Value::from("Notes õ"), &Value::from("XLSX"))
    );
    assert_eq!(
        doc["matches"],
        v(r#"[{"cell": "B3", "value": "Tallinn notes"}]"#)
    );
}

#[test]
fn sources_sheets_and_checks() {
    let sheet = csv();
    let source = Source::of(&sheet);
    assert_eq!(
        source,
        Source {
            path: "/work/data.csv".into(),
            workbook: None
        }
    );
    assert_eq!(value(&source.to_json()), v(r#"{"source": "/work/data.csv"}"#));
    let check = ops::check(&sheet, "0.25".into(), 0);
    assert_eq!((check.progress.rows, check.source_bytes), (3, None));
    let mut doc = value(&check.to_json());
    assert!(
        doc.as_object_mut()
            .unwrap()
            .remove("elapsed_seconds")
            .unwrap()
            .as_f64()
            .unwrap()
            >= 0.0
    );
    assert_eq!(
        doc,
        v(&format!(r#"{{"records": 3, "bytes": {}, "index_bytes": 8}}"#, CSV.len()))
    );
    assert_eq!(
        error(ops::sheets("data.csv".into(), "csv", CSV.as_bytes())),
        "--sheets requires an XLSX or ODS workbook"
    );
    let sheets = ops::sheets("book.xlsx".into(), "xlsx", &book_xlsx()).unwrap();
    assert_eq!(sheets.names, ["Data", "Notes õ"]);
    assert_eq!(
        value(&sheets.to_json()),
        v(r#"{"source": "book.xlsx", "sheets": ["Data", "Notes õ"]}"#)
    );
    for (data, extension, format) in [(book_xlsx(), "xlsx", "XLSX"), (book_ods(), "ods", "ODS")] {
        let notes = open(&data, extension, Some("Notes õ"));
        let source = Source::of(&notes);
        assert_eq!(
            value(&source.to_json()),
            v(&format!(
                r#"{{"source": "/work/book.{extension}", "sheet": "Notes õ", "format": "{format}"}}"#
            ))
        );
        let check = ops::check(&notes, "0.25".into(), data.len() as u64);
        let mut doc = value(&check.to_json());
        doc.as_object_mut().unwrap().remove("elapsed_seconds");
        assert_eq!(
            doc,
            v(&format!(
                r#"{{"records": 3, "bytes": {}, "index_bytes": 8, "sheet": "Notes õ", "format": "{format}", "source_bytes": {}}}"#,
                check.progress.total_bytes,
                data.len()
            ))
        );
    }
}

fn save(sheet: &Sheet, extension: &str, exists: bool) -> Result<Save, Error> {
    sheet.save_as(&Destination { extension: extension.into(), is_source: false, exists })
}

#[test]
fn saves_and_reports() {
    let range = |text: &str| parse_range(text).unwrap();
    let mut sheet = csv();
    let changes = ops::apply_edits(&mut sheet, vec![((2, 1), "Narva".into())]).unwrap();
    match save(&sheet, "csv", false).unwrap() {
        Save::Csv(bytes) => assert_eq!(
            String::from_utf8(bytes).unwrap(),
            CSV.replace("Tartu", "Narva")
        ),
        other => panic!("{other:?}"),
    }
    assert_eq!(
        error(save(&sheet, "csv", true)),
        "Destination already exists; choose a new filename"
    );
    let report = Report {
        source: Source::of(&sheet),
        changes,
        dry_run: false,
        sort: None,
        read: None,
        output: Some("out.csv".into()),
    };
    assert_eq!(
        value(&report.to_json()),
        v(r#"{
            "source": "/work/data.csv", "dry_run": false, "output": "out.csv",
            "changes": [{"cell": "B3", "before": "Tartu", "after": "Narva"}]
        }"#)
    );
    let sort = ops::sort(&mut sheet, "B", true).unwrap();
    let read = ops::read(&mut sheet, range("B2:B3")).unwrap();
    let report = Report {
        source: Source::of(&sheet),
        changes: Changes(vec![]),
        dry_run: true,
        sort: Some(sort),
        read: Some(read),
        output: None,
    };
    assert_eq!(
        value(&report.to_json()),
        v(r#"{
            "source": "/work/data.csv", "changes": [], "dry_run": true, "range": "B2:B3",
            "rows": [["Narva"], ["Tallinn"]],
            "sort": {"columns": "B", "header": true, "changes_coordinates": "source", "read_coordinates": "sorted_view"}
        }"#)
    );
    let mut sheet = open(&book_ods(), "ods", None);
    let read = ops::read(&mut sheet, range("D5")).unwrap();
    let report = Report {
        source: Source::of(&sheet),
        changes: Changes(vec![]),
        dry_run: false,
        sort: None,
        read: Some(read),
        output: None,
    };
    assert_eq!(
        value(&report.to_json()),
        v(r#"{
            "source": "/work/book.ods", "sheet": "Data", "format": "ODS",
            "changes": [], "dry_run": false, "range": "D5:D5", "rows": [[""]], "formulas": {},
            "formula_results": "existing results are cached; new formulas are calculated when the saved file opens",
            "edit_type": "text; XLSX values beginning with = are formulas"
        }"#)
    );
}

#[test]
fn waits_for_rows_or_the_whole_scan_and_reports_index_errors() {
    let mut text = String::new();
    for i in 0..100_000 {
        text.push_str(&format!("{i},row {i}\n"));
    }
    let mut sheet = Sheet::open("many.csv".into(), text.into_bytes(), b',').unwrap();
    ops::wait_for_index(&mut sheet, Wait::Rows(10)).unwrap();
    assert!(sheet.progress().rows >= 10);
    // More rows than exist: waits for the complete scan, then the range is refused.
    ops::wait_for_index(&mut sheet, Wait::Rows(1_000_000)).unwrap();
    assert!(sheet.progress().done);
    assert_eq!(sheet.progress().rows, 100_000);
    assert_eq!(
        error(ops::in_bounds(&sheet, &parse_range("A100001").unwrap())),
        "Requested range extends beyond the last row"
    );
    ops::in_bounds(&sheet, &parse_range("A100000").unwrap()).unwrap();
    ops::wait_for_index(&mut sheet, Wait::All).unwrap();
    let mut sheet = Sheet::open("bad.csv".into(), b"a,b\n\xff,c\n".to_vec(), b',').unwrap();
    for wait in [Wait::All, Wait::Rows(5)] {
        assert!(
            error(ops::wait_for_index(&mut sheet, wait)).contains("invalid UTF-8"),
            "{wait:?}"
        );
    }
}

#[test]
fn changed_sources_are_refused() {
    let then = Stamp { len: 5, seconds: 7, nanoseconds: 1, device: 2, inode: 3 };
    let later = Stamp { nanoseconds: 2, ..then };
    assert!(then.check(&then).is_ok());
    assert_eq!(
        error(then.check(&later)),
        "Source file changed outside Quadrille; reopen it before continuing"
    );
    assert!(then.check_saved(&then, &then).is_ok());
    assert_eq!(then.check_saved(&later, &then), Err(Error::SourceChanged));
    assert_eq!(
        error(then.check_saved(&then, &later)),
        "Source changed during save; output was not published"
    );
}

/// The text of a part, by name.
fn part(data: &[u8], name: &str) -> String {
    package::read_xml(data, name).unwrap()
}

fn saved(sheet: &Sheet, data: &[u8]) -> String {
    match sheet.save_native(data).unwrap() {
        Native::Part(text) => text,
        Native::Copy => panic!("nothing was edited"),
    }
}

#[test]
fn xlsx_saves_patch_only_edited_cells() {
    let data = book_xlsx();
    let before = part(&data, "xl/worksheets/sheet1.xml");
    let mut sheet = open(&data, "xlsx", None);
    assert!(matches!(sheet.save_native(&data).unwrap(), Native::Copy));
    sheet.set(1, 1, "a<b & _x000D_".into()).unwrap();
    assert_eq!(
        saved(&sheet, &data),
        before.replace(
            r#"<c r="B2"><v>10</v></c>"#,
            r#"<c r="B2" t="inlineStr"><is><t xml:space="preserve">a&lt;b &amp; _x005F_x000D_</t></is></c>"#
        )
    );
    sheet.undo();
    // A new cell in a stored row, one in a row that has no element, and a formula.
    sheet.set(2, 0, "00457".into()).unwrap();
    sheet.set(2, 3, "=1<2".into()).unwrap();
    sheet.set(3, 1, "new".into()).unwrap();
    assert_eq!(
        saved(&sheet, &data),
        before
            .replace(
                r#"<c r="A3" t="inlineStr"><is><t>00456</t></is></c><c r="B3"><v>2</v></c>"#,
                r#"<c r="A3" t="inlineStr"><is><t xml:space="preserve">00457</t></is></c><c r="B3"><v>2</v></c><c r="D3"><f>1&lt;2</f></c>"#
            )
            .replace(
                r#"<row r="5">"#,
                r#"<row r="4"><c r="B4" t="inlineStr"><is><t xml:space="preserve">new</t></is></c></row><row r="5">"#
            )
    );
}

/// A package with one XLSX sheet.
fn one_sheet(sheet: &str) -> Vec<u8> {
    pack(&[
        ("_rels/.rels", format!(r#"<Relationships xmlns="{P}"><Relationship Id="b" Type="{R}/officeDocument" Target="/xl/./x/../workbook.xml"/></Relationships>"#)),
        ("xl/workbook.xml", format!(r#"<x:workbook xmlns:x="{X}" xmlns:r="{R}"><x:sheets><x:sheet name="S" r:id="r1"/></x:sheets></x:workbook>"#)),
        ("xl/_rels/workbook.xml.rels", format!(r#"<Relationships xmlns="{P}"><Relationship Id="r1" Target="s.xml"/></Relationships>"#)),
        ("xl/s.xml", sheet.to_owned()),
    ])
}

#[test]
fn xlsx_saves_keep_prefixes_attributes_and_other_children() {
    let data = one_sheet(&format!(
        r#"<x:worksheet xmlns:x="{X}"><x:dimension ref="A1:B2"/><x:sheetData><x:row r="1" spans="1:2"/><x:row r="2"><x:c r="A2" s="4" t="s" ><x:v>0</x:v><x:extLst><x:ext/></x:extLst></x:c></x:row></x:sheetData><x:mergeCells><x:mergeCell ref="C4:D5"/></x:mergeCells></x:worksheet>"#
    ));
    let chosen = choose_sheet(&data, Format::Xlsx, &None).unwrap();
    assert_eq!(chosen.scan.protected, [((3, 2), (4, 3))]);
    assert!(!chosen.scan.has_formulas);
    let values = Grid {
        start: Some((1, 0)),
        end: Some((4, 3)),
        rows: vec![vec!["old".into()]],
    };
    let mut sheet = import("b.xlsx".into(), chosen, &values, None).unwrap();
    ops::wait_for_index(&mut sheet, Wait::All).unwrap();
    assert_eq!(sheet.data, b",,,\nold,,,\n,,,\n,,,\n,,,\n");
    assert_eq!(error(sheet.set(4, 2, "x".into())), "Formula and merged/array cells are read-only in this version");
    sheet.set(0, 0, "a".into()).unwrap();
    sheet.set(0, 2, "c".into()).unwrap();
    sheet.set(1, 0, "b".into()).unwrap();
    let expected = part(&data, "xl/s.xml")
        .replace(r#"ref="A1:B2""#, r#"ref="A1:C2""#)
        .replace(
            r#"<x:row r="1" spans="1:2"/>"#,
            r#"<x:row r="1" spans="1:2"><x:c r="A1" t="inlineStr"><x:is><x:t xml:space="preserve">a</x:t></x:is></x:c><x:c r="C1" t="inlineStr"><x:is><x:t xml:space="preserve">c</x:t></x:is></x:c></x:row>"#,
        )
        .replace(
            r#"<x:c r="A2" s="4" t="s" ><x:v>0</x:v>"#,
            r#"<x:c r="A2" s="4" t="inlineStr"><x:is><x:t xml:space="preserve">b</x:t></x:is>"#,
        );
    assert_eq!(saved(&sheet, &data), expected);
}

#[test]
fn ods_saves_split_repetitions() {
    let content = format!(
        r#"<office:document-content xmlns:office="{O}" xmlns:table="{T}" xmlns:text="{TX}"><office:body><office:spreadsheet><table:table table:name="S"><table:table-row table:number-rows-repeated="3"><table:table-cell office:value-type="float" office:value="1" table:number-columns-repeated="3"><text:p>1</text:p></table:table-cell></table:table-row><table:table-row/></table:table></office:spreadsheet></office:body></office:document-content>"#
    );
    let data = pack(&[("content.xml", content.clone())]);
    let chosen = choose_sheet(&data, Format::Ods, &Some("S".into())).unwrap();
    let one = || vec!["1".to_owned(); 3];
    let values = Grid { start: Some((0, 0)), end: Some((3, 2)), rows: vec![one(), one(), one()] };
    let mut sheet = import("b.ods".into(), chosen, &values, None).unwrap();
    ops::wait_for_index(&mut sheet, Wait::All).unwrap();
    sheet.set(1, 1, "x y\t\"z\"\nw".into()).unwrap();
    sheet.set(3, 1, "t".into()).unwrap();
    let repeated = r#"<table:table-cell office:value-type="float" office:value="1""#;
    let value = r#"office:value-type="string" office:string-value="#;
    let new = saved(&sheet, &data);
    // The row before stays, the edited row stands alone, and the row after stays.
    let first = format!(r#"<table:table-row>{repeated} table:number-columns-repeated="3"><text:p>1</text:p></table:table-cell></table:table-row>"#);
    let plain = format!("{repeated} ><text:p>1</text:p></table:table-cell>").replace(" >", ">");
    let edited = format!(
        r#"<table:table-cell {value}"x y&#9;&quot;z&quot;&#10;w"><text:p xmlns:text="{TX}">x<text:s/>y<text:tab/>&quot;z&quot;</text:p><text:p xmlns:text="{TX}">w</text:p></table:table-cell>"#
    );
    let trailing = format!(
        r#"<table:table-row><table:table-cell xmlns:table="{T}" table:number-columns-repeated="1"/><table:table-cell xmlns:table="{T}" xmlns:office="{O}" {value}"t"><text:p xmlns:text="{TX}">t</text:p></table:table-cell></table:table-row>"#
    );
    let squeeze = |text: &str| text.replace("  ", " ").replace(" >", ">");
    let start = content.split("<table:table-row ").next().unwrap();
    assert_eq!(
        squeeze(&new),
        squeeze(&format!(
            "{start}{first}<table:table-row>{plain}{edited}{plain}</table:table-row>{first}{trailing}</table:table></office:spreadsheet></office:body></office:document-content>"
        ))
    );
    sheet.undo();
    sheet.undo();
    assert!(matches!(sheet.save_native(&data).unwrap(), Native::Copy));
}

/// How many rows or cells each of these elements of a text stands for.
fn repetitions(text: &str, element: &str, attribute: &str) -> Vec<u64> {
    let open = format!("<table:{element}");
    text.split(&open).skip(1).map(|rest| {
        let tag = rest.split('>').next().unwrap();
        match tag.split(&format!("{attribute}=\"")).nth(1) {
            Some(count) => count.split('"').next().unwrap().parse().unwrap(),
            None => 1,
        }
    })
    .collect()
}

#[test]
fn split_rows_and_cells_keep_their_addresses() {
    let content = format!(
        r#"<office:document-content xmlns:office="{O}" xmlns:table="{T}" xmlns:text="{TX}"><table:table table:name="S"><table:table-row table:number-rows-repeated="9"><table:table-cell office:value-type="float" office:value="1" table:number-columns-repeated="8"/></table:table-row></table:table></office:document-content>"#
    );
    let data = pack(&[("content.xml", content)]);
    let chosen = choose_sheet(&data, Format::Ods, &None).unwrap();
    let rows = vec![vec!["1".to_owned(); 8]; 9];
    let values = Grid { start: Some((0, 0)), end: Some((8, 7)), rows };
    let mut sheet = import("b.ods".into(), chosen, &values, None).unwrap();
    ops::wait_for_index(&mut sheet, Wait::All).unwrap();
    for (row, col) in [(2, 0), (2, 3), (2, 4), (6, 7)] {
        sheet.set(row, col, "x".into()).unwrap();
    }
    let new = saved(&sheet, &data);
    // Two rows, row 2, three rows, row 6, two rows.
    assert_eq!(repetitions(&new, "table-row", "number-rows-repeated"), [2, 1, 3, 1, 2]);
    let rows: Vec<&str> = new.split("<table:table-row").collect();
    assert_eq!(
        repetitions(rows[2], "table-cell", "number-columns-repeated"),
        [1, 2, 1, 1, 3]
    );
    assert_eq!(repetitions(rows[4], "table-cell", "number-columns-repeated"), [7, 1]);
}

#[test]
fn ods_text_spans_and_formulas() {
    let content = format!(
        r#"<office:document-content xmlns:office="{O}" xmlns:table="{T}" xmlns:text="{TX}"><table:table table:name="S"><table:table-row><table:table-cell office:value-type="string"><office:annotation><text:p>no</text:p></office:annotation><text:p>a<text:tab/>b<text:s text:c="3"/>c</text:p><text:p>d<text:line-break/>e</text:p></table:table-cell><table:table-cell table:number-columns-spanned="2" table:number-rows-spanned="3"/><table:covered-table-cell/></table:table-row></table:table></office:document-content>"#
    );
    let data = pack(&[("content.xml", content)]);
    let chosen = choose_sheet(&data, Format::Ods, &None).unwrap();
    assert_eq!(chosen.names, ["S"]);
    assert!(chosen.scan.has_formulas);
    assert_eq!(
        chosen.scan.overrides.entries,
        [((0, 0), "a\tb   c\nd\ne".to_owned())]
    );
    assert_eq!(chosen.scan.protected, [((0, 1), (2, 2)), ((0, 2), (0, 2))]);
    let values = Grid { start: Some((0, 0)), end: Some((0, 2)), rows: vec![vec!["abc".into()]] };
    let formulas = Grid { start: Some((0, 1)), end: Some((0, 1)), rows: vec![vec!["1+1".into()]] };
    let mut sheet = import("b.ods".into(), chosen, &values, Some(&formulas)).unwrap();
    ops::wait_for_index(&mut sheet, Wait::All).unwrap();
    assert_eq!(sheet.window(0, 1), [["a\tb   c\nd\ne", "", ""]]);
    assert_eq!(sheet.formula(0, 1).unwrap(), "1+1");
    assert_eq!(sheet.formula(0, 0), None);
    assert!(sheet.set(0, 1, "x".into()).is_err());
}

#[test]
fn packages_are_refused_by_rule() {
    let small = |name: &str| Ok((name.to_owned(), 1));
    let check = |list: Vec<Result<(String, u64), String>>| package::check_members(&list);
    assert_eq!(check(vec![small("a"), small("b")]).unwrap(), ["a", "b"]);
    for (list, message) in [
        (
            vec![small("a"), small("b"), small("a"), Err("bad".into())],
            "Workbook contains duplicate ZIP members",
        ),
        (vec![small("a"), Err("bad".into()), small("a")], "bad"),
        (
            vec![small("a"), Ok(("b".into(), u64::MAX))],
            "Workbook is too large",
        ),
        (
            vec![Ok(("a".into(), 200 << 20)), Ok(("b".into(), (56 << 20) + 1))],
            "Workbook exceeds the 256 MiB uncompressed import limit; use CSV for larger data",
        ),
        (
            vec![Ok(("a.xml".into(), (128 << 20) + 1))],
            "Workbook XML exceeds the 128 MiB import limit; use CSV for larger data",
        ),
    ] {
        assert_eq!(error(check(list)), message);
    }
    assert!(check(vec![Ok(("a.bin".into(), 256 << 20))]).is_ok());
    assert!(error(package::archive(b"no archive")).starts_with("invalid Zip archive"));
    let data = pack(&[("a", "text".into())]);
    assert_eq!(package::archive(&data).unwrap(), ["a"]);
    assert_eq!(package::read_xml(&data, "a").unwrap(), "text");
    assert_eq!(
        error(package::read_xml(&data, "b")),
        "specified file not found in archive"
    );
    assert_eq!(package::check_text("t".into()).unwrap(), "t");
}

#[test]
fn targets_stay_in_the_package() {
    for (base, relative, part) in [
        ("xl/", "worksheets/sheet1.xml", "xl/worksheets/sheet1.xml"),
        ("xl/", "/xl//a.xml", "xl/a.xml"),
        ("xl/", "./../b/./c.xml", "b/c.xml"),
        ("", "", ""),
    ] {
        assert_eq!(package::target(base, relative).unwrap(), part, "{relative}");
    }
    assert_eq!(
        error(package::target("xl/", "../../a.xml")),
        "Invalid workbook relationship path"
    );
}

fn names(data: &[u8], extension: &str) -> Result<Vec<String>, String> {
    package::sheet_names(data, extension).map_err(|error| error.to_string())
}

#[test]
fn sheet_lists_are_refused_by_rule() {
    let book = |root: &str, rels: &str, book: &str| {
        pack(&[
            ("_rels/.rels", format!("<r>{root}</r>")),
            ("_rels/b.xml.rels", format!("<r>{rels}</r>")),
            ("b.xml", format!("<r>{book}</r>")),
        ])
    };
    let root = r#"<a Type="x/officeDocument" Target="b.xml"/>"#;
    let one = r#"<sheet name="S" id="1"/>"#;
    assert_eq!(names(&book(root, r#"<a Id="1" Target="s.xml"/>"#, one), "XLSX").unwrap(), ["S"]);
    for (root, rels, sheets, message) in [
        ("<a/>", "", one, "Missing workbook relationship"),
        (
            r#"<a Type="/officeDocument" TargetMode="External"/>"#,
            "",
            one,
            "External workbook relationships are unsupported",
        ),
        (r#"<a Type="/officeDocument"/>"#, "", one, "Missing workbook target"),
        (root, "", r#"<sheet/>"#, "Unnamed XLSX sheet"),
        (root, "", r#"<sheet name="S"/>"#, "Missing sheet relationship"),
        (root, r#"<a Id="2"/>"#, one, "Missing worksheet relationship"),
        (
            root,
            r#"<a Id="1" TargetMode="External" Target="x"/>"#,
            one,
            "External worksheet relationships are unsupported",
        ),
        (root, r#"<a Id="1"/>"#, one, "Missing worksheet target"),
        (root, r#"<a Id="1" Target=".."/>"#, one, "Invalid workbook relationship path"),
    ] {
        assert_eq!(names(&book(root, rels, sheets), "xlsx").unwrap_err(), message);
    }
    let ods = |text: &str| pack(&[("content.xml", format!(r#"<t:x xmlns:t="{T}">{text}</t:x>"#))]);
    assert_eq!(names(&ods(r#"<t:table t:name="S"/>"#), "ods").unwrap(), ["S"]);
    assert_eq!(names(&ods("<t:table/>"), "ods").unwrap_err(), "Unnamed ODS sheet");
    assert!(names(&ods("<"), "ods").is_err());
    let choose = |text: &str, name: Option<&str>| {
        error(choose_sheet(&ods(text), Format::Ods, &name.map(str::to_owned)))
    };
    assert_eq!(choose("", None), "Workbook has no sheets");
    assert_eq!(choose("", Some("a\"b")), r#"No sheet named "a\"b"; use --sheets"#);
}

#[test]
fn sheets_beyond_the_limits_are_refused() {
    let xlsx = |cells: &str| {
        let data = one_sheet(&format!(r#"<w xmlns="{X}"><sheetData>{cells}</sheetData></w>"#));
        choose_sheet(&data, Format::Xlsx, &None)
    };
    let too_many = "Workbook sheet exceeds the 5 million cell import limit (including leading empty cells); use CSV for larger data";
    assert!(xlsx(r#"<c r="A5"/><c r="B1"/>"#).is_ok());
    assert_eq!(error(xlsx(r#"<c r="XFD1"/><c r="A400"/>"#)), too_many);
    assert_eq!(error(xlsx("<c/>")), "XLSX cells without addresses are unsupported");
    assert_eq!(error(xlsx(r#"<c r="A0"/>"#)), "Workbook rows start at 1");
    assert_eq!(
        error(xlsx(r#"<mergeCell ref="B2:A1"/>"#)),
        "Invalid workbook cell range"
    );
    let ods = |rows: &str| {
        let text = format!(r#"<o:x xmlns:o="{O}" xmlns:t="{T}" xmlns:x="{TX}"><t:table t:name="S">{rows}</t:table></o:x>"#);
        choose_sheet(&pack(&[("content.xml", text)]), Format::Ods, &None)
    };
    // Empty repetitions do not count; filled ones do.
    assert!(ods(r#"<t:table-row t:number-rows-repeated="1048576"><t:table-cell t:number-columns-repeated="16384"/></t:table-row>"#).is_ok());
    assert_eq!(
        error(ods(r#"<t:table-row t:number-rows-repeated="1048576"><t:table-cell t:number-columns-repeated="5"><x:p/></t:table-cell></t:table-row>"#)),
        too_many
    );
    for (count, message) in [
        ("0", "Invalid ODS repetition count"),
        ("1048577", "Invalid ODS repetition count"),
        ("", "cannot parse integer from empty string"),
        ("x", "invalid digit found in string"),
        ("99999999999999999999", "number too large to fit in target type"),
    ] {
        assert_eq!(
            error(ods(&format!(r#"<t:table-row t:number-rows-repeated="{count}"/>"#))),
            message
        );
    }
    assert_eq!(
        error(ods(r#"<t:table-row><t:table-cell o:value-type="string"><x:p><x:tab/><x:s x:c="134217729"/></x:p></t:table-cell></t:table-row>"#)),
        "ODS text repetition exceeds the import limit"
    );
}

#[test]
fn native_saves_are_refused_by_rule() {
    let base = book_xlsx();
    let mut sheet = open(&base, "xlsx", None);
    sheet.set(1, 1, "x".into()).unwrap();
    let with = |name: &str, text: &str| pack(&[(name, text.to_owned())]);
    for name in ["_xmlsignatures/a", "META-INF/documentsignatures.xml", "macrosignatures.xml"] {
        assert_eq!(
            error(sheet.save_native(&with(name, ""))),
            "Digitally signed workbooks cannot be edited without invalidating their signatures"
        );
    }
    let part = "xl/worksheets/sheet1.xml";
    for (text, message) in [
        ("<w/>", "Missing XLSX sheetData"),
        ("<sheetData><row/></sheetData>", "XLSX rows without numbers are unsupported"),
        (r#"<sheetData><row r="0"/></sheetData>"#, "Invalid XLSX row number"),
        (r#"<sheetData><row r="x"/></sheetData>"#, "invalid digit found in string"),
        (r#"<sheetData><row r="2"><c/></row></sheetData>"#, "Missing cell address"),
        (r#"<w><dimension ref="A"/><sheetData/></w>"#, "Invalid workbook cell address"),
        ("<sheetData/>", "Missing XML tag end"),
    ] {
        assert_eq!(error(sheet.save_native(&with(part, text))), message, "{text}");
    }
    assert_eq!(
        error(sheet.save_native(&with("other", ""))),
        "specified file not found in archive"
    );
    let data = book_ods();
    let mut sheet = open(&data, "ods", None);
    sheet.set(1, 1, "x".into()).unwrap();
    let ods = |name: &str, rows: &str| {
        let text = format!(r#"<o:x xmlns:o="{O}" xmlns:t="{T}"><t:table t:name="{name}">{rows}</t:table></o:x>"#);
        with("content.xml", &text)
    };
    for (name, rows, message) in [
        ("Other", "", "Missing ODS sheet"),
        (
            "Data",
            "<t:table-row/>",
            "Some ODS target cells were not found; output was not published",
        ),
        (
            "Data",
            r#"<t:table-row/><t:table-row><t:table-cell/><t:table-cell t:formula="x"/></t:table-row>"#,
            "Formula and merged cells are read-only in this version",
        ),
    ] {
        assert_eq!(error(sheet.save_native(&ods(name, rows))), message);
    }
    let bare = format!(
        r#"<o:x xmlns:o="{O}"><table xmlns="{T}" xmlns:t="{T}" t:name="Data"><table-row t:number-rows-repeated="3"/></table></o:x>"#
    );
    assert_eq!(
        error(sheet.save_native(&with("content.xml", &bare))),
        "ODS table namespace needs a prefix"
    );
}

#[test]
fn files_open_by_their_extension() {
    let named = Some("S".to_owned());
    assert_eq!(open_as("CSV", b';', &None), Ok(None));
    assert_eq!(open_as("XlSx", b',', &named), Ok(Some(Format::Xlsx)));
    assert_eq!(open_as("ods", b',', &None), Ok(Some(Format::Ods)));
    assert_eq!(open_as("ods", b';', &None), Err(Error::DelimiterNeedsCsv));
    assert_eq!(open_as("csv", b',', &named), Err(Error::SheetNeedsWorkbook));
}

#[test]
fn splices_keep_every_byte_around_them() {
    let patch = |start: usize, end: usize, text: &str| xml::Patch {
        start,
        end,
        bytes: text.into(),
    };
    assert_eq!(xml::splice(b"abcdef", vec![]).unwrap(), b"abcdef");
    assert_eq!(
        xml::splice(b"abcdef", vec![patch(4, 5, "E"), patch(1, 1, "1"), patch(1, 3, "BC")]).unwrap(),
        b"a1BCdEf"
    );
    assert_eq!(
        error(xml::splice(b"abcdef", vec![patch(0, 3, ""), patch(2, 4, "")])),
        "Overlapping workbook XML edits"
    );
    let text = "<a x='>' y = \"1\" ><b/></a >";
    let doc = xml::parse_xml(text).unwrap();
    let a = doc.nodes.iter().position(|n| n.name == "a").unwrap();
    assert_eq!(
        doc.start_tag(text.as_bytes(), a, &vec![("", "y")], &b" z".to_vec()).unwrap(),
        b"<a x='>' z>".to_vec()
    );
    assert!(tree::empty_element(b"<b/> ", 0, 5) && !tree::empty_element(b"<b></b>", 0, 7));
    assert_eq!(scan::find_table(&doc, "S"), doc.nodes.len());
    assert!(xml::parse_xml("<a").is_err());
}
