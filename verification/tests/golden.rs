//! Whole commands on files in memory: the document, or the message, of each.
use quadrille::book::open_as;
use quadrille::cli::{parse, run as execute, Arg, Command, Done, Target};
use quadrille::json::Json;
use quadrille::ops;
use quadrille::save::{Destination, Save};
use quadrille::Sheet;
use serde_json::Value;
use std::cell::RefCell;
use std::collections::BTreeMap;
use std::io::{Cursor, Write};
use zip::write::SimpleFileOptions;
use zip::ZipWriter;

const CSV: &str = "id,name,note\r\n00123,Tallinn,\"line 1\nline 2\"\r\n00456,Tartu\r\n";

/// Files of one directory, by name.
struct Files(RefCell<BTreeMap<String, Vec<u8>>>);

impl Files {
    fn new() -> Self {
        Files(RefCell::new(BTreeMap::new()))
    }

    fn put<B: AsRef<[u8]>>(&self, name: &str, bytes: B) {
        self.0.borrow_mut().insert(name.into(), bytes.as_ref().to_vec());
    }

    fn has(&self, name: &str) -> bool {
        self.0.borrow().contains_key(name)
    }

    fn bytes(&self, name: &str) -> Vec<u8> {
        self.0.borrow()[name].clone()
    }

    fn text(&self, name: &str) -> String {
        String::from_utf8(self.bytes(name)).unwrap()
    }

    fn read(&self, arg: &Arg) -> Result<(String, Vec<u8>), String> {
        let found = match arg {
            Arg::Text(name) => {
                let name = name.trim_start_matches("./").to_owned();
                self.0.borrow().get(&name).map(|bytes| (name.clone(), bytes.clone()))
            }
            Arg::Bytes(_) => None,
        };
        found.ok_or_else(|| "No such file or directory (os error 2)".to_owned())
    }
}

fn pack(entries: &[(&str, String)]) -> Vec<u8> {
    let mut zip = ZipWriter::new(Cursor::new(Vec::new()));
    for (name, text) in entries {
        zip.start_file(*name, SimpleFileOptions::default()).unwrap();
        zip.write_all(text.as_bytes()).unwrap();
    }
    zip.finish().unwrap().into_inner()
}

const X: &str = "http://schemas.openxmlformats.org/spreadsheetml/2006/main";
const R: &str = "http://schemas.openxmlformats.org/officeDocument/2006/relationships";
const P: &str = "http://schemas.openxmlformats.org/package/2006/relationships";
const T: &str = "urn:oasis:names:tc:opendocument:xmlns:table:1.0";
const O: &str = "urn:oasis:names:tc:opendocument:xmlns:office:1.0";
const TX: &str = "urn:oasis:names:tc:opendocument:xmlns:text:1.0";

/// Data: A1:E5 with a cached formula (D2), an uncached one (E2) and blank rows/cells.
fn book_xlsx() -> Vec<u8> {
    let inline = |r: &str, t: &str| format!(r#"<c r="{r}" t="inlineStr"><is><t>{t}</t></is></c>"#);
    let data = format!(
        r#"<worksheet xmlns="{X}"><sheetData><row r="1">{}{}{}{}</row><row r="2">{}<c r="B2"><v>10</v></c>{}<c r="D2"><f>SUM(B2:B3)</f><v>12</v></c><c r="E2"><f>1+1</f></c></row><row r="3">{}<c r="B3"><v>2</v></c></row><row r="5">{}</row></sheetData></worksheet>"#,
        inline("A1", "id"),
        inline("B1", "amount"),
        inline("C1", "note"),
        inline("D1", "formula"),
        inline("A2", "00123"),
        inline("C2", "Tallinn"),
        inline("A3", "00456"),
        inline("C5", "end"),
    );
    pack(&[
        ("[Content_Types].xml", r#"<Types xmlns="http://schemas.openxmlformats.org/package/2006/content-types"><Default Extension="rels" ContentType="application/vnd.openxmlformats-package.relationships+xml"/><Default Extension="xml" ContentType="application/xml"/><Override PartName="/xl/workbook.xml" ContentType="application/vnd.openxmlformats-officedocument.spreadsheetml.sheet.main+xml"/><Override PartName="/xl/worksheets/sheet1.xml" ContentType="application/vnd.openxmlformats-officedocument.spreadsheetml.worksheet+xml"/><Override PartName="/xl/worksheets/sheet2.xml" ContentType="application/vnd.openxmlformats-officedocument.spreadsheetml.worksheet+xml"/></Types>"#.into()),
        ("_rels/.rels", format!(r#"<Relationships xmlns="{P}"><Relationship Id="b" Type="{R}/officeDocument" Target="xl/workbook.xml"/></Relationships>"#)),
        ("xl/workbook.xml", format!(r#"<workbook xmlns="{X}" xmlns:r="{R}"><sheets><sheet name="Data" sheetId="1" r:id="r1"/><sheet name="Notes õ" sheetId="2" r:id="r2"/></sheets></workbook>"#)),
        ("xl/_rels/workbook.xml.rels", format!(r#"<Relationships xmlns="{P}"><Relationship Id="r1" Type="{R}/worksheet" Target="worksheets/sheet1.xml"/><Relationship Id="r2" Type="{R}/worksheet" Target="worksheets/sheet2.xml"/></Relationships>"#)),
        ("xl/worksheets/sheet1.xml", data),
        ("xl/worksheets/sheet2.xml", format!(r#"<worksheet xmlns="{X}"><sheetData><row r="3">{}</row></sheetData></worksheet>"#, inline("B3", "Tallinn notes"))),
    ])
}

/// The same Data layout, with ODS formulas in D2 (cached) and E2 (uncached).
fn book_ods() -> Vec<u8> {
    let text = |t: &str| {
        format!(
            r#"<table:table-cell office:value-type="string"><text:p>{t}</text:p></table:table-cell>"#
        )
    };
    let float = |v: &str| {
        format!(
            r#"<table:table-cell office:value-type="float" office:value="{v}"><text:p>{v}</text:p></table:table-cell>"#
        )
    };
    let content = format!(
        r#"<office:document-content xmlns:office="{O}" xmlns:table="{T}" xmlns:text="{TX}" xmlns:of="urn:oasis:names:tc:opendocument:xmlns:of:1.2" office:version="1.2"><office:body><office:spreadsheet><table:table table:name="Data"><table:table-row>{}{}{}{}</table:table-row><table:table-row>{}{}{}<table:table-cell table:formula="of:=SUM([.B2:.B3])" office:value-type="float" office:value="12"><text:p>12</text:p></table:table-cell><table:table-cell table:formula="of:=1+1"/></table:table-row><table:table-row>{}{}</table:table-row><table:table-row/><table:table-row><table:table-cell table:number-columns-repeated="2"/>{}</table:table-row></table:table><table:table table:name="Notes õ"><table:table-row table:number-rows-repeated="2"/><table:table-row><table:table-cell/>{}</table:table-row></table:table></office:spreadsheet></office:body></office:document-content>"#,
        text("id"),
        text("amount"),
        text("note"),
        text("formula"),
        text("00123"),
        float("10"),
        text("Tallinn"),
        text("00456"),
        float("2"),
        text("end"),
        text("Tallinn notes"),
    );
    pack(&[
        ("mimetype", "application/vnd.oasis.opendocument.spreadsheet".into()),
        ("META-INF/manifest.xml", r#"<manifest:manifest xmlns:manifest="urn:oasis:names:tc:opendocument:xmlns:manifest:1.0" manifest:version="1.2"><manifest:file-entry manifest:full-path="/" manifest:media-type="application/vnd.oasis.opendocument.spreadsheet"/><manifest:file-entry manifest:full-path="content.xml" manifest:media-type="text/xml"/></manifest:manifest>"#.into()),
        ("content.xml", content),
    ])
}

fn open_sheet(
    path: &str,
    data: &[u8],
    extension: &str,
    delimiter: u8,
    sheet: &Option<String>,
) -> Result<Sheet, String> {
    let say = |error: quadrille::Error| error.to_string();
    match open_as(extension, delimiter, sheet).map_err(say)? {
        None => Sheet::open(path.into(), data.to_vec(), delimiter).map_err(say),
        Some(format) => match quadrille::book::open_sheet(path.into(), data, format, sheet) {
            Some(opened) => opened.map_err(say),
            None => panic!("the cells of the sheet cannot be read"),
        },
    }
}

fn extension(name: &str) -> String {
    match name.rsplit_once('.') {
        Some((_, extension)) => extension.to_ascii_lowercase(),
        None => String::new(),
    }
}

fn value(json: &Json) -> Value {
    match json {
        Json::Null => Value::Null,
        Json::Bool(b) => Value::Bool(*b),
        Json::Number(n) => Value::from(*n),
        Json::Real(text) => Value::from(text.parse::<f64>().unwrap()),
        Json::Text(text) => Value::from(text.as_str()),
        Json::List(list) => Value::Array(list.iter().map(value).collect()),
        Json::Object(fields) => {
            Value::Object(fields.iter().map(|(key, v)| (key.clone(), value(v))).collect())
        }
    }
}

fn document_of(value: &Value) -> Json {
    match value {
        Value::Null => Json::Null,
        Value::Bool(b) => Json::Bool(*b),
        Value::Number(n) => match n.as_u64() {
            Some(n) => Json::Number(n),
            None => Json::Real(n.to_string()),
        },
        Value::String(text) => Json::Text(text.clone()),
        Value::Array(list) => Json::List(list.iter().map(document_of).collect()),
        Value::Object(fields) => Json::Object(
            fields.iter().map(|(key, v)| (key.clone(), document_of(v))).collect(),
        ),
    }
}

fn v(text: &str) -> Value {
    serde_json::from_str(text).unwrap()
}

/// The document a command prints, or the message it fails with.
fn perform(root: &Files, args: Vec<Arg>) -> Result<Value, String> {
    let mut patches = Vec::new();
    let command = loop {
        match parse(&args, &patches).map_err(|error| error.to_string())? {
            Command::Patch(arg) => patches.push(root.read(&arg).and_then(|(_, bytes)| {
                match serde_json::from_slice::<Value>(&bytes) {
                    Ok(found) => Ok(document_of(&found)),
                    Err(error) => Err(error.to_string()),
                }
            })),
            command => break command,
        }
    };
    let open = match command {
        Command::Open(open) => *open,
        Command::Sheets(arg) => {
            let (name, bytes) = root.read(&arg)?;
            let given = match &arg {
                Arg::Text(given) => given.clone(),
                Arg::Bytes(_) => panic!("{arg:?}"),
            };
            let sheets = ops::sheets(given, &extension(&name), &bytes);
            return match sheets {
                Ok(sheets) => Ok(value(&sheets.to_json())),
                Err(error) => Err(error.to_string()),
            };
        }
        other => panic!("{other:?}"),
    };
    let (name, bytes) = root.read(&open.path)?;
    let path = format!("/work/{name}");
    let mut sheet = open_sheet(
        &path,
        &bytes,
        &extension(&name),
        open.delimiter,
        &open.sheet,
    )?;
    if !open.headless() {
        return Err("The editor needs a terminal. Use --read, --apply or --check for headless commands".into());
    }
    let output = match &open.output {
        Some(Arg::Text(output)) => Some(output.clone()),
        Some(other) => panic!("{other:?}"),
        None => None,
    };
    let target = output.as_ref().map(|output| Target {
        name: if *output == name { path.clone() } else { output.clone() },
        place: Destination {
            extension: extension(output),
            is_source: *output == name,
            exists: root.has(output),
        },
    });
    let done = execute(&mut sheet, open, "0.5".into(), bytes.len() as u64, target);
    match done.map_err(|error| error.to_string())? {
        Done::Check(check) => Ok(value(&check.to_json())),
        Done::Found(found) => Ok(value(&found.to_json())),
        Done::Report(report, save) => {
            match save {
                None => {}
                Some(Save::Csv(bytes)) => root.put(&output.unwrap(), bytes),
                Some(Save::Native) => {
                    let saved = sheet.save_package(&bytes).unwrap();
                    let saved = saved.map_err(|error| error.to_string())?;
                    root.put(&output.unwrap(), saved);
                }
            }
            Ok(value(&report.to_json()))
        }
    }
}

struct Run {
    code: i32,
    stdout: String,
    stderr: String,
}

impl Run {
    fn success(&self) -> bool {
        self.code == 0
    }
}

fn text(value: &str) -> Arg {
    Arg::Text(value.into())
}

fn run_args(root: &Files, args: Vec<Arg>) -> Run {
    match perform(root, args) {
        Ok(value) => Run { code: 0, stdout: format!("{value}\n"), stderr: String::new() },
        Err(message) => Run { code: 1, stdout: String::new(), stderr: format!("qd: {message}\n") },
    }
}

fn run(root: &Files, args: &[&str]) -> Run {
    run_args(root, args.iter().map(|a| text(a)).collect())
}

fn qd(root: &Files, source: &str, args: &[&str]) -> Run {
    let mut all = vec![source];
    all.extend(args);
    run(root, &all)
}

fn success(result: Run) -> Value {
    assert_eq!((result.code, result.stderr.as_str()), (0, ""));
    serde_json::from_str(&result.stdout).unwrap()
}

fn failure(result: Run) -> String {
    assert!(!result.success(), "{}", result.stdout);
    assert!(result.stdout.is_empty());
    result.stderr
}

/// Files data.csv, data.tsv, book.xlsx, book.ods and patch files.
fn fixtures() -> Files {
    let root = Files::new();
    root.put("data.csv", CSV);
    root.put("data.tsv", "a\tb\n1\t2\n");
    root.put("semi.csv", "a;b\n1;2\n");
    root.put("bad.csv", b"a,b\n\xff,c\n");
    root.put("exists.csv", "keep\n");
    for (name, text) in [
        (
            "patch.json",
            r#"[{"cell":"B2","value":"patched"},{"cell":"a3","value":"00000"}]"#,
        ),
        ("empty.json", "[]"),
        ("broken.json", "[{"),
        ("object.json", "{}"),
        ("number.json", "[1]"),
        ("one.json", r#"[{"cell":"A1"}]"#),
        ("three.json", r#"[{"cell":"A1","value":"x","extra":1}]"#),
        ("cellnum.json", r#"[{"cell":1,"value":"x"}]"#),
        ("other.json", r#"[{"a":"A1","b":"x"}]"#),
        ("valuenum.json", r#"[{"cell":"A1","value":1}]"#),
        ("row0.json", r#"[{"cell":"A0","value":"x"}]"#),
        (
            "order.json",
            r#"[{"cell":"A0","value":"x"},{"cell":"B1","value":1}]"#,
        ),
    ] {
        root.put(name, text);
    }
    root.put("book.xlsx", book_xlsx());
    root.put("book.ods", book_ods());
    root
}

fn document(root: &Files, args: &[&str]) -> Value {
    let result = run(root, args);
    assert_eq!((result.code, result.stderr.as_str()), (0, ""), "{args:?}");
    assert!(result.stdout.ends_with('\n') && result.stdout.lines().count() == 1);
    serde_json::from_str(&result.stdout).unwrap()
}

/// `--check` output with its timing checked and removed.
fn checked(root: &Files, args: &[&str]) -> Value {
    let mut value = document(root, args);
    let elapsed = value
        .as_object_mut()
        .unwrap()
        .remove("elapsed_seconds")
        .unwrap();
    assert!(elapsed.as_f64().unwrap() >= 0.0);
    value
}

#[test]
fn golden_check_and_sheets() {
    let root = fixtures();
    let bytes = |name: &str| root.bytes(name).len();
    assert_eq!(
        checked(&root, &["data.csv", "--check"]),
        v(r#"{"records": 3, "bytes": 58, "index_bytes": 8}"#)
    );
    let xlsx = checked(&root, &["--check", "book.xlsx"]);
    assert_eq!(
        xlsx.as_object().unwrap().keys().collect::<Vec<_>>(),
        [
            "bytes",
            "format",
            "index_bytes",
            "records",
            "sheet",
            "source_bytes"
        ]
    );
    assert_eq!(
        (&xlsx["records"], &xlsx["sheet"], &xlsx["format"]),
        (&v(r#"5"#), &v(r#""Data""#), &v(r#""XLSX""#))
    );
    assert_eq!(xlsx["source_bytes"], bytes("book.xlsx"));
    let notes = checked(&root, &["book.ods", "--sheet", "Notes õ", "--check"]);
    assert_eq!(
        (&notes["records"], &notes["sheet"], &notes["format"]),
        (&v(r#"3"#), &v(r#""Notes õ""#), &v(r#""ODS""#))
    );
    assert_eq!(notes["source_bytes"], bytes("book.ods"));
    // --sheets reports the path as given, not canonicalized.
    assert_eq!(
        document(&root, &["--sheets", "book.xlsx"]),
        v(r#"{"source": "book.xlsx", "sheets": ["Data", "Notes õ"]}"#)
    );
    assert_eq!(
        document(&root, &["./book.ods", "--sheets"]),
        v(r#"{"source": "./book.ods", "sheets": ["Data", "Notes õ"]}"#)
    );
}

#[test]
fn golden_read_edit_sort_save() {
    let root = fixtures();
    assert_eq!(
        document(&root, &["data.csv", "--read", "A2:C3"]),
        v(r#"{ "source": "/work/data.csv", "changes": [], "dry_run": false, "range": "A2:C3", "rows": [["00123", "Tallinn", "line 1\nline 2"], ["00456", "Tartu", null]] }"#)
    );
    assert_eq!(
        document(&root, &["data.csv", "--read", "c3"]),
        v(r#"{"source": "/work/data.csv", "changes": [], "dry_run": false, "range": "C3:C3", "rows": [[null]]}"#)
    );
    assert_eq!(
        document(&root, &["data.csv", "--read", "B1:B1", "--dry-run"]),
        v(r#"{"source": "/work/data.csv", "changes": [], "dry_run": true, "range": "B1:B1", "rows": [["name"]]}"#)
    );
    assert_eq!(
        document(
            &root,
            &[
                "data.csv",
                "--set",
                "B2",
                "changed",
                "--read",
                "B2",
                "--dry-run"
            ]
        ),
        v(r#"{ "source": "/work/data.csv", "dry_run": true, "range": "B2:B2", "rows": [["changed"]], "changes": [{"cell": "B2", "before": "Tallinn", "after": "changed"}] }"#)
    );
    // Changes are sorted by cell, deduplicated, and unchanged values are omitted.
    assert_eq!(
        document(
            &root,
            &[
                "data.csv",
                "--set",
                "C2",
                "c",
                "--set",
                "A3",
                "x",
                "--set",
                "A3",
                "y",
                "--set",
                "A2",
                "00123",
                "--dry-run"
            ]
        ),
        v(r#"{ "source": "/work/data.csv", "dry_run": true, "changes": [ {"cell": "C2", "before": "line 1\nline 2", "after": "c"}, {"cell": "A3", "before": "00456", "after": "y"} ] }"#)
    );
    assert_eq!(
        document(&root, &["data.csv", "--apply", "empty.json", "--dry-run"]),
        v(r#"{"source": "/work/data.csv", "changes": [], "dry_run": true}"#)
    );
    assert_eq!(
        document(&root, &["data.csv", "--dry-run"]),
        v(r#"{"source": "/work/data.csv", "changes": [], "dry_run": true}"#)
    );
    assert_eq!(
        document(
            &root,
            &[
                "data.csv",
                "--apply",
                "patch.json",
                "--output",
                "patched.csv"
            ]
        ),
        v(r#"{ "source": "/work/data.csv", "dry_run": false, "output": "patched.csv", "changes": [ {"cell": "B2", "before": "Tallinn", "after": "patched"}, {"cell": "A3", "before": "00456", "after": "00000"} ] }"#)
    );
    assert_eq!(
        root.text("patched.csv"),
        "id,name,note\r\n00123,patched,\"line 1\nline 2\"\r\n00000,Tartu\r\n"
    );
    assert_eq!(
        document(&root, &["data.csv", "-o", "copy.csv"]),
        v(r#"{"source": "/work/data.csv", "changes": [], "dry_run": false, "output": "copy.csv"}"#)
    );
    assert_eq!(root.text("copy.csv"), CSV);
    assert_eq!(
        document(
            &root,
            &["data.csv", "--sort", "B,-A", "--read", "A1:B3", "--dry-run"]
        ),
        v(r#"{ "source": "/work/data.csv", "changes": [], "dry_run": true, "range": "A1:B3", "sort": {"columns": "B,-A", "header": true, "changes_coordinates": "source", "read_coordinates": "sorted_view"}, "rows": [["id", "name"], ["00123", "Tallinn"], ["00456", "Tartu"]] }"#)
    );
    assert_eq!(
        document(
            &root,
            &[
                "data.csv",
                "--sort",
                "B,-A",
                "--no-header",
                "--read",
                "A1:B3"
            ]
        ),
        v(r#"{ "source": "/work/data.csv", "changes": [], "dry_run": false, "range": "A1:B3", "sort": {"columns": "B,-A", "header": false, "changes_coordinates": "source", "read_coordinates": "sorted_view"}, "rows": [["00123", "Tallinn"], ["00456", "Tartu"], ["id", "name"]] }"#)
    );
    assert_eq!(
        document(
            &root,
            &[
                "data.csv",
                "--set",
                "B3",
                "Aa",
                "--sort",
                "B,-A",
                "--output",
                "sorted.csv"
            ]
        ),
        v(r#"{ "source": "/work/data.csv", "dry_run": false, "output": "sorted.csv", "sort": {"columns": "B,-A", "header": true, "changes_coordinates": "source", "read_coordinates": "sorted_view"}, "changes": [{"cell": "B3", "before": "Tartu", "after": "Aa"}] }"#)
    );
    assert_eq!(
        root.text("sorted.csv"),
        "id,name,note\n00456,Aa\n00123,Tallinn,\"line 1\nline 2\"\n"
    );
    // The source itself may be replaced.
    root.put("inplace.csv", "a\n1\n");
    assert_eq!(
        document(
            &root,
            &["inplace.csv", "--set", "A2", "2", "--output", "inplace.csv"]
        ),
        v(r#"{ "source": "/work/inplace.csv", "dry_run": false, "output": "/work/inplace.csv", "changes": [{"cell": "A2", "before": "1", "after": "2"}] }"#)
    );
}

#[test]
fn golden_delimiters_and_positional_arguments() {
    let root = fixtures();
    let rows = |name: &str, args: &[&str]| {
        let mut all = vec![name];
        all.extend(args);
        let value = document(&root, &all);
        assert_eq!(value["source"], format!("/work/{name}"));
        value["rows"].clone()
    };
    for args in [["-d", "tab"], ["--delimiter", "\\t"], ["-d", "\t"]] {
        assert_eq!(
            rows("data.tsv", &[args[0], args[1], "--read", "A1:B2"]),
            v(r#"[["a", "b"], ["1", "2"]]"#)
        );
    }
    assert_eq!(
        rows("semi.csv", &["--delimiter", ";", "--read", "B2"]),
        v(r#"[["2"]]"#)
    );
    // Without a delimiter option the whole line is one field.
    assert_eq!(
        rows("data.tsv", &["--read", "A1:B1"]),
        v(r#"[["a\tb", null]]"#)
    );
    // After --, option-like arguments are file names.
    root.put("-dash.csv", "x\n");
    let value = document(&root, &["--read", "A1", "--", "-dash.csv"]);
    assert_eq!(value["source"], "/work/-dash.csv");
    assert_eq!(value["rows"], v(r#"[["x"]]"#));
}

#[test]
fn golden_workbooks() {
    let root = fixtures();
    let notes =
        v(r#""existing results are cached; new formulas are calculated when the saved file opens""#);
    let edit_type = v(r#""text; XLSX values beginning with = are formulas""#);
    assert_eq!(
        document(&root, &["book.xlsx", "--read", "C2:E2"]),
        v(r#"{ "source": "/work/book.xlsx", "sheet": "Data", "format": "XLSX", "changes": [], "dry_run": false, "formula_results": "existing results are cached; new formulas are calculated when the saved file opens", "edit_type": "text; XLSX values beginning with = are formulas", "range": "C2:E2", "rows": [["Tallinn", "12", ""]], "formulas": {"D2": "SUM(B2:B3)", "E2": "1+1"} }"#)
    );
    assert_eq!(
        document(
            &root,
            &[
                "book.xlsx",
                "--set",
                "G2",
                "=1+1",
                "--set",
                "b2",
                "11",
                "--read",
                "B2:G2",
                "--dry-run"
            ]
        ),
        v(r#"{ "source": "/work/book.xlsx", "sheet": "Data", "format": "XLSX", "dry_run": true, "formula_results": "existing results are cached; new formulas are calculated when the saved file opens", "edit_type": "text; XLSX values beginning with = are formulas", "range": "B2:G2", "rows": [["11", "Tallinn", "12", "", "", "=1+1"]], "formulas": {"D2": "SUM(B2:B3)", "E2": "1+1", "G2": "1+1"}, "changes": [ {"cell": "B2", "before": "10", "after": "11"}, {"cell": "G2", "before": "", "after": "=1+1"} ] }"#)
    );
    assert_eq!(
        document(
            &root,
            &["book.ods", "--sheet", "Notes õ", "--read", "A3:B3"]
        ),
        v(r#"{ "source": "/work/book.ods", "sheet": "Notes õ", "format": "ODS", "changes": [], "dry_run": false, "formula_results": "existing results are cached; new formulas are calculated when the saved file opens", "edit_type": "text; XLSX values beginning with = are formulas", "range": "A3:B3", "rows": [["", "Tallinn notes"]], "formulas": {} }"#)
    );
    assert_eq!(
        document(
            &root,
            &[
                "book.ods",
                "--sort",
                "B:n",
                "--read",
                "B1:B3",
                "--output",
                "sorted.csv"
            ]
        ),
        v(r#"{ "source": "/work/book.ods", "sheet": "Data", "format": "ODS", "changes": [], "dry_run": false, "formula_results": "existing results are cached; new formulas are calculated when the saved file opens", "edit_type": "text; XLSX values beginning with = are formulas", "range": "B1:B3", "rows": [["amount"], ["2"], ["10"]], "formulas": {}, "output": "sorted.csv", "sort": {"columns": "B:n", "header": true, "changes_coordinates": "source", "read_coordinates": "sorted_view"} }"#)
    );
    assert_eq!(
        document(
            &root,
            &[
                "book.xlsx",
                "--find",
                "Tallinn",
                "--columns",
                "C",
                "--sort",
                "-A"
            ]
        ),
        v(r#"{ "source": "/work/book.xlsx", "sheet": "Data", "format": "XLSX", "coordinates": "sorted_view", "find": {"text": "Tallinn", "columns": ["C"], "exact": false, "ignore_case": false, "from": "A1", "limit": 100}, "matches": [{"cell": "C3", "value": "Tallinn"}], "next": null, "records_scanned": 5, "sort": {"columns": "-A", "header": true, "changes_coordinates": "source", "read_coordinates": "sorted_view"} }"#)
    );
}

#[test]
fn golden_find() {
    let root = fixtures();
    assert_eq!(
        document(
            &root,
            &[
                "data.csv",
                "--set",
                "B3",
                "Tallinn",
                "--sort",
                "A",
                "--no-header",
                "--find",
                "tallinn",
                "--ignore-case",
                "--exact",
                "--from",
                "B1",
                "--limit",
                "1",
                "--dry-run"
            ]
        ),
        v(r#"{ "source": "/work/data.csv", "coordinates": "sorted_view", "dry_run": true, "find": {"text": "tallinn", "columns": null, "exact": true, "ignore_case": true, "from": "B1", "limit": 1}, "matches": [{"cell": "B1", "value": "Tallinn"}], "next": "C1", "records_scanned": 1, "changes": [{"cell": "B3", "before": "Tartu", "after": "Tallinn"}], "sort": {"columns": "A", "header": false, "changes_coordinates": "source", "read_coordinates": "sorted_view"} }"#)
    );
    assert_eq!(
        document(&root, &["data.csv", "--find", "x", "--dry-run"]),
        v(r#"{ "source": "/work/data.csv", "coordinates": "source", "dry_run": true, "changes": [], "find": {"text": "x", "columns": null, "exact": false, "ignore_case": false, "from": "A1", "limit": 100}, "matches": [], "next": null, "records_scanned": 3 }"#)
    );
    assert_eq!(
        document(
            &root,
            &[
                "data.csv",
                "--find",
                "0",
                "--columns",
                "c,A,a",
                "--from",
                "a3"
            ]
        ),
        v(r#"{ "source": "/work/data.csv", "coordinates": "source", "find": {"text": "0", "columns": ["A", "C"], "exact": false, "ignore_case": false, "from": "A3", "limit": 100}, "matches": [{"cell": "A3", "value": "00456"}], "next": null, "records_scanned": 1 }"#)
    );
}

#[test]
fn golden_rejections() {
    let root = fixtures();
    let cases: &[(&[&str], &str)] = &[
        // Argument errors are reported in argument order.
        (&["--check"], "Missing filename"),
        (&["a.csv", "b.csv"], "Open one file at a time"),
        (&["data.csv", "--bogus"], "Unknown option: --bogus"),
        (&["data.csv", "-x", "--read", "A0"], "Unknown option: -x"),
        (&["data.csv", "--read", "A0", "--bogus"], "Rows start at 1"),
        (&["data.csv", "--read", "A0", "--help"], "Rows start at 1"),
        (&["data.csv", "--read"], "Missing value for --read"),
        (&["data.csv", "--sheet"], "Missing value for --sheet"),
        (&["data.csv", "--sort"], "Missing value for --sort"),
        (&["data.csv", "-d"], "Missing value for --delimiter"),
        (&["data.csv", "--set"], "Missing value for --set CELL"),
        (
            &["data.csv", "--set", "B2"],
            "Missing value for --set VALUE",
        ),
        (
            &["data.csv", "--set", "2B", "x"],
            "Use a cell address such as B7",
        ),
        (&["data.csv", "--apply"], "Missing JSON patch filename"),
        (&["data.csv", "-o"], "Missing output filename"),
        (&["data.csv", "--output"], "Missing output filename"),
        (
            &["data.csv", "-d", "ab"],
            "Delimiter must be one ASCII character or 'tab'",
        ),
        (
            &["data.csv", "-d", "õ"],
            "Delimiter must be one ASCII character or 'tab'",
        ),
        (
            &["data.csv", "-d", "", "--check"],
            "Delimiter must be one ASCII character or 'tab'",
        ),
        (
            &["data.csv", "-d", "\"", "--check"],
            "Delimiter must be a single ASCII byte other than a quote, CR, LF or NUL",
        ),
        // Cell and range syntax.
        (&["data.csv", "--read", ""], "Use a cell address such as B7"),
        (
            &["data.csv", "--read", "1"],
            "Use a cell address such as B7",
        ),
        (
            &["data.csv", "--read", "B"],
            "Use a cell address such as B7",
        ),
        (
            &["data.csv", "--read", "A1x"],
            "Use a cell address such as B7",
        ),
        (
            &["data.csv", "--read", "A-1"],
            "Use a cell address such as B7",
        ),
        (
            &["data.csv", "--read", "🦀1"],
            "Use a cell address such as B7",
        ),
        (
            &["data.csv", "--read", "$A$1"],
            "Use a cell address such as B7",
        ),
        (
            &["data.csv", "--read", "A1:"],
            "Use a cell address such as B7",
        ),
        (
            &["data.csv", "--read", "A1:B2:C3"],
            "Use a cell address such as B7",
        ),
        (
            &["data.csv", "--read", "A18446744073709551616"],
            "number too large to fit in target type",
        ),
        (
            &["data.csv", "--read", "AAAAAAAAAAAAAAAAAAAA1"],
            "Column address is too large",
        ),
        (
            &["data.csv", "--read", "B2:A1"],
            "Range must run from top-left to bottom-right",
        ),
        (
            &["data.csv", "--read", "B1:A2"],
            "Range must run from top-left to bottom-right",
        ),
        (
            &["data.csv", "--read", "A1:A10001"],
            "Read at most 100,000 cells and 10,000 rows at a time; request large datasets in chunks",
        ),
        (
            &["data.csv", "--read", "A1:ZZZ100"],
            "Read at most 100,000 cells and 10,000 rows at a time; request large datasets in chunks",
        ),
        (
            &["data.csv", "--read", "A1:XFD10000"],
            "Read at most 100,000 cells and 10,000 rows at a time; request large datasets in chunks",
        ),
        (
            &["data.csv", "--read", "A4"],
            "Requested range extends beyond the last row",
        ),
        (
            &["data.csv", "--read", "A2:A4"],
            "Requested range extends beyond the last row",
        ),
        // Patches.
        (
            &["data.csv", "--apply", "missing.json"],
            "No such file or directory (os error 2)",
        ),
        (
            &["data.csv", "--apply", "broken.json"],
            "EOF while parsing an object at line 1 column 2",
        ),
        (
            &["data.csv", "--apply", "object.json"],
            "Patch must be an array of {cell, value} objects",
        ),
        (
            &["data.csv", "--apply", "number.json"],
            "Each patch entry must be an object",
        ),
        (
            &["data.csv", "--apply", "one.json"],
            "Each patch entry must contain only cell and value",
        ),
        (
            &["data.csv", "--apply", "three.json"],
            "Each patch entry must contain only cell and value",
        ),
        (
            &["data.csv", "--apply", "cellnum.json"],
            "Patch cell must be an A1-style string",
        ),
        (
            &["data.csv", "--apply", "other.json"],
            "Patch cell must be an A1-style string",
        ),
        (
            &["data.csv", "--apply", "valuenum.json"],
            "Patch value must be a string; no automatic type conversion",
        ),
        (&["data.csv", "--apply", "row0.json"], "Rows start at 1"),
        (&["data.csv", "--apply", "order.json"], "Rows start at 1"),
        (
            &["data.csv", "--apply", "empty.json"],
            "Edits require --dry-run or --output NEW_FILE",
        ),
        (
            &["data.csv", "--apply", "patch.json", "--bogus"],
            "Unknown option: --bogus",
        ),
        // Combinations.
        (
            &["data.csv", "--set", "B2", "x"],
            "Edits require --dry-run or --output NEW_FILE",
        ),
        (
            &["data.csv", "--no-header", "--dry-run"],
            "--no-header requires --sort",
        ),
        (
            &["data.csv", "--sort", "A"],
            "Use --sort with --read, --find, --dry-run or --output; use F6 to sort in the TUI",
        ),
        (
            &["data.csv", "--sort", "A,A", "--dry-run"],
            "A sort column may only appear once",
        ),
        (
            &["data.csv", "--sort", "1", "--dry-run"],
            "Use column letters, commas, - for descending and :n for numbers; e.g. B,-D:n",
        ),
        (
            &["data.csv", "--sort", "", "--dry-run"],
            "Use column letters, commas, - for descending and :n for numbers; e.g. B,-D:n",
        ),
        (
            &[
                "data.csv",
                "--sort",
                "AAAAAAAAAAAAAAAAAAAAAAAA",
                "--dry-run",
            ],
            "Column is too large",
        ),
        (
            &["data.csv", "--sort", "D", "--dry-run"],
            "Sort column 4 is outside the header",
        ),
        (
            &["data.csv", "--dry-run", "-o", "new.csv"],
            "Choose --dry-run or --output, not both",
        ),
        (
            &["data.csv", "--check", "--dry-run"],
            "--check cannot be combined with read/edit/save options",
        ),
        (
            &["data.csv", "--check", "--read", "A1"],
            "--check cannot be combined with read/edit/save options",
        ),
        (
            &["data.csv", "--check", "-o", "new.csv"],
            "--check cannot be combined with read/edit/save options",
        ),
        (
            &["data.csv", "--check", "--sort", "A", "--read", "A1"],
            "--check cannot be combined with read/edit/save options",
        ),
        (
            &["data.csv", "--sheets"],
            "--sheets requires an XLSX or ODS workbook",
        ),
        (&["--sheets"], "Missing workbook filename"),
        (
            &["book.xlsx", "--sheets", "--check"],
            "Use --sheets by itself with a workbook filename",
        ),
        (
            &["book.xlsx", "--sheets", "--sheet", "Data"],
            "Use --sheets by itself with a workbook filename",
        ),
        (
            &["book.xlsx", "--sheets", "-d", ";"],
            "Use --sheets by itself with a workbook filename",
        ),
        (
            &["book.xlsx", "--sheets", "--no-header"],
            "Use --sheets by itself with a workbook filename",
        ),
        (
            &["book.xlsx", "--sheets", "--apply", "empty.json"],
            "Use --sheets by itself with a workbook filename",
        ),
        (
            &["book.xlsx", "--sheets", "--dry-run"],
            "Use --sheets by itself with a workbook filename",
        ),
        (
            &["book.xlsx", "--sheets", "-o", "x.xlsx"],
            "Use --sheets by itself with a workbook filename",
        ),
        (
            &["book.xlsx", "--sheets", "--sort", "A"],
            "Use --sheets by itself with a workbook filename",
        ),
        (
            &["book.xlsx", "--sheets", "--read", "A1"],
            "Use --sheets by itself with a workbook filename",
        ),
        // Find rules precede --sheets and edit rules.
        (
            &["book.xlsx", "--sheets", "--exact"],
            "--exact, --ignore-case, --columns, --from and --limit require --find",
        ),
        (
            &["data.csv", "--find", "a", "--read", "A1", "--sheets"],
            "--find cannot be combined with --read, --output or --check",
        ),
        // Opening. Without headless options the TUI needs a terminal.
        (
            &["data.csv"],
            "The editor needs a terminal. Use --read, --apply or --check for headless commands",
        ),
        (
            &["book.ods", "--sheet", "Notes õ"],
            "The editor needs a terminal. Use --read, --apply or --check for headless commands",
        ),
        (&["missing.csv"], "No such file or directory (os error 2)"),
        (
            &["missing.csv", "--check"],
            "No such file or directory (os error 2)",
        ),
        (
            &["data.csv", "--sheet", "Data", "--check"],
            "--sheet applies to XLSX and ODS workbooks only",
        ),
        (
            &["book.xlsx", "-d", ";", "--check"],
            "--delimiter applies to CSV files only",
        ),
        (
            &["book.xlsx", "--sheet", "missing", "--read", "A1"],
            "No sheet named \"missing\"; use --sheets",
        ),
        (
            &["bad.csv", "--check"],
            "CSV parse error: record 1 (line 2, field: 0, byte: 4): invalid utf-8: invalid UTF-8 in field 0 near byte index 0",
        ),
        (
            &["bad.csv", "--read", "A2"],
            "CSV parse error: record 1 (line 2, field: 0, byte: 4): invalid utf-8: invalid UTF-8 in field 0 near byte index 0",
        ),
        // Edits and saves.
        (
            &["data.csv", "--set", "D3", "x", "--dry-run"],
            "No cell at this position",
        ),
        (
            &["data.csv", "-o", "exists.csv"],
            "Destination already exists; choose a new filename",
        ),
        (
            &["data.csv", "-o", "new.xlsx"],
            "CSV to workbook conversion is not supported; use a CSV destination",
        ),
        (
            &["book.xlsx", "--set", "D2", "1", "--dry-run"],
            "Formula and merged/array cells are read-only in this version",
        ),
        (
            &["book.xlsx", "--set", "XFE1", "x", "--dry-run"],
            "No cell at this position",
        ),
        (
            &["book.xlsx", "-o", "x.ods"],
            "Save as .xlsx to preserve the workbook, or .csv to export the selected sheet",
        ),
        (
            &["book.xlsx", "--sort", "A", "-o", "x.xlsx"],
            "Native workbook saves require source row order: clear the sort, or export the sorted view as .csv",
        ),
    ];
    for &(args, message) in cases {
        let result = run(&root, args);
        assert_eq!(
            (result.code, result.stdout.as_str(), result.stderr.as_str()),
            (1, "", format!("qd: {message}\n").as_str()),
            "{args:?}"
        );
    }
    // Every line of the existing find rejection table, with its full text.
    for (args, message) in [
        (
            &["--exact"][..],
            "--exact, --ignore-case, --columns, --from and --limit require --find",
        ),
        (
            &["--ignore-case"],
            "--exact, --ignore-case, --columns, --from and --limit require --find",
        ),
        (
            &["--columns", "A"],
            "--exact, --ignore-case, --columns, --from and --limit require --find",
        ),
        (
            &["--from", "A1"],
            "--exact, --ignore-case, --columns, --from and --limit require --find",
        ),
        (
            &["--limit", "5"],
            "--exact, --ignore-case, --columns, --from and --limit require --find",
        ),
        (
            &["--find", ""],
            "--find needs text; use --exact --find '' to find empty cells",
        ),
        (&["--find"], "Missing value for --find"),
        (&["--find", "a", "--columns"], "Missing value for --columns"),
        (&["--find", "a", "--from"], "Missing value for --from"),
        (&["--find", "a", "--limit"], "Missing value for --limit"),
        (
            &["--find", "a", "--read", "A1"],
            "--find cannot be combined with --read, --output or --check",
        ),
        (
            &["--find", "a", "--output", "out.csv"],
            "--find cannot be combined with --read, --output or --check",
        ),
        (
            &["--find", "a", "--check"],
            "--find cannot be combined with --read, --output or --check",
        ),
        (
            &["--find", "a", "--set", "A1", "x"],
            "Edits require --dry-run or --output NEW_FILE",
        ),
        (
            &["--find", "a", "--limit", "0"],
            "--limit must be a whole number from 1 to 10,000",
        ),
        (
            &["--find", "a", "--limit", "10001"],
            "--limit must be a whole number from 1 to 10,000",
        ),
        (
            &["--find", "a", "--limit", "-1"],
            "--limit must be a whole number from 1 to 10,000",
        ),
        (
            &["--find", "a", "--limit", "many"],
            "--limit must be a whole number from 1 to 10,000",
        ),
        (
            &["--find", "a", "--columns", ""],
            "Use column letters such as B, not \"\"",
        ),
        (
            &["--find", "a", "--columns", "A,,B"],
            "Use column letters such as B, not \"\"",
        ),
        (
            &["--find", "a", "--columns", "A, B"],
            "Use column letters such as B, not \" B\"",
        ),
        (
            &["--find", "a", "--columns", "A,"],
            "Use column letters such as B, not \"\"",
        ),
        (
            &["--find", "a", "--columns", "B1"],
            "Use column letters such as B, not \"B1\"",
        ),
        (
            &["--find", "a", "--columns", "ZZZZZZZZZZZZZZZZZZZZZZZZ"],
            "Column address is too large",
        ),
        (&["--find", "a", "--from", "A0"], "Rows start at 1"),
        (
            &["--find", "a", "--from", "ZZZZZZZZZZZZZZZZZZZZZZZZ1"],
            "Column address is too large",
        ),
        (
            &["--find", "a", "--from", "B"],
            "Use a cell address such as B7",
        ),
        (
            &["--find", "a", "--no-header"],
            "--no-header requires --sort",
        ),
        (
            &["--find", "a", "--sort", "A,A"],
            "A sort column may only appear once",
        ),
        (
            &["--find", "a", "--sheets"],
            "Use --sheets by itself with a workbook filename",
        ),
    ] {
        let mut all = vec!["data.csv"];
        all.extend(args);
        let result = run(&root, &all);
        assert_eq!(
            (result.code, result.stdout.as_str(), result.stderr.as_str()),
            (1, "", format!("qd: {message}\n").as_str()),
            "{all:?}"
        );
    }
}

#[test]
fn golden_non_utf8_arguments() {
    let root = fixtures();
    let bad = || Arg::Bytes(vec![0xff]);
    for option in [
        "--sheet",
        "--sort",
        "--find",
        "--columns",
        "--from",
        "--limit",
        "--read",
        "--delimiter",
    ] {
        let result = run_args(&root, vec![text("data.csv"), text(option), bad()]);
        assert_eq!(
            (result.code, result.stdout.as_str(), result.stderr),
            (1, "", format!("qd: {option} requires UTF-8 text\n")),
        );
    }
    for (args, message) in [
        (vec!["data.csv", "--set"], "--set CELL requires UTF-8 text"),
        (
            vec!["data.csv", "--set", "B2"],
            "--set VALUE requires UTF-8 text",
        ),
    ] {
        let mut all: Vec<Arg> = args.iter().map(|a| text(a)).collect();
        all.push(bad());
        let result = run_args(&root, all);
        assert_eq!(
            (result.code, result.stdout.as_str(), result.stderr),
            (1, "", format!("qd: {message}\n")),
            "{args:?}"
        );
    }
    // Non-UTF-8 file names are passed through to the file system.
    let result = run_args(&root, vec![text("data.csv"), text("--apply"), bad()]);
    assert_eq!(
        (result.code, result.stderr.as_str()),
        (1, "qd: No such file or directory (os error 2)\n")
    );
}

#[test]
fn agent_read_patch_preview_save_and_failed_batch() {
    let root = Files::new();
    let source = "source.csv";
    let original = "id,name,note\r\n00123,Tallinn,\"line 1\nline 2\"\r\n00456,Tartu\r\n";
    root.put(source, original);
    assert_eq!(success(qd(&root, source, &["--check"]))["records"], 3);
    assert_eq!(
        success(qd(&root, source, &["--read", "A2:C3"]))["rows"],
        v(r#"[ ["00123", "Tallinn", "line 1\nline 2"], ["00456", "Tartu", null] ]"#)
    );
    let preview = success(qd(&root, source,
        &["--set", "B2", "changed", "--read", "B2", "--dry-run"],
    ));
    assert_eq!(
        preview["changes"],
        v(r#"[{"cell":"B2", "before":"Tallinn", "after":"changed"}]"#)
    );
    assert_eq!(preview["rows"], v(r#"[["changed"]]"#));
    assert_eq!(preview["dry_run"], true);
    assert_eq!(
        success(qd(&root, source,
            &[
                "--set",
                "B2",
                "changed",
                "--set",
                "B2",
                "Tallinn",
                "--dry-run"
            ]
        ))["changes"],
        v(r#"[]"#)
    );
    let patch = "patch.json";
    root.put(patch, r#"[{"cell":"B2","value":"New, \"quoted\"\ncity 🦀"},{"cell":"A3","value":"00000"}]"#);
    let dest = "edited.csv";
    success(qd(&root, source,
        &[
            "--apply",
            patch,
            "--output",
            dest,
        ],
    ));
    assert_eq!(
        success(qd(&root, dest, &["--read", "A2:C3"]))["rows"],
        v(r#"[ ["00123", "New, \"quoted\"\ncity 🦀", "line 1\nline 2"], ["00000", "Tartu", null] ]"#)
    );
    let saved = root.bytes(dest);
    assert!(
        !qd(&root, source, &["--output", dest])
            .success()
    );
    assert_eq!(root.bytes(dest), saved);
    let rejected = "rejected.csv";
    assert!(
        !qd(&root, source,
            &[
                "--set",
                "B2",
                "valid",
                "--set",
                "C3",
                "missing",
                "--output",
                rejected
            ]
        )
        .success()
    );
    assert!(!root.has(rejected));
    for args in [
        vec!["--read", "A4"],
        vec!["--set", "B2", "lost"],
        vec!["--read", "A1:ZZZ10000"],
        vec!["--check", "--dry-run"],
    ] {
        assert!(!qd(&root, source, &args).success(), "{args:?}");
    }
    root.put(patch, r#"[{"cell":"B2","value":123}]"#);
    assert!(
        !qd(&root, source, &["--apply", patch, "--dry-run"])
            .success()
    );
    root.put(patch, "[]");
    assert!(
        !qd(&root, source, &["--apply", patch])
            .success()
    );
    let copy = "copy.csv";
    success(qd(&root, source, &["--output", copy]));
    assert_eq!(root.text(copy), original);
    assert_eq!(root.text(source), original);
}

#[test]
fn agent_sort_reads_and_exports_the_same_order() {
    let root = Files::new();
    let source = "source.csv";
    root.put(source, "id,amount\nx,10\ny,2\nz,2\n");
    let preview = success(qd(&root, source,
        &["--sort", "B:n,-A", "--read", "A1:B4", "--dry-run"],
    ));
    assert_eq!(
        preview["rows"],
        v(r#"[["id", "amount"], ["z", "2"], ["y", "2"], ["x", "10"]]"#)
    );
    let dest = "sorted.csv";
    success(qd(&root, source,
        &[
            "--set",
            "B2",
            "1",
            "--sort",
            "B:n",
            "--output",
            dest,
        ],
    ));
    assert_eq!(
        success(qd(&root, dest, &["--read", "A2:B4"]))["rows"],
        v(r#"[["x", "1"], ["y", "2"], ["z", "2"]]"#)
    );
    assert!(
        !qd(&root, source, &["--sort", "B:n", "--no-header", "--dry-run"])
            .success()
    );
    assert!(!qd(&root, source, &["--sort", "A"]).success());
}

#[test]
fn agent_find_options_and_output_shape() {
    let root = Files::new();
    let source = "source.csv";
    root.put(source, "id,city,note\n1,Tallinn,x\n2,Tartu,\n3,tallinn-Nõmme,Tallinn\n4\n");
    let found = success(qd(&root, source, &["--find", "Tallinn"]));
    assert_eq!(
        found,
        v(r#"{ "source": "/work/source.csv", "find": {"text": "Tallinn", "columns": null, "exact": false, "ignore_case": false, "from": "A1", "limit": 100}, "coordinates": "source", "matches": [{"cell": "B2", "value": "Tallinn"}, {"cell": "C4", "value": "Tallinn"}], "next": null, "records_scanned": 5 }"#)
    );
    let page = success(qd(&root, source,
        &[
            "--find",
            "TALLINN",
            "--ignore-case",
            "--columns",
            "c,b,B",
            "--from",
            "b2",
            "--limit",
            "2",
        ],
    ));
    assert_eq!(
        page["find"],
        v(r#"{"text": "TALLINN", "columns": ["B", "C"], "exact": false, "ignore_case": true, "from": "B2", "limit": 2}"#)
    );
    assert_eq!(
        page["matches"],
        v(r#"[{"cell": "B2", "value": "Tallinn"}, {"cell": "B4", "value": "tallinn-Nõmme"}]"#)
    );
    assert_eq!(page["next"], "C4");
    assert_eq!(page["records_scanned"], 3);
    let rest = success(qd(&root, source,
        &[
            "--find",
            "TALLINN",
            "--ignore-case",
            "--columns",
            "B,C",
            "--from",
            "C4",
            "--limit",
            "2",
        ],
    ));
    assert_eq!(rest["matches"], v(r#"[{"cell": "C4", "value": "Tallinn"}]"#));
    assert_eq!(rest["next"], Value::Null);
    let empty = success(qd(&root, source, &["--exact", "--find", ""]));
    assert_eq!(empty["matches"], v(r#"[{"cell": "C3", "value": ""}]"#));
    assert_eq!(empty["find"]["exact"], true);
    let exact = success(qd(&root, source,
        &["--find", "Tallinn", "--exact", "--columns", "B"],
    ));
    assert_eq!(
        exact["matches"],
        v(r#"[{"cell": "B2", "value": "Tallinn"}]"#)
    );
    let last = success(qd(&root, source,
        &["--find", "4", "--limit", "1", "--from", "A5"],
    ));
    assert_eq!(
        (&last["next"], &last["records_scanned"]),
        (&v(r#""B5""#), &v(r#"1"#))
    );
    assert_eq!(
        success(qd(&root, source, &["--find", "4", "--from", "B5"]))["matches"],
        v(r#"[]"#)
    );
    assert_eq!(
        success(qd(&root, source, &["--find", "a", "--limit", "10000"]))["find"]["limit"],
        10000
    );
}

#[test]
fn agent_find_with_edits_and_sort() {
    let root = Files::new();
    let source = "source.csv";
    root.put(source, "name,city\nc,Tartu\na,Tallinn\nb,Tallinn\n");
    let edited = success(qd(&root, source,
        &[
            "--set",
            "B2",
            "Tallinn",
            "--set",
            "B3",
            "Narva",
            "--find",
            "Tallinn",
            "--dry-run",
        ],
    ));
    assert_eq!(
        edited["matches"],
        v(r#"[{"cell": "B2", "value": "Tallinn"}, {"cell": "B4", "value": "Tallinn"}]"#)
    );
    assert_eq!(edited["dry_run"], true);
    assert_eq!(edited["changes"].as_array().unwrap().len(), 2);
    assert_eq!(edited["coordinates"], "source");
    let sorted = success(qd(&root, source, &["--sort", "A", "--find", "Tallinn"]));
    assert_eq!(sorted["coordinates"], "sorted_view");
    assert_eq!(
        sorted["matches"],
        v(r#"[{"cell": "B2", "value": "Tallinn"}, {"cell": "B3", "value": "Tallinn"}]"#)
    );
    assert_eq!(
        sorted["sort"],
        v(r#"{"columns": "A", "header": true, "changes_coordinates": "source", "read_coordinates": "sorted_view"}"#)
    );
    assert!(sorted.get("changes").is_none() && sorted.get("dry_run").is_none());
    let both = success(qd(&root, source,
        &[
            "--set",
            "B2",
            "Tallinn",
            "--sort",
            "A",
            "--no-header",
            "--find",
            "Tallinn",
            "--dry-run",
        ],
    ));
    assert_eq!(
        both["matches"],
        v(r#"[{"cell": "B1", "value": "Tallinn"}, {"cell": "B2", "value": "Tallinn"}, {"cell": "B3", "value": "Tallinn"}]"#)
    );
    assert_eq!(both["sort"]["header"], false);
}

#[test]
fn agent_find_does_not_wait_for_the_full_scan() {
    let root = Files::new();
    let source = "source.csv";
    root.put(source, b"needle\nhay\n\xff\n");
    let early = success(qd(&root, source, &["--find", "needle", "--limit", "1"]));
    assert_eq!(early["matches"], v(r#"[{"cell": "A1", "value": "needle"}]"#));
    assert!(failure(qd(&root, source, &["--find", "needle"])).contains("UTF-8"));
}

#[test]
fn agent_find_rejects_invalid_options() {
    let root = Files::new();
    let source = "source.csv";
    root.put(source, "a,b\nc,d\n");
    let out = "out.csv";
    for (args, message) in [
        (vec!["--exact"], "require --find"),
        (vec!["--ignore-case"], "require --find"),
        (vec!["--columns", "A"], "require --find"),
        (vec!["--from", "A1"], "require --find"),
        (vec!["--limit", "5"], "require --find"),
        (vec!["--find", ""], "--exact"),
        (vec!["--find"], "Missing value for --find"),
        (
            vec!["--find", "a", "--columns"],
            "Missing value for --columns",
        ),
        (vec!["--find", "a", "--from"], "Missing value for --from"),
        (vec!["--find", "a", "--limit"], "Missing value for --limit"),
        (vec!["--find", "a", "--read", "A1"], "cannot be combined"),
        (vec!["--find", "a", "--output", out], "cannot be combined"),
        (vec!["--find", "a", "--check"], "cannot be combined"),
        (vec!["--find", "a", "--set", "A1", "x"], "--dry-run"),
        (vec!["--find", "a", "--limit", "0"], "1 to 10,000"),
        (vec!["--find", "a", "--limit", "10001"], "1 to 10,000"),
        (vec!["--find", "a", "--limit", "-1"], "1 to 10,000"),
        (vec!["--find", "a", "--limit", "many"], "1 to 10,000"),
        (vec!["--find", "a", "--columns", ""], "column letters"),
        (vec!["--find", "a", "--columns", "A,,B"], "column letters"),
        (vec!["--find", "a", "--columns", "A, B"], "column letters"),
        (vec!["--find", "a", "--columns", "A,"], "column letters"),
        (vec!["--find", "a", "--columns", "B1"], "column letters"),
        (
            vec!["--find", "a", "--columns", "ZZZZZZZZZZZZZZZZZZZZZZZZ"],
            "too large",
        ),
        (vec!["--find", "a", "--from", "A0"], "Rows start at 1"),
        (
            vec!["--find", "a", "--from", "ZZZZZZZZZZZZZZZZZZZZZZZZ1"],
            "too large",
        ),
        (vec!["--find", "a", "--from", "B"], "cell address"),
        (
            vec!["--find", "a", "--no-header"],
            "--no-header requires --sort",
        ),
        (vec!["--find", "a", "--sort", "A,A"], "only appear once"),
        (vec!["--find", "a", "--sheets"], "--sheets by itself"),
    ] {
        let stderr = failure(qd(&root, source, &args));
        assert!(stderr.contains(message), "{args:?}: {stderr}");
    }
}

#[test]
fn csv_wider_than_xfd_reads_edits_and_pages() {
    let root = Files::new();
    let source = "wide.csv";
    let mut record = vec![String::new(); 16_390];
    record[16_383] = "hit".into(); // XFD
    record[16_385] = "hit".into(); // XFF
    root.put(source, format!("{}\nhit\n", record.join(",")));
    assert_eq!(
        success(qd(&root, source, &["--read", "XFF1"]))["rows"],
        v(r#"[["hit"]]"#)
    );
    let edited = success(qd(&root, source, &["--set", "XFE1", "x", "--dry-run"]));
    assert_eq!(
        edited["changes"],
        v(r#"[{"cell": "XFE1", "before": "", "after": "x"}]"#)
    );
    let mut from = "A1".to_owned();
    let mut cells = Vec::new();
    loop {
        let page = success(qd(&root, source,
            &["--find", "hit", "--limit", "1", "--from", &from],
        ));
        cells.extend(
            page["matches"]
                .as_array()
                .unwrap()
                .iter()
                .map(|m| m["cell"].clone()),
        );
        match page["next"].as_str() {
            Some(next) => from = next.to_owned(),
            None => break,
        }
    }
    assert_eq!(cells, [v(r#""XFD1""#), v(r#""XFF1""#), v(r#""A2""#)]);
}

#[test]
fn workbook_find_cli() {
    let root = fixtures();
    let xlsx = |args: &[&str]| success(qd(&root, "book.xlsx", args));
    let ods = |args: &[&str]| success(qd(&root, "book.ods", args));
    let notes = xlsx(
        &["--sheet", "Notes õ", "--find", "tallinn", "--ignore-case"],
    );
    assert_eq!(notes["sheet"], "Notes õ");
    assert_eq!(notes["format"], "XLSX");
    assert_eq!(
        notes["matches"],
        v(r#"[{"cell": "B3", "value": "Tallinn notes"}]"#)
    );
    assert!(notes.get("formula_results").is_none() && notes.get("changes").is_none());
    let far = xlsx(
        &[
            "--set",
            "XFD2",
            "far",
            "--find",
            "far",
            "--limit",
            "1",
            "--dry-run",
        ],
    );
    assert_eq!(far["matches"], v(r#"[{"cell": "XFD2", "value": "far"}]"#));
    assert_eq!(far["next"], "XFE2");
    assert_eq!(
        far["changes"],
        v(r#"[{"cell": "XFD2", "before": "", "after": "far"}]"#)
    );
    let after = xlsx(
        &[
            "--set",
            "XFD2",
            "far",
            "--find",
            "far",
            "--from",
            "XFE2",
            "--dry-run",
        ],
    );
    assert_eq!(
        (&after["matches"], &after["next"]),
        (&v(r#"[]"#), &Value::Null)
    );
    let blanks = ods(
        &["--find", "", "--exact", "--columns", "E", "--limit", "2"],
    );
    assert_eq!(blanks["format"], "ODS");
    assert_eq!(
        blanks["matches"],
        v(r#"[{"cell": "E1", "value": ""}, {"cell": "E2", "value": ""}]"#)
    );
    assert_eq!(blanks["next"], "F2");
    let sorted = ods( &["--sort", "B:n", "--find", "Tallinn"]);
    assert_eq!(sorted["coordinates"], "sorted_view");
    assert_eq!(
        sorted["matches"],
        v(r#"[{"cell": "C3", "value": "Tallinn"}]"#)
    );
}
