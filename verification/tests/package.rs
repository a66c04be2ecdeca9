//! Opening a sheet of a package, and writing a package with one part replaced.
use quadrille::book::{choose_sheet, open_as, open_chosen, open_sheet};
use quadrille::ops::{wait_for_index, Wait};
use quadrille::package::{self, target};
use quadrille::reader::{read_formulas, read_values};
use quadrille::rewrite::{check_names, rewritten};
use quadrille::sound::check_cells;
use quadrille::workbook::Format;
use quadrille::xlsx::escape;
use quadrille::{Error, Sheet};
use std::io::{Cursor, Read, Write};
use zip::write::SimpleFileOptions;
use zip::{CompressionMethod, DateTime, ZipArchive, ZipWriter};

const X: &str = "http://schemas.openxmlformats.org/spreadsheetml/2006/main";
const R: &str = "http://schemas.openxmlformats.org/officeDocument/2006/relationships";
const P: &str = "http://schemas.openxmlformats.org/package/2006/relationships";

fn pack(entries: &[(&str, String)]) -> Vec<u8> {
    let mut zip = ZipWriter::new(Cursor::new(Vec::new()));
    for (name, text) in entries {
        zip.start_file(*name, SimpleFileOptions::default()).unwrap();
        zip.write_all(text.as_bytes()).unwrap();
    }
    zip.finish().unwrap().into_inner()
}

/// A workbook with one sheet of these cells, and with shared strings under a name.
fn book(cells: &str, strings: Option<(&str, &str)>) -> Vec<u8> {
    let mut entries = vec![
        (
            "_rels/.rels",
            format!(r#"<Relationships xmlns="{P}"><Relationship Id="b" Type="{R}/officeDocument" Target="xl/workbook.xml"/></Relationships>"#),
        ),
        (
            "xl/_rels/workbook.xml.rels",
            format!(r#"<Relationships xmlns="{P}"><Relationship Id="r1" Target="worksheets/sheet1.xml"/></Relationships>"#),
        ),
        (
            "xl/workbook.xml",
            format!(r#"<workbook xmlns="{X}" xmlns:r="{R}"><sheets><sheet name="S" r:id="r1"/></sheets></workbook>"#),
        ),
        (
            "xl/worksheets/sheet1.xml",
            format!(r#"<worksheet xmlns="{X}"><sheetData><row r="1">{cells}</row></sheetData></worksheet>"#),
        ),
    ];
    if let Some((name, list)) = strings {
        entries.push((name, format!(r#"<sst xmlns="{X}">{list}</sst>"#)));
    }
    pack(&entries)
}

fn opened(data: &[u8]) -> Option<Result<Sheet, Error>> {
    open_sheet("/work/b.xlsx".into(), data, Format::Xlsx, &None)
}

fn first_row(data: &[u8]) -> Vec<String> {
    let mut sheet = opened(data).unwrap().unwrap();
    wait_for_index(&mut sheet, Wait::All).unwrap();
    sheet.window(0, 1).remove(0)
}

const STRINGS: &str = "<si><t>first</t></si>\n<si><r><t>sec</t></r><r><t>ond</t></r></si>";

#[test]
fn cells_show_their_shared_strings() {
    let cells = r#"<c r="A1" t="s"><v>1</v></c><c r="B1" t="s"><v>0</v></c><c r="C1"><v>2.50</v></c><c r="D1" t="b"><v>1</v></c>"#;
    for name in ["xl/sharedStrings.xml", "xl/SharedStrings.xml", "xl\\sharedStrings.xml"] {
        let data = book(cells, Some((name, STRINGS)));
        assert!(check_cells(&data, Format::Xlsx, "S", false));
        assert_eq!(first_row(&data), ["second", "first", "2.5", "true"], "{name}");
    }
}

#[test]
fn strings_that_are_not_there_keep_a_sheet_closed() {
    let cell = |index: &str| format!(r#"<c r="A1" t="s"><v>{index}</v></c>"#);
    let shared = Some(("xl/sharedStrings.xml", STRINGS));
    assert!(opened(&book(&cell("1"), shared)).is_some());
    for index in ["2", "99999999999999999999999", "-1", "x", "", "0<!-- -->9"] {
        let data = book(&cell(index), shared);
        assert!(!check_cells(&data, Format::Xlsx, "S", false), "{index}");
        assert!(opened(&data).is_none(), "{index}");
    }
    assert!(opened(&book(&cell("0"), None)).is_none());
    // A string without a text or a run is not in the list.
    assert!(opened(&book(&cell("0"), Some(("xl/sharedStrings.xml", "<si/>")))).is_none());
    assert!(opened(&book(&cell("0"), Some(("xl/sharedStrings.xml", "<si><t/></si>")))).is_some());
    // A sheet that cannot be chosen is refused before its cells are looked at.
    let data = book(&cell("9"), shared);
    let refused = open_sheet("b".into(), &data, Format::Xlsx, &Some("T".into()));
    assert_eq!(refused.unwrap().err().unwrap().to_string(), r#"No sheet named "T"; use --sheets"#);
    assert!(opened(b"no archive").unwrap().is_err());
}

/// Whether the values, and whether the values and formulas, of these cells can be read.
fn readable(cells: &str) -> (bool, bool) {
    let data = book(cells, Some(("xl/sharedStrings.xml", STRINGS)));
    let check = |formulas: bool| check_cells(&data, Format::Xlsx, "S", formulas);
    (check(false), check(true))
}

#[test]
fn strings_inside_cells_and_strings_are_found() {
    // A value at any depth belongs to the cell it is in, and no cell is in another.
    for cells in [
        r#"<c r="A1" t="s"><is><is></is><v>99</v></is></c>"#,
        r#"<c r="A1" t="s"><is><row><c r="A1" t="n"><is></is><v>99</v></c></row></is></c>"#,
        r#"<c r="A1" t="s"><x><v>2</v></x></c>"#,
        r#"<c r="A1" t="s"><v>0</v><v>2</v></c>"#,
        r#"<c r="A1" t="s"><v><v>1</v></v></c>"#,
        r#"<c r="A1"><c r="A1"/></c>"#,
    ] {
        assert_eq!(readable(cells), (false, false), "{cells}");
    }
    assert_eq!(readable(r#"<c r="A1" t="s"><v>1</v></c><c r="B1"><v>99</v></c>"#), (true, true));
    for (list, index, good) in [
        ("<si><si></si><t>a</t></si>", 0, false),
        ("<si><t>a</t><si></si></si><si><t>b</t></si>", 0, true),
        ("<si><t>a</t><si></si></si><si><t>b</t></si>", 1, false),
        ("<si><t>a</t></si><sst></sst><si><t>b</t></si>", 1, false),
        ("<si><rPh><t>a</t></rPh></si>", 0, false),
        ("<si><rPh><t>a</t></rPh><t>b</t></si>", 0, true),
    ] {
        let cells = format!(r#"<c r="A1" t="s"><v>{index}</v></c>"#);
        let data = book(&cells, Some(("xl/sharedStrings.xml", list)));
        assert_eq!(check_cells(&data, Format::Xlsx, "S", false), good, "{list}");
    }
}

#[test]
fn addresses_fit_the_reader() {
    for cells in [
        r#"<c r="A00000000001"/>"#,
        r#"<c r="AAAAAAA1"/>"#,
        r#"<c/>"#,
        r#"<c x:r="A1" xmlns:x="x"/>"#,
        r#"<c r="XFD1"/><c r="A1048576"/>"#,
        r#"<c r="A1048577"/>"#,
        r#"<dimension ref="B2:A1"/>"#,
        r#"<dimension ref="A2:B1"/>"#,
        r#"<dimension ref="A1:A0000000001"/>"#,
        r#"</row><row r="0000000001">"#,
    ] {
        assert_eq!(readable(cells), (false, false), "{cells}");
    }
    for cells in [
        r#"<c r="A000000001"/>"#,
        r#"<c r="$A$1"/>"#,
        r#"<c r="XFD1"/>"#,
        r#"<dimension ref="A1:XFD1048576"/>"#,
        r#"<dimension ref="A1"/><dimension ref="A1:B2:A1"/>"#,
    ] {
        assert_eq!(readable(cells), (true, true), "{cells}");
    }
}

#[test]
fn shared_formulas_fit_the_reader() {
    let shared = |attributes: &str, text: &str| {
        readable(&format!(r#"<c r="B2"><f t="shared" {attributes}>{text}</f></c>"#))
    };
    let good = r#"ref="B2:B9" si="0""#;
    for (attributes, text) in [
        (good, "A1+1"),
        (good, r#"A1&amp;"Summary2024""#),
        (good, "Summary!A1"),
        (good, "A123456789"),
        (r#"ref="B3:B9" si="9999999""#, ""),
        (r#"ref="B2" si="0""#, "A1"),
    ] {
        assert_eq!(shared(attributes, text), (true, true), "{attributes} {text}");
    }
    for (attributes, text) in [
        (good, "Summary2!A1"),
        (good, "A1+1234567890"),
        (good, r#""x"&amp;Summary2"#),
        (good, "A<!-- -->1"),
        (good, "Sum<![CDATA[+]]>mary2"),
        (r#"ref="B9:B2" si="0""#, "A1"),
        (r#"ref="B1:B9" si="0""#, "A1"),
        (r#"ref="B2:XFE2" si="0""#, "A1"),
        (r#"ref="B2:B9" si="12345678""#, "A1"),
    ] {
        assert_eq!(shared(attributes, text), (true, false), "{attributes} {text}");
    }
    let cells = r#"<c r="A1"><f t="shared" ref="A1:A2" si="0">B1+1</f><v>1</v></c></row><row r="2"><c r="A2"><f t="shared" si="0"/><v>2</v></c>"#;
    let sheet = opened(&book(cells, None)).unwrap().unwrap();
    let formulas = &sheet.workbook.as_ref().unwrap().formulas;
    assert_eq!(formulas.get((0, 0)).unwrap(), "B1+1");
    assert_eq!(formulas.get((1, 0)).unwrap(), "B2+1");
}

#[test]
fn styles_fit_the_reader() {
    let with = |brackets: usize| {
        let data = book(r#"<c r="A1" s="0"><v>1</v></c>"#, None);
        let mut zip = ZipWriter::new_append(Cursor::new(data)).unwrap();
        zip.start_file("xl/Styles.xml", SimpleFileOptions::default()).unwrap();
        let code = "[".repeat(brackets);
        let text = format!(r#"<styleSheet><numFmts><numFmt numFmtId="200" formatCode="{code}"/></numFmts><cellXfs><xf numFmtId="200"/></cellXfs></styleSheet>"#);
        zip.write_all(text.as_bytes()).unwrap();
        zip.finish().unwrap().into_inner()
    };
    assert_eq!(first_row(&with(255)), ["1"]);
    assert!(opened(&with(256)).is_none());
}

#[test]
fn tables_fit_the_reader() {
    let table = |rows: &str| {
        let text = format!(r#"<o:x xmlns:o="urn:oasis:names:tc:opendocument:xmlns:office:1.0" xmlns:table="urn:oasis:names:tc:opendocument:xmlns:table:1.0"><table:table table:name="S">{rows}</table:table></o:x>"#);
        check_cells(&pack(&[("content.xml", text)]), Format::Ods, "S", true)
    };
    let row = |count: &str| format!(r#"<table:table-row table:number-rows-repeated="{count}"/>"#);
    let wide = r#"<table:table-cell table:number-columns-repeated="1048576"/>"#;
    assert!(table(""));
    assert!(table(&row("1048576").repeat(3)));
    assert!(table(r#"<table:table-column table:number-columns-repeated="99999999"/>"#));
    for count in ["0", "1048577", "18446744073709551615", "", "x"] {
        assert!(!table(&row(count)), "{count}");
    }
    assert!(table(&format!("<table:table-row>{}</table:table-row>", wide.repeat(2047))));
    assert!(!table(&format!("<table:table-row>{}</table:table-row>", wide.repeat(2048))));
    assert!(!check_cells(&pack(&[("content.xml", "<".into())]), Format::Ods, "S", false));
}

#[test]
fn other_sheets_do_not_matter() {
    let good = format!(r#"<worksheet xmlns="{X}"><sheetData><row r="1"><c r="A1"><v>1</v></c></row></sheetData></worksheet>"#);
    let bad = good.replace("<c r=\"A1\">", "<c r=\"A1\" t=\"s\">");
    let with = |other: &str, target: &str| {
        pack(&[
            ("_rels/.rels", format!(r#"<Relationships xmlns="{P}"><Relationship Id="b" Type="{R}/officeDocument" Target="xl/workbook.xml"/></Relationships>"#)),
            ("xl/_rels/workbook.xml.rels", format!(r#"<Relationships xmlns="{P}"><Relationship Id="r1" Target="worksheets/one.xml"/><Relationship Id="r2" Target="{target}"/></Relationships>"#)),
            ("xl/workbook.xml", format!(r#"<workbook xmlns="{X}" xmlns:r="{R}"><sheets><sheet name="S" r:id="r1"/><sheet name="T" r:id="r2"/></sheets></workbook>"#)),
            ("xl/worksheets/one.xml", good.clone()),
            ("xl/worksheets/two.xml", other.to_owned()),
        ])
    };
    for target in ["worksheets/two.xml", "/xl/worksheets/two.xml"] {
        for other in [bad.as_str(), "<"] {
            let data = with(other, target);
            assert_eq!(first_row(&data), ["1"]);
            let second = open_sheet("b".into(), &data, Format::Xlsx, &Some("T".into()));
            match second {
                None => assert_eq!(other, bad),
                Some(refused) => assert!(refused.is_err() && other == "<"),
            }
        }
    }
}

#[test]
fn values_come_before_formulas_and_formulas_only_where_there_are_any() {
    let plain = book(r#"<c r="B1"><v>1</v></c>"#, None);
    let chosen = choose_sheet(&plain, Format::Xlsx, &None).unwrap();
    assert!(!chosen.scan.has_formulas);
    let values = read_values(&plain, Format::Xlsx, "S").unwrap();
    assert_eq!((values.start, values.end), (Some((0, 1)), Some((0, 1))));
    assert_eq!(values.rows, [["1"]]);
    let formulas = read_formulas(&plain, Format::Xlsx, "S").unwrap();
    assert_eq!((formulas.start, formulas.rows.len()), (None, 0));
    let sheet = open_chosen("b.xlsx".into(), &plain, chosen).unwrap();
    assert_eq!(sheet.data, b",1\n");

    let data = book(r#"<c r="A1"><v>1</v></c><c r="C1"><f>A1+1</f><v>2</v></c>"#, None);
    let formulas = read_formulas(&data, Format::Xlsx, "S").unwrap();
    assert_eq!(formulas.rows, [["A1+1"]]);
    let sheet = open_sheet("b.xlsx".into(), &data, Format::Xlsx, &None).unwrap().unwrap();
    assert_eq!(sheet.data, b"1,,2\n");
    let formulas = &sheet.workbook.as_ref().unwrap().formulas;
    assert_eq!(formulas.get((0, 2)).unwrap(), "A1+1");
}

#[test]
fn readers_say_why_they_fail() {
    let data = book(r#"<c r="A1"><v>1</v></c>"#, None);
    assert_eq!(
        read_values(&data, Format::Xlsx, "T").unwrap_err(),
        Error::Reader("Xlsx error: Worksheet 'T' not found".into())
    );
    assert!(read_formulas(&data, Format::Xlsx, "T").is_err());
    let data = book(r#"<c r="A1" t="e"><v>#WHAT!</v></c>"#, None);
    assert_eq!(
        opened(&data).unwrap().err().unwrap().to_string(),
        "Xlsx error: Unsupported cell error value '#WHAT!'"
    );
    let text = r#"<o:x xmlns:o="urn:oasis:names:tc:opendocument:xmlns:office:1.0" xmlns:table="urn:oasis:names:tc:opendocument:xmlns:table:1.0"><table:table table:name="S"/></o:x>"#;
    let ods = pack(&[("content.xml", text.into())]);
    assert!(check_cells(&ods, Format::Ods, "S", true));
    let refused = open_sheet("b.ods".into(), &ods, Format::Ods, &None);
    assert_eq!(
        refused.unwrap().err().unwrap().to_string(),
        "Ods error: 'mimetype' file not found in archive"
    );
    assert_eq!(
        read_formulas(&ods, Format::Ods, "S").unwrap_err().to_string(),
        "Ods error: 'mimetype' file not found in archive"
    );
    assert_eq!(open_as("ods", b',', &None).unwrap(), Some(Format::Ods));
}

/// A package with a comment, a stored member, a compressed one and one with a time and mode.
fn mixed() -> Vec<u8> {
    let mut zip = ZipWriter::new(Cursor::new(Vec::new()));
    zip.set_raw_comment(b"kept".to_vec().into());
    let plain = SimpleFileOptions::default().compression_method(CompressionMethod::Stored);
    zip.start_file("mimetype", plain).unwrap();
    zip.write_all(b"type").unwrap();
    let time = DateTime::from_date_and_time(2001, 2, 3, 4, 5, 6).unwrap();
    let dated = SimpleFileOptions::default()
        .compression_method(CompressionMethod::Stored)
        .last_modified_time(time)
        .unix_permissions(0o640);
    zip.start_file("part.xml", dated).unwrap();
    zip.write_all(b"<old/>").unwrap();
    let packed = SimpleFileOptions::default().compression_method(CompressionMethod::Deflated);
    zip.start_file("other.bin", packed).unwrap();
    zip.write_all(&[7; 1000]).unwrap();
    zip.finish().unwrap().into_inner()
}

#[test]
fn rewriting_replaces_one_part_and_copies_the_rest() {
    let data = mixed();
    let out = rewritten(&data, "part.xml", "<new>\u{f5}</new>").unwrap();
    let mut before = ZipArchive::new(Cursor::new(&data)).unwrap();
    let mut after = ZipArchive::new(Cursor::new(&out)).unwrap();
    assert_eq!(after.comment(), b"kept");
    assert_eq!(after.len(), before.len());
    for i in 0..before.len() {
        let mut old = before.by_index(i).unwrap();
        let mut new = after.by_index(i).unwrap();
        assert_eq!(new.name(), old.name());
        assert_eq!(new.compression(), old.compression());
        assert_eq!(new.last_modified(), old.last_modified());
        assert_eq!(new.unix_mode(), old.unix_mode());
        let (mut was, mut is) = (Vec::new(), Vec::new());
        old.read_to_end(&mut was).unwrap();
        new.read_to_end(&mut is).unwrap();
        if i == 1 {
            assert_eq!(is, "<new>\u{f5}</new>".as_bytes());
        } else {
            assert_eq!(is, was);
            assert_eq!(new.compressed_size(), old.compressed_size());
        }
    }
}

#[test]
fn rewriting_refuses_what_is_no_package() {
    assert!(matches!(rewritten(b"no archive", "a", "b"), Err(Error::Archive(_))));
    // Without the part every member is copied.
    let data = mixed();
    let out = rewritten(&data, "absent.xml", "x").unwrap();
    assert_eq!(package::archive(&out).unwrap(), package::archive(&data).unwrap());
    assert_eq!(package::read_xml(&out, "part.xml").unwrap(), "<old/>");
}

#[test]
fn names_have_to_fit() {
    let cells = r#"<c r="A1"><v>1</v></c>"#;
    let with = |length: usize| {
        let data = book(cells, None);
        let mut zip = ZipWriter::new_append(Cursor::new(data)).unwrap();
        zip.start_file("x".repeat(length), SimpleFileOptions::default()).unwrap();
        zip.finish().unwrap().into_inner()
    };
    let data = with(65_535);
    assert!(check_names(&data));
    assert_eq!(package::archive(&rewritten(&data, "", "").unwrap()).unwrap().len(), 5);
    // A name in an older encoding has more bytes once it is decoded.
    let mut long = data.clone();
    for start in 0..long.len() - 1000 {
        if long[start..start + 1000].iter().all(|b| *b == b'x') {
            long[start] = 0x80;
        }
    }
    assert!(!check_names(&long));
    let mut sheet = opened(&long).unwrap().unwrap();
    wait_for_index(&mut sheet, Wait::All).unwrap();
    assert_eq!(sheet.save_package(&long).unwrap().unwrap(), long);
    sheet.set(0, 0, "2".into()).unwrap();
    assert!(sheet.save_package(&long).is_none());
    assert!(check_names(b"no archive"));
}

#[test]
fn packages_are_saved_with_their_edits() {
    let data = book(r#"<c r="A1"><v>1</v></c>"#, None);
    let mut sheet = opened(&data).unwrap().unwrap();
    wait_for_index(&mut sheet, Wait::All).unwrap();
    assert_eq!(sheet.save_package(&data).unwrap().unwrap(), data);
    sheet.set(0, 0, "=A<1".into()).unwrap();
    let out = sheet.save_package(&data).unwrap().unwrap();
    assert_eq!(package::archive(&out).unwrap(), package::archive(&data).unwrap());
    assert!(package::read_xml(&out, "xl/worksheets/sheet1.xml")
        .unwrap()
        .contains(r#"<c r="A1"><f>A&lt;1</f></c>"#));
    assert_eq!(
        package::read_xml(&out, "xl/workbook.xml").unwrap(),
        package::read_xml(&data, "xl/workbook.xml").unwrap()
    );
    sheet.undo();
    assert_eq!(sheet.save_package(&data).unwrap().unwrap(), data);
}

#[test]
fn rooted_targets_ignore_the_base() {
    for relative in ["a.xml", "/a.xml", "b/../c.xml", "", "./x//y/"] {
        let rooted = format!("/{relative}");
        assert_eq!(target("xl/", &rooted), target("", relative), "{relative}");
    }
    // A path is refused where it is above the root on the way, though it comes back.
    assert_eq!(target("xl/", "../../xl/a.xml"), Err(Error::RelationshipPath));
    assert_eq!(target("xl/", "../xl/.././a/b/..").unwrap(), "a");
}

#[test]
fn escaped_texts_hold_no_markup() {
    let text = "a&b<c>\"d\"\r\n&amp;";
    let escape_all = |text: &str| escape(&text.chars().collect(), 0);
    let escaped = escape_all(text);
    assert_eq!(escaped, "a&amp;b&lt;c&gt;&quot;d&quot;&#13;\n&amp;amp;");
    let (front, back) = text.split_at(4);
    assert_eq!(format!("{}{}", escape_all(front), escape_all(back)), escaped);
}
