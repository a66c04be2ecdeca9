use quadrille::a1;
use quadrille::cli::{parse, run, Arg, Command, Done, Find, Open, Target};
use quadrille::json::Json;
use quadrille::ops::{self, Wait};
use quadrille::save::{Destination, Save};
use quadrille::{Error, FindQuery, Sheet};

#[test]
fn addresses_and_bounded_ranges() {
    assert_eq!(a1::parse_cell("A1").unwrap(), (0, 0));
    assert_eq!(a1::parse_cell("aa65").unwrap(), (64, 26));
    for bad in [
        "",
        "A0",
        "1",
        "A-1",
        "A1x",
        "🦀1",
        "A18446744073709551616",
        "AAAAAAAAAAAAAAAAAAAA1",
    ] {
        assert!(a1::parse_cell(bad).is_err(), "{bad}");
    }
    for bad in ["B2:A1", "A1:A10001", "A1:ZZZ100", "A1:B2:C3"] {
        assert!(ops::read_range(bad).is_err(), "{bad}");
    }
    assert_eq!(ops::read_range("C3").unwrap().first, (2, 2));
}

fn text(value: &str) -> Arg {
    Arg::Text(value.into())
}

fn parse_args(list: &[&str]) -> Result<Command, Error> {
    parse(&list.iter().map(|a| text(a)).collect(), &Vec::new())
}

fn open(list: &[&str]) -> Open {
    match parse_args(list).unwrap() {
        Command::Open(open) => *open,
        other => panic!("{list:?}: {other:?}"),
    }
}

fn error(list: &[&str]) -> String {
    match parse_args(list) {
        Ok(command) => panic!("{list:?} parsed as {command:?}"),
        Err(error) => error.to_string(),
    }
}

fn query(text: &str) -> FindQuery {
    FindQuery {
        text: text.into(),
        ..FindQuery::default()
    }
}

#[test]
#[should_panic(expected = "Help")]
fn open_helper_refuses_other_commands() {
    open(&["--help"]);
}

#[test]
#[should_panic(expected = "parsed as")]
fn error_helper_refuses_success() {
    error(&["a.csv"]);
}

#[test]
fn help_and_sheets() {
    for list in [
        &[][..],
        &["-h"],
        &["--help"],
        &["a.csv", "--read", "A1", "--help"],
        &["--help", "--bogus"],
    ] {
        assert_eq!(parse_args(list).unwrap(), Command::Help, "{list:?}");
    }
    assert_eq!(
        parse_args(&["--sheets", "book.xlsx"]).unwrap(),
        Command::Sheets(text("book.xlsx"))
    );
    // The default delimiter, given explicitly, is no conflict.
    assert_eq!(
        parse_args(&["book.xlsx", "--sheets", "-d", ","]).unwrap(),
        Command::Sheets(text("book.xlsx"))
    );
    assert_eq!(open(&["--", "--sheets"]).path, text("--sheets"));
}

#[test]
fn every_option() {
    let plain = open(&["a.csv"]);
    assert_eq!(
        plain,
        Open {
            path: text("a.csv"),
            delimiter: b',',
            sheet: None,
            check: false,
            read: None,
            edits: vec![],
            sort: None,
            find: None,
            dry_run: false,
            output: None,
        }
    );
    assert!(!plain.headless());
    let book = open(&["--sheet", "Notes õ", "book.xlsx"]);
    assert_eq!(book.sheet.as_deref(), Some("Notes õ"));
    assert!(!book.headless());
    assert!(open(&["a.csv", "--check"]).check);
    for (list, delimiter) in [
        (&["-d", "tab"][..], b'\t'),
        (&["--delimiter", "\\t"], b'\t'),
        (&["-d", "\t"], b'\t'),
        (&["-d", ";"], b';'),
        (&["-d", "\""], b'"'),
    ] {
        let mut all = vec!["a.csv"];
        all.extend(list);
        assert_eq!(open(&all).delimiter, delimiter, "{list:?}");
    }
    let edited = open(&[
        "a.csv",
        "--set",
        "b2",
        "x",
        "--read",
        "A1:C3",
        "--set",
        "B2",
        "",
        "--dry-run",
    ]);
    assert_eq!(
        edited.edits,
        [((1, 1), "x".into()), ((1, 1), String::new())]
    );
    assert_eq!(edited.read, Some(a1::parse_range("A1:C3").unwrap()));
    assert!(edited.dry_run);
    let saved = open(&["a.csv", "--sort", "B,-D:n", "--no-header", "-o", "out.csv"]);
    assert_eq!(saved.sort, Some(("B,-D:n".into(), false)));
    assert_eq!(saved.output, Some(text("out.csv")));
    assert_eq!(
        open(&["a.csv", "--sort", "A", "--output", "o.csv"]).sort,
        Some(("A".into(), true))
    );
    let found = open(&[
        "a.csv",
        "--find",
        "x",
        "--exact",
        "--ignore-case",
        "--columns",
        "c,b,B",
        "--from",
        "b2",
        "--limit",
        "10000",
    ]);
    assert_eq!(
        found.find,
        Some(Find {
            query: FindQuery {
                text: "x".into(),
                columns: Some(vec![1, 2]),
                exact: true,
                ignore_case: true,
            },
            from: Some((1, 1)),
            limit: Some(10_000),
        })
    );
    assert_eq!(
        open(&["a.csv", "--find", "", "--exact"])
            .find
            .unwrap()
            .query,
        FindQuery {
            exact: true,
            ..query("")
        }
    );
    assert_eq!(
        open(&["a.csv", "--find", "x", "--limit", "1"])
            .find
            .unwrap(),
        Find {
            query: query("x"),
            from: None,
            limit: Some(1),
        }
    );
    // After --, options are file names; before it, a lone - is still an option.
    assert_eq!(open(&["--", "--check"]).path, text("--check"));
    assert!(open(&["--check", "--", "-"]).check);
    assert_eq!(error(&["-", "--check"]), "Unknown option: -");
    assert_eq!(
        error(&["--", "a.csv", "--", "b.csv"]),
        "Open one file at a time"
    );
}

fn entry(cell: &str, value: &str) -> Json {
    Json::Object(vec![
        ("cell".into(), Json::Text(cell.into())),
        ("value".into(), Json::Text(value.into())),
    ])
}

/// Parse with the content of every patch file by its name.
fn parse_with(list: &[&str], files: &[(&str, Result<Json, String>)]) -> Result<Command, Error> {
    let args: Vec<Arg> = list.iter().map(|a| text(a)).collect();
    let mut patches = Vec::new();
    loop {
        match parse(&args, &patches)? {
            Command::Patch(Arg::Text(name)) => {
                let (_, patch) = files.iter().find(|(n, _)| *n == name).unwrap();
                patches.push(match patch {
                    Ok(Json::List(list)) if list.is_empty() => Ok(Json::List(Vec::new())),
                    Ok(_) if name == "patch.json" => {
                        Ok(Json::List(vec![entry("B2", "x"), entry("a1", "y")]))
                    }
                    Ok(_) => Ok(Json::List(vec![entry("A0", "x")])),
                    Err(reason) => Err(reason.clone()),
                });
            }
            command => return Ok(command),
        }
    }
}

#[test]
fn apply_reads_patch_files_in_argument_order() {
    let files = [
        ("patch.json", Ok(Json::Null)),
        ("empty.json", Ok(Json::List(Vec::new()))),
        (
            "broken.json",
            Err("EOF while parsing an object at line 1 column 2".to_owned()),
        ),
        (
            "missing.json",
            Err("No such file or directory (os error 2)".to_owned()),
        ),
        ("invalid.json", Ok(Json::Null)),
    ];
    let open = |list: &[&str]| match parse_with(list, &files).unwrap() {
        Command::Open(open) => *open,
        other => panic!("{list:?}: {other:?}"),
    };
    let error = |list: &[&str]| parse_with(list, &files).unwrap_err().to_string();
    assert_eq!(
        open(&["a.csv", "--set", "C3", "z", "--apply", "patch.json", "--dry-run"]).edits,
        [
            ((2, 2), "z".into()),
            ((1, 1), "x".into()),
            ((0, 0), "y".into())
        ]
    );
    let open_empty = open(&["a.csv", "--apply", "empty.json", "--dry-run"]);
    assert!(open_empty.edits.is_empty() && open_empty.headless());
    // An empty patch is still an edit request.
    assert_eq!(
        error(&["a.csv", "--apply", "empty.json"]),
        "Edits require --dry-run or --output NEW_FILE"
    );
    assert_eq!(
        error(&["a.csv", "--apply", "empty.json", "--check", "--dry-run"]),
        "--check cannot be combined with read/edit/save options"
    );
    assert_eq!(
        error(&["a.csv", "--apply", "empty.json", "--check", "-o", "x.csv"]),
        "--check cannot be combined with read/edit/save options"
    );
    assert_eq!(
        error(&["book.xlsx", "--sheets", "--apply", "empty.json"]),
        "Use --sheets by itself with a workbook filename"
    );
    assert_eq!(
        error(&["a.csv", "--apply", "broken.json", "--bogus"]),
        "EOF while parsing an object at line 1 column 2"
    );
    assert_eq!(
        error(&["a.csv", "--apply", "missing.json"]),
        "No such file or directory (os error 2)"
    );
    assert_eq!(
        error(&["a.csv", "--apply", "invalid.json"]),
        "Rows start at 1"
    );
}

#[test]
fn every_rejection() {
    for (list, message) in [
        (&["--check"][..], "Missing filename"),
        (&["a.csv", "b.csv"], "Open one file at a time"),
        (&["a.csv", "--bogus"], "Unknown option: --bogus"),
        (&["a.csv", "-x", "--read", "A0"], "Unknown option: -x"),
        (&["a.csv", "--read", "A0", "--bogus"], "Rows start at 1"),
        (&["a.csv", "--read", "A0", "--help"], "Rows start at 1"),
        (&["a.csv", "--read"], "Missing value for --read"),
        (&["a.csv", "--sheet"], "Missing value for --sheet"),
        (&["a.csv", "--sort"], "Missing value for --sort"),
        (&["a.csv", "--find"], "Missing value for --find"),
        (&["a.csv", "--columns"], "Missing value for --columns"),
        (&["a.csv", "--from"], "Missing value for --from"),
        (&["a.csv", "--limit"], "Missing value for --limit"),
        (&["a.csv", "-d"], "Missing value for --delimiter"),
        (&["a.csv", "--delimiter"], "Missing value for --delimiter"),
        (&["a.csv", "--set"], "Missing value for --set CELL"),
        (&["a.csv", "--set", "B2"], "Missing value for --set VALUE"),
        (
            &["a.csv", "--set", "2B", "x"],
            "Use a cell address such as B7",
        ),
        (&["a.csv", "--apply"], "Missing JSON patch filename"),
        (&["a.csv", "-o"], "Missing output filename"),
        (&["a.csv", "--output"], "Missing output filename"),
        (
            &["a.csv", "-d", "ab"],
            "Delimiter must be one ASCII character or 'tab'",
        ),
        (
            &["a.csv", "-d", "õ"],
            "Delimiter must be one ASCII character or 'tab'",
        ),
        (
            &["a.csv", "-d", ""],
            "Delimiter must be one ASCII character or 'tab'",
        ),
        (&["a.csv", "--read", ""], "Use a cell address such as B7"),
        (
            &["a.csv", "--read", "$A$1"],
            "Use a cell address such as B7",
        ),
        (
            &["a.csv", "--read", "A1:B2:C3"],
            "Use a cell address such as B7",
        ),
        (
            &["a.csv", "--read", "A18446744073709551616"],
            "number too large to fit in target type",
        ),
        (
            &["a.csv", "--read", "AAAAAAAAAAAAAAAAAAAA1"],
            "Column address is too large",
        ),
        (
            &["a.csv", "--read", "B2:A1"],
            "Range must run from top-left to bottom-right",
        ),
        (
            &["a.csv", "--read", "A1:A10001"],
            "Read at most 100,000 cells and 10,000 rows at a time; request large datasets in chunks",
        ),
        (
            &["a.csv", "--find", "a", "--limit", "0"],
            "--limit must be a whole number from 1 to 10,000",
        ),
        (
            &["a.csv", "--find", "a", "--limit", "10001"],
            "--limit must be a whole number from 1 to 10,000",
        ),
        (
            &["a.csv", "--find", "a", "--limit", "-1"],
            "--limit must be a whole number from 1 to 10,000",
        ),
        (
            &["a.csv", "--find", "a", "--limit", "many"],
            "--limit must be a whole number from 1 to 10,000",
        ),
        (
            &["a.csv", "--find", "a", "--columns", "A, B"],
            "Use column letters such as B, not \" B\"",
        ),
        (
            &[
                "a.csv",
                "--find",
                "a",
                "--columns",
                "ZZZZZZZZZZZZZZZZZZZZZZZZ",
            ],
            "Column address is too large",
        ),
        (&["a.csv", "--find", "a", "--from", "A0"], "Rows start at 1"),
        (
            &["a.csv", "--find", "a", "--from", "B"],
            "Use a cell address such as B7",
        ),
        (
            &["a.csv", "--exact"],
            "--exact, --ignore-case, --columns, --from and --limit require --find",
        ),
        (
            &["a.csv", "--ignore-case"],
            "--exact, --ignore-case, --columns, --from and --limit require --find",
        ),
        (
            &["a.csv", "--columns", "A"],
            "--exact, --ignore-case, --columns, --from and --limit require --find",
        ),
        (
            &["a.csv", "--from", "A1"],
            "--exact, --ignore-case, --columns, --from and --limit require --find",
        ),
        (
            &["a.csv", "--limit", "5"],
            "--exact, --ignore-case, --columns, --from and --limit require --find",
        ),
        (
            &["book.xlsx", "--sheets", "--exact"],
            "--exact, --ignore-case, --columns, --from and --limit require --find",
        ),
        (
            &["a.csv", "--find", ""],
            "--find needs text; use --exact --find '' to find empty cells",
        ),
        (
            &["a.csv", "--find", "a", "--read", "A1"],
            "--find cannot be combined with --read, --output or --check",
        ),
        (
            &["a.csv", "--find", "a", "-o", "o.csv"],
            "--find cannot be combined with --read, --output or --check",
        ),
        (
            &["a.csv", "--find", "a", "--check"],
            "--find cannot be combined with --read, --output or --check",
        ),
        (
            &["a.csv", "--find", "a", "--read", "A1", "--sheets"],
            "--find cannot be combined with --read, --output or --check",
        ),
        (&["--sheets"], "Missing workbook filename"),
        (
            &["book.xlsx", "--sheets", "--check"],
            "Use --sheets by itself with a workbook filename",
        ),
        (
            &["book.xlsx", "--sheets", "--find", "a"],
            "Use --sheets by itself with a workbook filename",
        ),
        (
            &["book.xlsx", "--sheets", "--read", "A1"],
            "Use --sheets by itself with a workbook filename",
        ),
        (
            &["book.xlsx", "--sheets", "--set", "A1", "x"],
            "Use --sheets by itself with a workbook filename",
        ),
        (
            &["book.xlsx", "--sheets", "--dry-run"],
            "Use --sheets by itself with a workbook filename",
        ),
        (
            &["book.xlsx", "--sheets", "-o", "x.xlsx"],
            "Use --sheets by itself with a workbook filename",
        ),
        (
            &["book.xlsx", "--sheets", "--sort", "A"],
            "Use --sheets by itself with a workbook filename",
        ),
        (
            &["book.xlsx", "--sheets", "--sheet", "Data"],
            "Use --sheets by itself with a workbook filename",
        ),
        (
            &["book.xlsx", "--sheets", "--no-header"],
            "Use --sheets by itself with a workbook filename",
        ),
        (
            &["book.xlsx", "--sheets", "-d", ";"],
            "Use --sheets by itself with a workbook filename",
        ),
        (
            &["a.csv", "--set", "B2", "x"],
            "Edits require --dry-run or --output NEW_FILE",
        ),
        (
            &["a.csv", "--find", "a", "--set", "A1", "x"],
            "Edits require --dry-run or --output NEW_FILE",
        ),
        (
            &["a.csv", "--no-header", "--dry-run"],
            "--no-header requires --sort",
        ),
        (
            &["a.csv", "--find", "a", "--no-header"],
            "--no-header requires --sort",
        ),
        (
            &["a.csv", "--sort", "A"],
            "Use --sort with --read, --find, --dry-run or --output; use F6 to sort in the TUI",
        ),
        (
            &["a.csv", "--sort", "A", "--check"],
            "Use --sort with --read, --find, --dry-run or --output; use F6 to sort in the TUI",
        ),
        (
            &["a.csv", "--sort", "A,A", "--dry-run"],
            "A sort column may only appear once",
        ),
        (
            &["a.csv", "--find", "a", "--sort", "A,A"],
            "A sort column may only appear once",
        ),
        (
            &["a.csv", "--sort", "1", "--read", "A1"],
            "Use column letters, commas, - for descending and :n for numbers; e.g. B,-D:n",
        ),
        (
            &["a.csv", "--sort", "AAAAAAAAAAAAAAAAAAAAAAAA", "--dry-run"],
            "Column is too large",
        ),
        (
            &["a.csv", "--dry-run", "-o", "new.csv"],
            "Choose --dry-run or --output, not both",
        ),
        (
            &["a.csv", "--sort", "A,A", "--dry-run", "-o", "new.csv"],
            "A sort column may only appear once",
        ),
        (
            &["a.csv", "--check", "--dry-run"],
            "--check cannot be combined with read/edit/save options",
        ),
        (
            &["a.csv", "--check", "--read", "A1"],
            "--check cannot be combined with read/edit/save options",
        ),
        (
            &["a.csv", "--check", "-o", "new.csv"],
            "--check cannot be combined with read/edit/save options",
        ),
        (
            &["a.csv", "--check", "--set", "A1", "x", "-o", "n.csv"],
            "--check cannot be combined with read/edit/save options",
        ),
        (
            &["a.csv", "--check", "--sort", "A", "--read", "A1"],
            "--check cannot be combined with read/edit/save options",
        ),
    ] {
        assert_eq!(error(list), message, "{list:?}");
    }
}

#[test]
fn non_utf8_values_are_rejected_but_file_names_are_not() {
    let bad = || Arg::Bytes(vec![0xff]);
    let parse = |list: Vec<Arg>| parse(&list, &Vec::new());
    for option in [
        "--sheet",
        "--sort",
        "--find",
        "--columns",
        "--from",
        "--limit",
        "--read",
        "-d",
        "--delimiter",
    ] {
        let expected = if option == "-d" {
            "--delimiter"
        } else {
            option
        };
        assert_eq!(
            parse(vec![text("a.csv"), text(option), bad()])
                .unwrap_err()
                .to_string(),
            format!("{expected} requires UTF-8 text")
        );
    }
    assert_eq!(
        parse(vec![text("a.csv"), text("--set"), bad()])
            .unwrap_err()
            .to_string(),
        "--set CELL requires UTF-8 text"
    );
    assert_eq!(
        parse(vec![text("a.csv"), text("--set"), text("A1"), bad()])
            .unwrap_err()
            .to_string(),
        "--set VALUE requires UTF-8 text"
    );
    assert_eq!(
        parse(vec![bad(), text("-o"), bad()]).unwrap(),
        Command::Open(Box::new(Open {
            path: bad(),
            output: Some(bad()),
            ..open(&["a.csv"])
        }))
    );
}

#[test]
fn index_waits_follow_the_operations() {
    let range = |name: &str| Some(a1::parse_range(name).unwrap());
    let edit = vec![((0, 0), String::new())];
    let base = open(&["a.csv"]);
    let find = || {
        Some(Find {
            query: query("x"),
            from: None,
            limit: None,
        })
    };
    for (open, wait) in [
        (
            Open {
                read: range("A1:B5"),
                ..open(&["a.csv"])
            },
            Some(Wait::Rows(5)),
        ),
        (
            Open {
                read: range("C10"),
                ..open(&["a.csv"])
            },
            Some(Wait::Rows(10)),
        ),
        (
            Open {
                read: range("A1"),
                dry_run: true,
                ..open(&["a.csv"])
            },
            Some(Wait::All),
        ),
        (
            Open {
                read: range("A1"),
                edits: edit.clone(),
                ..open(&["a.csv"])
            },
            Some(Wait::All),
        ),
        (
            Open {
                read: range("A1"),
                output: Some(text("o.csv")),
                ..open(&["a.csv"])
            },
            Some(Wait::All),
        ),
        (
            Open {
                read: range("A1"),
                check: true,
                ..open(&["a.csv"])
            },
            Some(Wait::All),
        ),
        (
            Open {
                read: range("A1"),
                sort: Some(("A".into(), true)),
                ..open(&["a.csv"])
            },
            Some(Wait::All),
        ),
        (
            Open {
                check: true,
                ..open(&["a.csv"])
            },
            Some(Wait::All),
        ),
        (
            Open {
                output: Some(text("o.csv")),
                ..open(&["a.csv"])
            },
            Some(Wait::All),
        ),
        (
            Open {
                find: find(),
                ..open(&["a.csv"])
            },
            None,
        ),
        (
            Open {
                find: find(),
                dry_run: true,
                ..open(&["a.csv"])
            },
            None,
        ),
        (
            Open {
                find: find(),
                edits: edit.clone(),
                ..open(&["a.csv"])
            },
            Some(Wait::All),
        ),
        (
            Open {
                find: find(),
                sort: Some(("A".into(), true)),
                ..open(&["a.csv"])
            },
            Some(Wait::All),
        ),
    ] {
        assert!(open.headless(), "{open:?}");
        assert_eq!(open.wait(), wait, "{open:?}");
    }
    assert!(!base.headless());
    assert!(
        Open {
            edits: edit,
            ..open(&["a.csv"])
        }
        .headless()
    );
    assert!(
        !Open {
            sort: Some(("A".into(), true)),
            ..base
        }
        .headless()
    );
}

fn sheet(bytes: &[u8]) -> Sheet {
    Sheet::open("data.csv".into(), bytes.to_vec(), b',').unwrap()
}

fn execute(bytes: &[u8], list: &[&str], exists: bool) -> Result<Done, Error> {
    let open = open(list);
    let target = open.output.as_ref().map(|_| Target {
        name: "out.csv".into(),
        place: Destination {
            extension: "csv".into(),
            is_source: false,
            exists,
        },
    });
    run(&mut sheet(bytes), open, "0.5".into(), 99, target)
}

const CSV: &[u8] = b"id,name\n2,b\n1,a\n";

#[test]
fn commands_check_find_and_report() {
    match execute(CSV, &["a.csv", "--check"], false).unwrap() {
        Done::Check(check) => {
            assert_eq!(check.progress.rows, 3);
            assert_eq!(check.elapsed_seconds, "0.5");
            assert_eq!(check.source_bytes, None);
        }
        other => panic!("{other:?}"),
    }
    match execute(
        CSV,
        &["a.csv", "--set", "B2", "c", "--sort", "A:n", "--find", "c", "--dry-run"],
        false,
    )
    .unwrap()
    {
        Done::Found(found) => {
            assert_eq!(found.result.matches, [((2, 1), "c".into())]);
            assert_eq!(found.sort.unwrap().columns, "A:n");
            assert_eq!(found.preview.unwrap().0.len(), 1);
        }
        other => panic!("{other:?}"),
    }
    match execute(
        CSV,
        &["a.csv", "--sort", "-B", "--read", "A2:A3", "-o", "out.csv"],
        false,
    )
    .unwrap()
    {
        Done::Report(report, Some(Save::Csv(bytes))) => {
            assert_eq!(bytes, b"id,name\n2,b\n1,a\n");
            assert_eq!(report.output.as_deref(), Some("out.csv"));
            assert_eq!(
                report.read.unwrap().rows,
                [[Some("2".to_owned())], [Some("1".to_owned())]]
            );
        }
        other => panic!("{other:?}"),
    }
}

#[test]
fn commands_fail_in_order() {
    for (bytes, list, exists, message) in [
        (
            &b"a\n\xff\n"[..],
            &["a.csv", "--read", "A9", "--dry-run"][..],
            false,
            "CSV parse error: record 1 (line 2, field: 0, byte: 2): invalid utf-8: invalid UTF-8 in field 0 near byte index 0",
        ),
        (
            CSV,
            &["a.csv", "--read", "A4", "--set", "C1", "x", "--dry-run"],
            false,
            "Requested range extends beyond the last row",
        ),
        (
            CSV,
            &["a.csv", "--set", "C1", "x", "--sort", "Z", "--dry-run"],
            false,
            "No cell at this position",
        ),
        (
            CSV,
            &["a.csv", "--sort", "Z", "-o", "o.csv"],
            true,
            "Sort column 26 is outside the header",
        ),
        (
            CSV,
            &["a.csv", "-o", "o.csv"],
            true,
            "Destination already exists; choose a new filename",
        ),
    ] {
        assert_eq!(
            execute(bytes, list, exists).unwrap_err().to_string(),
            message,
            "{list:?}"
        );
    }
}

#[test]
fn edits_are_saved_over_their_source() {
    let mut sheet = sheet(b"a,b\nc\n");
    let target = Target {
        name: "/work/a.csv".into(),
        place: Destination { extension: "csv".into(), is_source: true, exists: true },
    };
    let open = open(&["a.csv", "--set", "A2", "x", "--output", "a.csv"]);
    match run(&mut sheet, open, "0".into(), 0, Some(target)).unwrap() {
        Done::Report(report, Some(Save::Csv(bytes))) => {
            assert_eq!(bytes, b"a,b\nx\n");
            assert_eq!(report.output.as_deref(), Some("/work/a.csv"));
        }
        other => panic!("{other:?}"),
    }
}
