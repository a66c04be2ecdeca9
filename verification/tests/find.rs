use quadrille::find::{start, Matcher};
use quadrille::index::Index;
use quadrille::ops::{self, Wait};
use quadrille::{parse_sort, FindQuery, FindResult, Sheet};

fn open(bytes: &[u8]) -> Sheet {
    let mut sheet = Sheet::open("data.csv".into(), bytes.to_vec(), b',').unwrap();
    let _ = ops::wait_for_index(&mut sheet, Wait::All);
    sheet
}

fn query(text: &str) -> FindQuery {
    FindQuery {
        text: text.into(),
        ..FindQuery::default()
    }
}

fn cells(result: &FindResult) -> Vec<(u64, usize, &str)> {
    result
        .matches
        .iter()
        .map(|&((row, col), ref value)| (row, col, value.as_str()))
        .collect()
}

/// Every page size yields the complete result, in order, without read-ahead.
fn assert_pages(sheet: &Sheet, query: &FindQuery) -> FindResult {
    let all = sheet.find(query, (0, 0), usize::MAX).unwrap();
    assert_eq!(all.next, None);
    for limit in 1..=all.matches.len() + 1 {
        let (mut from, mut pages, mut seen) = ((0, 0), 0, Vec::new());
        loop {
            let page = sheet.find(query, from, limit).unwrap();
            assert!(page.matches.len() <= limit);
            assert_eq!(page.next.is_some(), page.matches.len() == limit, "{limit}");
            seen.extend(page.matches);
            pages += 1;
            assert!(pages <= all.matches.len() + 2, "no progress at {from:?}");
            match page.next {
                Some(next) => from = next,
                None => break,
            }
        }
        assert_eq!(seen, all.matches, "{query:?} limit {limit}");
    }
    all
}

const SAMPLE: &[u8] = b"\xef\xbb\xbfcity,name,note\nTallinn,\xc3\x95ie,\"multi\nline Tallinn\"\ntartu,,x\nTALLINN-N\xc3\xb5mme\n,\xc3\xb5ie,\n";

#[test]
fn modes_columns_and_ragged_records() {
    let sheet = open(SAMPLE);
    let run = |q: FindQuery| sheet.find(&q, (0, 0), 100).unwrap();
    let tallinn = run(query("Tallinn"));
    assert_eq!(
        cells(&tallinn),
        [(1, 0, "Tallinn"), (1, 2, "multi\nline Tallinn")]
    );
    assert_eq!(tallinn.next, None);
    assert_eq!(tallinn.records_scanned, 5);
    let ignore = |text: &str| FindQuery {
        ignore_case: true,
        ..query(text)
    };
    assert_eq!(
        cells(&run(ignore("tallinn"))),
        [
            (1, 0, "Tallinn"),
            (1, 2, "multi\nline Tallinn"),
            (3, 0, "TALLINN-Nõmme")
        ]
    );
    assert_eq!(
        cells(&run(ignore("õ"))),
        [(1, 1, "Õie"), (3, 0, "TALLINN-Nõmme"), (4, 1, "õie")]
    );
    assert_eq!(
        cells(&run(query("õ"))),
        [(3, 0, "TALLINN-Nõmme"), (4, 1, "õie")]
    );
    // The BOM is not part of the first value.
    let exact = |text: &str| FindQuery {
        exact: true,
        ..query(text)
    };
    assert_eq!(cells(&run(exact("city"))), [(0, 0, "city")]);
    assert!(run(exact("Tallin")).matches.is_empty());
    assert_eq!(
        cells(&run(FindQuery {
            ignore_case: true,
            ..exact("õIE")
        })),
        [(1, 1, "Õie"), (4, 1, "õie")]
    );
    // Empty exact finds stored empty fields only, not the missing fields of row 4.
    assert_eq!(cells(&run(exact(""))), [(2, 1, ""), (4, 0, ""), (4, 2, "")]);
    let columns = |text: &str, columns: Vec<usize>| FindQuery {
        columns: Some(columns),
        ..ignore(text)
    };
    assert_eq!(
        cells(&run(columns("tallinn", vec![2, 2]))),
        [(1, 2, "multi\nline Tallinn")]
    );
    assert_eq!(
        cells(&run(columns("i", vec![1, 0]))),
        [
            (0, 0, "city"),
            (1, 0, "Tallinn"),
            (1, 1, "Õie"),
            (3, 0, "TALLINN-Nõmme"),
            (4, 1, "õie")
        ]
    );
    assert!(run(FindQuery {
        exact: true,
        ..columns("", vec![5])
    })
    .matches
    .is_empty());
    assert_eq!(run(columns("x", vec![5])).records_scanned, 5);
    assert!(sheet.find(&query(""), (0, 0), 1).is_err());
    assert!(sheet.find(&query("a"), (0, 0), 0).is_err());
    assert!(run(columns("x", vec![usize::MAX])).matches.is_empty());
}

#[test]
fn ignore_case_agrees_with_unicode_lowercase() {
    let values = [
        "",
        "k",
        "K",
        "kelvin",
        "KELVIN",
        "Õie",
        "õie",
        "ÕIE",
        "İx",
        "i\u{307}x",
        "Tallinn-Nõmme",
        "a,b",
    ];
    let texts = [
        "", "k", "\u{212a}", "KEL", "õ", "Õie", "İ", "i\u{307}", "NÕMME", "tallinn", "a,b", "zz",
    ];
    for text in texts {
        for exact in [false, true] {
            let matcher = Matcher {
                text: text.to_lowercase(),
                columns: None,
                exact,
                ignore_case: true,
            };
            for value in values {
                let (value_lower, text_lower) = (value.to_lowercase(), text.to_lowercase());
                let expected = if exact {
                    value_lower == text_lower
                } else {
                    value_lower.contains(&text_lower)
                };
                assert_eq!(
                    matcher.matches(value),
                    expected,
                    "{value:?} {text:?} {exact}"
                );
            }
        }
    }
}

#[test]
fn paging_resumes_inside_records_and_after_the_last_cell() {
    let sheet = open(b"a,xa,x\nx\n,x,,x\nb\nx,x\n");
    let q = query("x");
    let first = sheet.find(&q, (0, 0), 1).unwrap();
    assert_eq!(
        (cells(&first), first.next, first.records_scanned),
        (vec![(0, 1, "xa")], Some((0, 2)), 1)
    );
    let second = sheet.find(&q, (0, 2), 2).unwrap();
    assert_eq!(
        (cells(&second), second.next, second.records_scanned),
        (vec![(0, 2, "x"), (1, 0, "x")], Some((1, 1)), 2)
    );
    // The final cell still yields a next page, which is then empty.
    let last = sheet.find(&q, (4, 1), 1).unwrap();
    assert_eq!((cells(&last), last.next), (vec![(4, 1, "x")], Some((4, 2))));
    let empty = sheet.find(&q, (4, 2), 1).unwrap();
    assert_eq!(
        (empty.matches.len(), empty.next, empty.records_scanned),
        (0, None, 1)
    );
    let beyond = sheet.find(&q, (99, 0), 1).unwrap();
    assert_eq!(
        (beyond.matches.len(), beyond.next, beyond.records_scanned),
        (0, None, 0)
    );
    // A `from` column past the last filtered column resumes on the next row.
    let filtered = FindQuery {
        columns: Some(vec![0, 1]),
        ..q.clone()
    };
    let resumed = sheet.find(&filtered, (2, 3), 1).unwrap();
    assert_eq!(cells(&resumed), [(4, 0, "x")]);
    assert_eq!(resumed.records_scanned, 3);
    let mut sheet = sheet;
    // Workbook-style edits past the stored fields are searched and page like any cell.
    sheet.edits.insert((0, 7), "x".into());
    sheet.edits.insert((2, 5), "x".into());
    let past = sheet.find(&q, (0, 3), 1).unwrap();
    assert_eq!((cells(&past), past.next), (vec![(0, 7, "x")], Some((0, 8))));
    assert_eq!(cells(&sheet.find(&q, (0, 8), 1).unwrap()), [(1, 0, "x")]);
    for q in [
        q.clone(),
        filtered,
        FindQuery {
            columns: Some(vec![3, 9]),
            ..q.clone()
        },
        FindQuery {
            exact: true,
            ..query("")
        },
    ] {
        assert_pages(&sheet, &q);
    }
}

#[test]
fn edits_and_sorted_views_are_searched_as_read() {
    let mut sheet = open(b"name,city\nc,Tartu\na,Tallinn\nb,Tallinn\nd\n");
    sheet.set(3, 1, "Narva".into()).unwrap();
    sheet.set(1, 1, "Tallinn".into()).unwrap();
    let tallinn = query("Tallinn");
    assert_eq!(
        cells(&sheet.find(&tallinn, (0, 0), 9).unwrap()),
        [(1, 1, "Tallinn"), (2, 1, "Tallinn")]
    );
    assert!(sheet
        .find(&query("Tartu"), (0, 0), 9)
        .unwrap()
        .matches
        .is_empty());
    let order = sheet.start_sort(parse_sort("A").unwrap(), true).unwrap();
    sheet.apply_sort(order).unwrap();
    let sorted = assert_pages(&sheet, &tallinn);
    assert_eq!(cells(&sorted), [(1, 1, "Tallinn"), (3, 1, "Tallinn")]);
    for &((row, col), ref value) in &sorted.matches {
        let record = &sheet.window(row, 1)[0];
        assert_eq!(sheet.cell_value(row, col, record), Some(value.as_str()));
    }
    assert_eq!(
        cells(&sheet.find(&query("Narva"), (0, 0), 9).unwrap()),
        [(2, 1, "Narva")]
    );
    let from_view = sheet.find(&tallinn, (2, 0), 1).unwrap();
    assert_eq!(
        (cells(&from_view), from_view.next, from_view.records_scanned),
        (vec![(3, 1, "Tallinn")], Some((3, 2)), 2)
    );
    let end = sheet.find(&query("d"), (4, 0), 9).unwrap();
    assert_eq!((cells(&end), end.records_scanned), (vec![(4, 0, "d")], 1));
    assert_eq!(
        sheet.find(&tallinn, (5, 0), 9).unwrap(),
        FindResult::default()
    );
    assert_pages(
        &sheet,
        &FindQuery {
            exact: true,
            ..query("")
        },
    );
    assert_pages(
        &sheet,
        &FindQuery {
            columns: Some(vec![0]),
            ignore_case: true,
            ..query("A")
        },
    );
}

#[test]
fn start_position_uses_only_published_strides() {
    assert_eq!(start(&[], 0), (0, 0));
    assert_eq!(start(&[], 500), (0, 0));
    assert_eq!(start(&[0], 63), (0, 0));
    assert_eq!(start(&[0], 64), (0, 0));
    assert_eq!(start(&[3, 700], 64), (700, 64));
    assert_eq!(start(&[3, 700], 127), (700, 64));
    assert_eq!(start(&[3, 700, 1400], 128), (1400, 128));
    assert_eq!(start(&[3, 700], 1000), (700, 64));
}

fn many(records: u64) -> Vec<u8> {
    let mut writer = csv::Writer::from_writer(Vec::new());
    for i in 0..records {
        // Multiline records straddle every stride boundary.
        writer
            .write_record([i.to_string(), format!("row {i}\nnext"), (i % 7).to_string()])
            .unwrap();
    }
    writer.into_inner().unwrap()
}

#[test]
fn partial_and_missing_indexes_give_the_same_results() {
    let data = many(300);
    let mut sheet = open(&data);
    let q = FindQuery {
        exact: true,
        columns: Some(vec![2]),
        ..query("3")
    };
    let expected = sheet.find(&q, (130, 1), 5).unwrap();
    assert_eq!(expected.matches[0].0, (136, 2));
    let strides = sheet.index.offsets.len();
    for published in [0, 1, 2, 3, strides] {
        sheet.index = Index::new(&data, b',');
        for _ in 0..published {
            sheet.advance();
        }
        assert_eq!(
            sheet.find(&q, (130, 1), 5).unwrap(),
            expected,
            "{published}"
        );
        assert_eq!(sheet.progress().done, published == strides);
    }
}

#[test]
fn finds_before_indexing_finishes_and_stops_at_the_limit() {
    let data = many(200_000);
    let sheet = Sheet::open("many.csv".into(), data, b',').unwrap();
    let early = sheet.find(&query("row 5"), (0, 0), 1).unwrap();
    assert_eq!(
        (cells(&early), early.next, early.records_scanned),
        (vec![(5, 1, "row 5\nnext")], Some((5, 2)), 6)
    );
    // An index that never completes must not delay find.
    let late = sheet.find(&query("row 199999"), (199_990, 0), 1).unwrap();
    assert!(!sheet.progress().done);
    assert_eq!(
        (cells(&late), late.records_scanned),
        (vec![(199_999, 1, "row 199999\nnext")], 10)
    );
}

#[test]
fn invalid_utf8_is_an_error_only_inside_the_scanned_part() {
    let sheet = open(b"a,b\nneedle\n\xff\nneedle\n");
    assert!(sheet.find(&query("needle"), (0, 0), 5).is_err());
    let early = sheet.find(&query("needle"), (0, 0), 1).unwrap();
    assert_eq!(cells(&early), [(1, 0, "needle")]);
    assert!(sheet.progress().error.is_some());
    let error = sheet.find(&query("needle"), (0, 0), 5).unwrap_err();
    assert_eq!(
        error.to_string(),
        "CSV parse error: record 2 (line 3, field: 0, byte: 11): invalid utf-8: invalid UTF-8 in field 0 near byte index 0"
    );
}

#[test]
fn two_pages_join_to_one() {
    let sheet = open(b"x,1\nax,xx\n,x\nx\n");
    let q = query("x");
    let first = sheet.find(&q, (0, 0), 2).unwrap();
    let second = sheet.find(&q, first.next.unwrap(), 3).unwrap();
    let whole = sheet.find(&q, (0, 0), 5).unwrap();
    let mut joined = first.matches;
    joined.extend(second.matches);
    assert_eq!(joined, whole.matches);
    assert_eq!(second.next, whole.next);
}
