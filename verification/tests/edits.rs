//! Edits, their history, and what is left of them.
use quadrille::a1::{column_name, parse_range};
use quadrille::ops::{self, Wait};
use quadrille::{parse_sort, Error, FindQuery, Sheet};

fn open(bytes: &[u8]) -> Sheet {
    let mut sheet = Sheet::open("/work/data.csv".into(), bytes.into(), b',').unwrap();
    ops::wait_for_index(&mut sheet, Wait::All).unwrap();
    sheet
}

fn sorted(sheet: &mut Sheet, spec: &str) {
    let order = sheet.start_sort(parse_sort(spec).unwrap(), false).unwrap();
    sheet.apply_sort(order).unwrap();
}

#[test]
fn as_many_undos_as_sets_restore_the_edits() {
    let mut sheet = open(b"b,2\na,1\nc,3\n");
    sheet.set(0, 1, "20".into()).unwrap();
    let (edits, undo) = (sheet.edits.entries.clone(), sheet.undo.clone());
    // The second set changes nothing, so it is no step.
    sheet.set(1, 0, "z".into()).unwrap();
    sheet.set(1, 0, "z".into()).unwrap();
    sorted(&mut sheet, "A");
    sheet.set(0, 1, "200".into()).unwrap();
    sheet.set(0, 1, "2".into()).unwrap();
    sheet.clear_sort();
    sheet.set(1, 0, "a".into()).unwrap();
    assert_eq!(sheet.undo.len(), undo.len() + 4);
    sorted(&mut sheet, "-B:n");
    for left in (0..4).rev() {
        assert!(sheet.undo());
        assert_eq!(sheet.undo.len(), undo.len() + left);
    }
    assert_eq!((&sheet.edits.entries, &sheet.undo), (&edits, &undo));
    assert!(sheet.undo());
    assert!(sheet.edits.entries.is_empty());
    assert!(!sheet.undo());
}

#[test]
fn a_stored_text_leaves_no_edit() {
    let mut sheet = open(b"a,b\n");
    sheet.set(0, 0, "a".into()).unwrap();
    assert!(sheet.edits.entries.is_empty() && sheet.undo.is_empty());
    sheet.set(0, 0, "x".into()).unwrap();
    sheet.set(0, 0, "a".into()).unwrap();
    assert!(sheet.edits.entries.is_empty());
    // Undoing brings the edit back, then takes it away.
    assert!(sheet.undo());
    assert_eq!(sheet.edits.entries, [((0, 0), "x".to_owned())]);
    assert!(sheet.undo());
    assert!(sheet.edits.entries.is_empty());
}

#[test]
fn edits_of_a_list_are_steps_of_the_history() {
    let mut sheet = open(b"a,b\n");
    let edits = vec![
        ((0, 0), "x".to_owned()),
        ((0, 1), "b".to_owned()),
        ((0, 0), "y".to_owned()),
    ];
    ops::apply_edits(&mut sheet, edits).unwrap();
    assert_eq!(sheet.undo, [((0, 0), None), ((0, 0), Some("x".to_owned()))]);
    assert_eq!(sheet.revision, 2);
    // The edits before a refused one stay.
    let edits = vec![((0, 1), "z".to_owned()), ((1, 0), "no".to_owned())];
    assert_eq!(ops::apply_edits(&mut sheet, edits), Err(Error::NoCell));
    assert_eq!(sheet.undo.len(), 3);
    assert_eq!(sheet.revision, 3);
    assert_eq!(sheet.edits.get((0, 1)).unwrap(), "z");
}

#[test]
fn a_sort_keeps_its_keys_and_the_revision_it_was_made_at() {
    let mut sheet = open(b"h\nb\na\n");
    sheet.set(1, 0, "c".into()).unwrap();
    ops::sort(&mut sheet, "-A", true).unwrap();
    let order = sheet.sort_order().unwrap();
    assert_eq!(order.keys, parse_sort("-A").unwrap());
    assert!(order.header);
    assert_eq!(order.revision, 1);
    let rows: Vec<u64> = order.rows.iter().map(|r| r.row).collect();
    assert_eq!(rows, [0, 1, 2]);
}

#[test]
fn pages_of_every_size_end_and_join() {
    let sheet = open(b"x,y,x\nx\n,x,x\n");
    let query = FindQuery { text: "x".into(), ..FindQuery::default() };
    let whole = sheet.find(&query, (0, 0), 100).unwrap();
    assert_eq!((whole.matches.len(), whole.next), (5, None));
    for limit in 1..8 {
        let (mut from, mut seen, mut pages) = ((0, 0), Vec::new(), 0);
        loop {
            let page = sheet.find(&query, from, limit).unwrap();
            seen.extend(page.matches);
            pages += 1;
            match page.next {
                Some(next) => {
                    assert_eq!(seen.len(), pages * limit);
                    from = next;
                }
                None => break,
            }
        }
        assert_eq!(seen, whole.matches);
        assert_eq!(pages, 5 / limit + 1);
    }
}

#[test]
fn column_names_grow() {
    let names: Vec<String> = (0..20_000).map(column_name).collect();
    for pair in names.windows(2) {
        assert!((pair[0].len(), &pair[0]) < (pair[1].len(), &pair[1]), "{pair:?}");
    }
    assert_eq!((names[25].as_str(), names[26].as_str()), ("Z", "AA"));
    assert_eq!((names[701].as_str(), names[702].as_str()), ("ZZ", "AAA"));
}

#[test]
fn revisions_start_anew_after_the_last() {
    let mut sheet = open(b"a\n");
    sheet.revision = u64::MAX;
    sheet.set(0, 0, "b".into()).unwrap();
    assert_eq!(sheet.revision, 0);
    assert!(sheet.undo());
    assert_eq!(sheet.revision, 1);
    assert!(sheet.edits.entries.is_empty());
}

#[test]
fn reads_take_any_range_of_the_records() {
    let text: String = (0..10_001).map(|n| format!("{n},x\n")).collect();
    let sheet = open(text.as_bytes());
    let range = parse_range("A1:C10001").unwrap();
    assert!(ops::read_range("A1:C10001").is_err());
    let read = ops::read(&sheet, range).unwrap();
    assert_eq!(read.rows.len(), 10_001);
    assert_eq!(read.rows[10_000], [Some("10000".to_owned()), Some("x".to_owned()), None]);
    let range = parse_range("A1:A10002").unwrap();
    assert_eq!(ops::read(&sheet, range).err().unwrap(), Error::BeyondLastRow);
}
