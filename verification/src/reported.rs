//! What a report shows of changes, rows and matches, however many there are.
use crate::a1::{name_of, Address};
use crate::json::JsonView;
use crate::ops::{are_net_changes, is_changed, last_text, stored_text, Change, Found, Report};
use crate::report::is_formulas_doc;
use crate::sheet::Sheet;
use vstd::prelude::*;

verus! {

/// The edit is the last of its cell.
pub open spec fn is_last_edit(edits: Seq<(Address, Seq<char>)>, k: int) -> bool {
    &&& 0 <= k < edits.len()
    &&& forall|j: int| k < j < edits.len() ==> (#[trigger] edits[j]).0 != edits[k].0
}

proof fn last_edit_counts(edits: Seq<(Address, Seq<char>)>, k: int, n: int)
    requires
        0 <= k < n <= edits.len(),
        forall|j: int| k < j < n ==> (#[trigger] edits[j]).0 != edits[k].0,
    ensures
        last_text(edits, edits[k].0, n) == Some(edits[k].1),
    decreases n,
{
    if k < n - 1 {
        assert(edits[n - 1].0 != edits[k].0);
        last_edit_counts(edits, k, n - 1);
    }
}

proof fn some_edit_is_last(edits: Seq<(Address, Seq<char>)>, at: Address, n: int) -> (k: int)
    requires
        0 <= n <= edits.len(),
        last_text(edits, at, n) is Some,
    ensures
        0 <= k < n,
        edits[k].0 == at,
        last_text(edits, at, n) == Some(edits[k].1),
        forall|j: int| k < j < n ==> (#[trigger] edits[j]).0 != at,
    decreases n,
{
    if edits[n - 1].0 == at {
        n - 1
    } else {
        some_edit_is_last(edits, at, n - 1)
    }
}

/// Of a list of edits, a cell is reported as changed where its last edit gives it another
/// text than the record holds, with both texts, and where it does not, it is not reported. No
/// cell is reported twice or without an edit.
pub proof fn every_net_change_is_reported(
    sheet: Sheet,
    edits: Seq<(Address, Seq<char>)>,
    changes: Seq<Change>,
    k: int,
    i: int,
)
    requires
        are_net_changes(sheet, edits, changes),
    ensures
        is_last_edit(edits, k) && edits[k].0.0 < sheet.view_rows() ==> {
            let at = edits[k].0;
            let row = sheet.row(sheet.source_of(at.0 as int));
            let text = if at.1 < row.len() {
                row[at.1 as int]
            } else {
                Seq::empty()
            };
            (edits[k].1 != text) <==> exists|c: int|
                0 <= c < changes.len() && (#[trigger] changes[c]).cell == at && changes[c].before@
                    == text && changes[c].after@ == edits[k].1
        },
        0 <= i < changes.len() ==> exists|j: int|
            is_last_edit(edits, j) && (#[trigger] edits[j]).0 == changes[i].cell && edits[j].1
                == changes[i].after@,
        0 <= i < changes.len() ==> forall|c: int|
            0 <= c < changes.len() && c != i ==> (#[trigger] changes[c]).cell != changes[i].cell,
{
    let n = edits.len() as int;
    if is_last_edit(edits, k) && edits[k].0.0 < sheet.view_rows() {
        let at = edits[k].0;
        last_edit_counts(edits, k, n);
        let text = stored_text(sheet, at);
        if edits[k].1 != text {
            assert(is_changed(sheet, edits, at));
            let c = choose|c: int| 0 <= c < changes.len() && (#[trigger] changes[c]).cell == at;
            assert(changes[c].before@ == text && changes[c].after@ == edits[k].1);
        }
    }
    if 0 <= i < changes.len() {
        assert(last_text(edits, changes[i].cell, n) == Some(changes[i].after@));
        let j = some_edit_is_last(edits, changes[i].cell, n);
        assert(is_last_edit(edits, j));
        assert forall|c: int| 0 <= c < changes.len() && c != i implies (
        #[trigger] changes[c]).cell != changes[i].cell by {
            if c < i {
                assert(crate::cells::before(changes[c].cell, changes[i].cell));
            } else {
                assert(crate::cells::before(changes[i].cell, changes[c].cell));
            }
        }
    }
}

/// The document of a change names its cell and gives both texts.
pub open spec fn shows_change(doc: JsonView, change: Change) -> bool {
    doc == JsonView::Object(
        seq![
            ("after"@, JsonView::Text(change.after@)),
            ("before"@, JsonView::Text(change.before@)),
            ("cell"@, JsonView::Text(name_of(change.cell))),
        ],
    )
}

/// The document of a value: its text, or null where there is none.
pub open spec fn shows_value(doc: JsonView, value: Option<String>) -> bool {
    match value {
        Some(text) => doc == JsonView::Text(text@),
        None => doc is Null,
    }
}

/// The document of a row lists every value in its place.
pub open spec fn shows_row(doc: JsonView, row: Seq<Option<String>>) -> bool {
    doc matches JsonView::List(items) && items.len() == row.len() && forall|i: int|
        0 <= i < row.len() ==> shows_value(items[i], #[trigger] row[i])
}

/// The fields of an object hold this one.
pub open spec fn has_field(
    fields: Seq<(Seq<char>, JsonView)>,
    key: Seq<char>,
    value: JsonView,
) -> bool {
    exists|i: int| 0 <= i < fields.len() && #[trigger] fields[i] == (key, value)
}

/// A report lists every change and every row of its read, in their order, and says where the
/// cells are from. A formula of the read stands under the name of its cell. The results are
/// the changes and the rows.
pub proof fn reports_show_every_change_and_row(
    report: Report,
    fields: Seq<(Seq<char>, JsonView)>,
    formulas: Seq<(Seq<char>, JsonView)>,
) -> (shown: (Seq<JsonView>, Seq<JsonView>))
    requires
        fields == report.fields(formulas),
        report.read is Some && report.read->0.formulas is Some ==> is_formulas_doc(
            report.read->0.formulas->0,
            formulas,
        ),
    ensures
        has_field(fields, "changes"@, JsonView::List(shown.0)),
        shown.0.len() == report.changes.0@.len(),
        forall|i: int|
            0 <= i < shown.0.len() ==> shows_change(#[trigger] shown.0[i], report.changes.0@[i]),
        has_field(fields, "dry_run"@, JsonView::Bool(report.dry_run)),
        has_field(fields, "source"@, JsonView::Text(report.source.path@)),
        report.source.workbook matches Some(book) ==> has_field(
            fields,
            "sheet"@,
            JsonView::Text(book.0@),
        ) && has_field(fields, "format"@, JsonView::Text(book.1@)),
        report.output matches Some(output) ==> has_field(
            fields,
            "output"@,
            JsonView::Text(output@),
        ),
        report.read matches Some(read) ==> {
            &&& has_field(fields, "rows"@, JsonView::List(shown.1))
            &&& shown.1.len() == read.rows@.len()
            &&& forall|i: int|
                0 <= i < shown.1.len() ==> shows_row(#[trigger] shown.1[i], read.rows@[i]@)
            &&& read.formulas matches Some(cells) ==> {
                &&& has_field(fields, "formulas"@, JsonView::Object(formulas))
                &&& forall|i: int|
                    0 <= i < cells.entries@.len() ==> has_field(
                        formulas,
                        name_of((#[trigger] cells.entries@[i]).0),
                        JsonView::Text(cells.entries@[i].1@),
                    )
            }
        },
{
    let changes = report.changes.doc()->List_0;
    let rows = crate::report::rows_doc(report.read->0.rows@)->List_0;
    fields_of_report(report, formulas);
    if report.read is Some {
        let read = report.read->0;
        assert forall|i: int| 0 <= i < rows.len() implies shows_row(
            #[trigger] rows[i],
            read.rows@[i]@,
        ) by {
            let items = rows[i]->List_0;
            assert(rows[i] == crate::report::row_doc(read.rows@[i]@));
            assert(items.len() == read.rows@[i]@.len());
        }
        if read.formulas is Some {
            let cells = read.formulas->0;
            assert forall|i: int| 0 <= i < cells.entries@.len() implies has_field(
                formulas,
                name_of((#[trigger] cells.entries@[i]).0),
                JsonView::Text(cells.entries@[i].1@),
            ) by {
                let field = (
                    name_of(cells.entries@[i].0),
                    JsonView::Text(cells.entries@[i].1@),
                );
                assert(formulas.contains(field));
                let j = choose|j: int| 0 <= j < formulas.len() && formulas[j] == field;
                assert(formulas[j] == field);
            }
        }
    }
    (changes, rows)
}

proof fn fields_of_report(report: Report, formulas: Seq<(Seq<char>, JsonView)>)
    ensures
        ({
            let fields = report.fields(formulas);
            &&& has_field(fields, "changes"@, report.changes.doc())
            &&& has_field(fields, "dry_run"@, JsonView::Bool(report.dry_run))
            &&& has_field(fields, "source"@, JsonView::Text(report.source.path@))
            &&& report.source.workbook matches Some(book) ==> has_field(
                fields,
                "sheet"@,
                JsonView::Text(book.0@),
            ) && has_field(fields, "format"@, JsonView::Text(book.1@))
            &&& report.output matches Some(output) ==> has_field(
                fields,
                "output"@,
                JsonView::Text(output@),
            )
            &&& report.read matches Some(read) ==> {
                &&& has_field(fields, "rows"@, crate::report::rows_doc(read.rows@))
                &&& read.formulas is Some ==> has_field(
                    fields,
                    "formulas"@,
                    JsonView::Object(formulas),
                )
            }
        }),
{
    let fields = report.fields(formulas);
    let workbook = report.source.workbook is Some;
    let w = if workbook {
        1int
    } else {
        0
    };
    let f = if report.read is Some && report.read->0.formulas is Some {
        1int
    } else {
        0
    };
    let o = if report.output is Some {
        1int
    } else {
        0
    };
    let r = if report.read is Some {
        1int
    } else {
        0
    };
    let s = if report.sort is Some {
        1int
    } else {
        0
    };
    assert(fields[0] == ("changes"@, report.changes.doc()));
    assert(fields[1] == ("dry_run"@, JsonView::Bool(report.dry_run)));
    if workbook {
        assert(fields[3] == ("format"@, JsonView::Text((report.source.workbook->0).1@)));
        let at = 5 + f + o + 2 * r;
        assert(fields[at] == ("sheet"@, JsonView::Text((report.source.workbook->0).0@)));
    }
    if f == 1 {
        assert(fields[2 + 3 * w] == ("formulas"@, JsonView::Object(formulas)));
    }
    if o == 1 {
        assert(fields[2 + 3 * w + f] == ("output"@, JsonView::Text(report.output->0@)));
    }
    if r == 1 {
        assert(fields[3 + 3 * w + f + o] == (
            "rows"@,
            crate::report::rows_doc(report.read->0.rows@),
        ));
    }
    let last = 2 + 4 * w + f + o + 2 * r + s;
    assert(fields[last] == ("source"@, JsonView::Text(report.source.path@)));
}

/// The document of a search lists every match, in their order, with its cell and its value,
/// and says where the search goes on and how many records it went through. The result is the
/// matches.
pub proof fn searches_show_every_match(found: Found, fields: Seq<(Seq<char>, JsonView)>) -> (shown:
    Seq<JsonView>)
    requires
        JsonView::Object(fields) == found.doc(),
    ensures
        has_field(fields, "matches"@, JsonView::List(shown)),
        shown.len() == found.result.matches@.len(),
        forall|i: int|
            0 <= i < shown.len() ==> #[trigger] shown[i] == JsonView::Object(
                seq![
                    ("cell"@, JsonView::Text(name_of(found.result.matches@[i].0))),
                    ("value"@, JsonView::Text(found.result.matches@[i].1@)),
                ],
            ),
        has_field(
            fields,
            "next"@,
            match found.result.next {
                Some(at) => JsonView::Text(name_of(at)),
                None => JsonView::Null,
            },
        ),
        has_field(fields, "records_scanned"@, JsonView::Number(found.result.records_scanned)),
        has_field(fields, "source"@, JsonView::Text(found.source.path@)),
        found.preview matches Some(changes) ==> exists|items: Seq<JsonView>|
            {
                &&& #[trigger] has_field(fields, "changes"@, JsonView::List(items))
                &&& items.len() == changes.0@.len()
                &&& forall|i: int|
                    0 <= i < items.len() ==> shows_change(#[trigger] items[i], changes.0@[i])
            },
{
    let w = if found.source.workbook is Some {
        1int
    } else {
        0
    };
    let p = if found.preview is Some {
        1int
    } else {
        0
    };
    let s = if found.sort is Some {
        1int
    } else {
        0
    };
    let shown = found.matches_doc()->List_0;
    let at = 2 * p + 2 + w;
    assert(fields[at] == ("matches"@, JsonView::List(shown)));
    assert(fields[at + 1].0 == "next"@);
    assert(fields[at + 2] == (
        "records_scanned"@,
        JsonView::Number(found.result.records_scanned),
    ));
    assert(fields[at + 3 + w + s] == ("source"@, JsonView::Text(found.source.path@)));
    if p == 1 {
        let items = found.preview->0.doc()->List_0;
        assert(fields[0] == ("changes"@, JsonView::List(items)));
        assert(has_field(fields, "changes"@, JsonView::List(items)));
    }
    shown
}

} // verus!
