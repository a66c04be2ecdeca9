//! Which cells of a workbook sheet are read-only, and that they stay as they are.
use crate::a1::Address;
use crate::book::{is_import, ChosenView, GridView};
use crate::error::Error;
use crate::inside::{
    holds_value, is_inside, nodes_end_where_nothing_is_inside, values_are_of_the_first_attribute,
};
use crate::matched::record_in;
use crate::made_ods::{are_cols, are_rows};
use crate::ods::{is_cell_of, repeat_of};
use crate::package::{OFFICE, TABLE, TEXT};
use crate::scan::{
    cell_marks, has_break, next_col, next_row, paragraphs, rectangles_from, row_marks, scan_of,
    table_marks, table_named, Marks,
};
use crate::sheet::Sheet;
use crate::tree::{end_of, is_tag, value, value_in};
use crate::workbook::{cell_range_of, Format};
use crate::xml::Xml;
use vstd::prelude::*;

verus! {

/// Node `n` is a merged rectangle or an array formula with this reference.
pub open spec fn guards(doc: Xml, n: int, reference: Seq<char>) -> bool {
    let list = doc.attributes@[n]@;
    &&& 0 <= n < doc.nodes@.len()
    &&& doc.nodes@[n].name@ == "mergeCell"@ || doc.nodes@[n].name@ == "f"@ && holds_value(
        list,
        "t"@,
        "array"@,
    )
    &&& holds_value(list, "ref"@, reference)
}

proof fn every_rectangle_is_found(doc: Xml, i: int, n: int, reference: Seq<char>)
    requires
        0 <= i <= n,
        guards(doc, n, reference),
    ensures
        rectangles_from(doc, i) matches Ok(list) ==> (cell_range_of(reference) matches Ok(range)
            && list.contains(range)),
    decreases doc.nodes@.len() - i,
{
    values_are_of_the_first_attribute(doc, n, "t"@, "array"@);
    values_are_of_the_first_attribute(doc, n, "ref"@, reference);
    if let Ok(list) = rectangles_from(doc, i) {
        if i < n {
            every_rectangle_is_found(doc, i + 1, n, reference);
            let rest = rectangles_from(doc, i + 1)->Ok_0;
            let range = cell_range_of(reference)->Ok_0;
            let k = choose|k: int| 0 <= k < rest.len() && rest[k] == range;
            if list.len() == rest.len() {
                assert(list[k] == range);
            } else {
                assert(list[k + 1] == range);
            }
        } else {
            assert(list[0] == cell_range_of(reference)->Ok_0);
        }
    }
}

proof fn nothing_else_is_found(doc: Xml, i: int, k: int) -> (found: (int, Seq<char>))
    requires
        0 <= i,
        rectangles_from(doc, i) is Ok,
        0 <= k < rectangles_from(doc, i)->Ok_0.len(),
    ensures
        guards(doc, found.0, found.1),
        cell_range_of(found.1) == Ok::<(Address, Address), Error>(rectangles_from(doc, i)->Ok_0[k]),
    decreases doc.nodes@.len() - i,
{
    let marked = crate::scan::is_rectangle(doc, i) && value(doc, i, "ref"@) is Some;
    if !marked {
        nothing_else_is_found(doc, i + 1, k)
    } else if k > 0 {
        let list = rectangles_from(doc, i)->Ok_0;
        let rest = rectangles_from(doc, i + 1)->Ok_0;
        assert(list[k] == rest[k - 1]);
        nothing_else_is_found(doc, i + 1, k - 1)
    } else {
        let reference = value(doc, i, "ref"@)->0;
        values_are_of_the_first_attribute(doc, i, "t"@, "array"@);
        values_are_of_the_first_attribute(doc, i, "ref"@, reference);
        (i, reference)
    }
}

/// Every merged rectangle and every array formula of an XLSX sheet part is among the
/// read-only rectangles, and nothing else is.
pub proof fn every_merged_and_array_rectangle_is_read_only(
    doc: Xml,
    name: Seq<char>,
    marks: Marks,
    has_formulas: bool,
    n: int,
    reference: Seq<char>,
    k: int,
)
    requires
        scan_of(doc, Format::Xlsx, name) == Ok::<(Marks, bool), Error>((marks, has_formulas)),
    ensures
        guards(doc, n, reference) ==> (cell_range_of(reference) matches Ok(range)
            && marks.protected.contains(range)),
        0 <= k < marks.protected.len() ==> exists|m: int, r: Seq<char>| #[trigger]
            guards(doc, m, r) && cell_range_of(r) == Ok::<(Address, Address), Error>(
                marks.protected[k],
            ),
        marks.overrides == Map::<Address, Seq<char>>::empty(),
        has_formulas <==> exists|m: int|
            0 <= m < doc.nodes@.len() && (#[trigger] doc.nodes@[m]).name@ == "f"@,
{
    if guards(doc, n, reference) {
        every_rectangle_is_found(doc, 0, n, reference);
    }
    if 0 <= k < marks.protected.len() {
        let (m, r) = nothing_else_is_found(doc, 0, k);
        assert(guards(doc, m, r));
    }
    first_named_is_first(doc, "f"@, 0);
}

/// The first node with a name is a node with it, and none before it is.
proof fn first_named_is_first(doc: Xml, name: Seq<char>, i: int)
    requires
        0 <= i <= doc.nodes@.len(),
    ensures
        ({
            let n = crate::xlsx::first_named(doc, name, i);
            &&& i <= n <= doc.nodes@.len()
            &&& n < doc.nodes@.len() ==> doc.nodes@[n].name@ == name
            &&& forall|m: int| i <= m < n ==> (#[trigger] doc.nodes@[m]).name@ != name
        }),
    decreases doc.nodes@.len() - i,
{
    if i < doc.nodes@.len() && doc.nodes@[i].name@ != name {
        first_named_is_first(doc, name, i + 1);
    }
}

/// A cell of an opened sheet that lies in one of its read-only rectangles, or that has a
/// formula, takes no edit, wherever a sort shows it.
pub proof fn read_only_cells_stay_as_they_are(
    opened: Sheet,
    path: Seq<char>,
    chosen: ChosenView,
    values: GridView,
    formulas: Option<GridView>,
    sheet: Sheet,
    row: u64,
    col: usize,
    text: Seq<char>,
    k: int,
)
    requires
        is_import(opened, path, chosen, values, formulas),
        sheet.same_source(opened),
        sheet.order matches Some(order) ==> row < order.rows@.len(),
        ({
            let record = record_in(sheet, row);
            ||| {
                &&& 0 <= k < chosen.marks.protected.len()
                &&& chosen.marks.protected[k].0.0 <= record <= chosen.marks.protected[k].1.0
                &&& chosen.marks.protected[k].0.1 <= col <= chosen.marks.protected[k].1.1
            }
            ||| {
                &&& formulas matches Some(grid) && grid.at(record as int, col as int).len() > 0
                &&& record < crate::book::extent(values, formulas).0
                &&& col < crate::book::extent(values, formulas).1
            }
        }),
    ensures
        sheet.set_rule(row, col, text) is Err,
{
    let book = sheet.workbook->0;
    let at = sheet.key(row, col);
    assert(at == (record_in(sheet, row), col));
    if 0 <= k < chosen.marks.protected.len() && crate::workbook::in_rectangle(
        at,
        chosen.marks.protected[k],
    ) {
        assert(crate::workbook::in_rectangle(at, book.protected@[k]));
    }
    assert(book.is_read_only(at));
}

/// The marks of a row keep what was marked before: all rectangles, and the texts of cells that
/// are not in its rows or not from its column on.
proof fn rows_keep_earlier_marks(
    doc: Xml,
    row: int,
    j: int,
    end: int,
    rows: (u64, u64),
    col: usize,
    marks: Marks,
)
    ensures
        row_marks(doc, row, j, end, rows, col, marks) matches Ok(now) ==> {
            &&& marks.protected.len() <= now.protected.len()
            &&& now.protected.take(marks.protected.len() as int) == marks.protected
            &&& forall|at: Address|
                at.0 < rows.0 || at.0 >= rows.1 || at.1 < col ==> (
                #[trigger] now.overrides.contains_key(at) == marks.overrides.contains_key(at)) && (
                marks.overrides.contains_key(at) ==> now.overrides[at] == marks.overrides[at])
        },
    decreases end - j,
{
    if let Ok(now) = row_marks(doc, row, j, end, rows, col, marks) {
        if j >= end {
            assert(now.protected.take(marks.protected.len() as int) =~= marks.protected);
        } else if !is_cell_of(doc, row, j) {
            rows_keep_earlier_marks(doc, row, j + 1, end, rows, col, marks);
        } else {
            let next = next_col(doc, j, col)->Ok_0;
            let mid = cell_marks(doc, j, (rows.0, col), (rows.1, next), marks)->Ok_0;
            rows_keep_earlier_marks(doc, row, j + 1, end, rows, next, mid);
            assert(now.protected.take(marks.protected.len() as int) =~= marks.protected) by {
                assert forall|i: int| 0 <= i < marks.protected.len() implies now.protected[i]
                    == marks.protected[i] by {
                    assert(mid.protected[i] == marks.protected[i]);
                    assert(now.protected.take(mid.protected.len() as int)[i] == mid.protected[i]);
                }
            }
        }
    }
}

/// The marks of later rows of a table keep what was marked before.
proof fn tables_keep_earlier_marks(doc: Xml, j: int, end: int, row: u64, marks: Marks)
    ensures
        table_marks(doc, j, end, row, marks) matches Ok(now) ==> {
            &&& marks.protected.len() <= now.protected.len()
            &&& now.protected.take(marks.protected.len() as int) == marks.protected
            &&& forall|at: Address|
                at.0 < row ==> (#[trigger] now.overrides.contains_key(at)
                    == marks.overrides.contains_key(at)) && (marks.overrides.contains_key(at)
                    ==> now.overrides[at] == marks.overrides[at])
        },
    decreases end - j,
{
    if let Ok(now) = table_marks(doc, j, end, row, marks) {
        if j >= end {
            assert(now.protected.take(marks.protected.len() as int) =~= marks.protected);
        } else if !is_tag(doc.nodes@[j], TABLE@, "table-row"@) {
            tables_keep_earlier_marks(doc, j + 1, end, row, marks);
        } else {
            let next = next_row(doc, j, row)->Ok_0;
            let stop = end_of(doc.nodes@, j);
            let mid = row_marks(doc, j, j + 1, stop, (row, next), 0, marks)->Ok_0;
            rows_keep_earlier_marks(doc, j, j + 1, stop, (row, next), 0, marks);
            tables_keep_earlier_marks(doc, j + 1, end, next, mid);
            assert(now.protected.take(marks.protected.len() as int) =~= marks.protected) by {
                assert forall|i: int| 0 <= i < marks.protected.len() implies now.protected[i]
                    == marks.protected[i] by {
                    assert(mid.protected.take(marks.protected.len() as int)[i]
                        == mid.protected[i]);
                    assert(now.protected.take(mid.protected.len() as int)[i] == mid.protected[i]);
                }
            }
        }
    }
}

/// The cell covers others, or is covered.
pub open spec fn spans(doc: Xml, j: int) -> bool {
    ||| doc.nodes@[j].name@ == "covered-table-cell"@
    ||| value_in(doc, j, TABLE@, "number-columns-spanned"@) is Some
    ||| value_in(doc, j, TABLE@, "number-rows-spanned"@) is Some
    ||| value_in(doc, j, TABLE@, "number-matrix-columns-spanned"@) is Some
    ||| value_in(doc, j, TABLE@, "number-matrix-rows-spanned"@) is Some
}

/// The larger of two repetitions of a node.
pub open spec fn is_span(doc: Xml, j: int, a: Seq<char>, b: Seq<char>, n: int) -> bool {
    match (repeat_of(doc, j, a), repeat_of(doc, j, b)) {
        (Ok(x), Ok(y)) => n >= x && n >= y && (n == x || n == y),
        _ => false,
    }
}

/// A string cell without a stated value in which a tab or a line break stands.
pub open spec fn has_breaks(doc: Xml, j: int) -> bool {
    &&& value_in(doc, j, OFFICE@, "value-type"@) == Some("string"@)
    &&& value_in(doc, j, OFFICE@, "string-value"@) is None
    &&& exists|m: int|
        (m == j || is_inside(doc.nodes@, j, m)) && (is_tag(
            #[trigger] doc.nodes@[m],
            TEXT@,
            "tab"@,
        ) || is_tag(doc.nodes@[m], TEXT@, "line-break"@))
}

proof fn breaks_are_found(doc: Xml, j: int, end: int, m: int)
    requires
        j <= m < end,
        is_tag(doc.nodes@[m], TEXT@, "tab"@) || is_tag(doc.nodes@[m], TEXT@, "line-break"@),
    ensures
        has_break(doc, j, end),
    decreases m - j,
{
    if j < m {
        breaks_are_found(doc, j + 1, end, m);
    }
}

/// What a cell of a row marks stands in what its row marks.
proof fn rows_mark_every_cell(
    doc: Xml,
    row: int,
    i: int,
    cols: Seq<int>,
    rows: (u64, u64),
    marks: Marks,
    j: int,
    at: Address,
    span: (int, int),
)
    requires
        0 <= row < i <= j < end_of(doc.nodes@, row) <= doc.nodes@.len(),
        are_cols(doc, row, cols),
        0 <= cols[i] <= usize::MAX,
        is_cell_of(doc, row, j),
        row_marks(
            doc,
            row,
            i,
            end_of(doc.nodes@, row),
            rows,
            cols[i] as usize,
            marks,
        ) is Ok,
        rows.0 <= at.0 < rows.1,
        cols[j] <= at.1 < cols[j + 1],
        spans(doc, j) ==> is_span(
            doc,
            j,
            "number-rows-spanned"@,
            "number-matrix-rows-spanned"@,
            span.0,
        ) && is_span(
            doc,
            j,
            "number-columns-spanned"@,
            "number-matrix-columns-spanned"@,
            span.1,
        ),
    ensures
        ({
            let now = row_marks(
                doc,
                row,
                i,
                end_of(doc.nodes@, row),
                rows,
                cols[i] as usize,
                marks,
            )->Ok_0;
            let end = end_of(doc.nodes@, j);
            &&& spans(doc, j) ==> exists|k: int|
                {
                    let r = #[trigger] now.protected[k];
                    &&& 0 <= k < now.protected.len()
                    &&& r.0 == (rows.0, cols[j] as usize)
                    &&& r.1.0 == rows.1 - 1 + span.0 - 1
                    &&& r.1.1 == cols[j + 1] - 1 + span.1 - 1
                }
            &&& has_breaks(doc, j) ==> (paragraphs(doc, j, j + 1, end, true) matches Ok(text)
                && now.overrides.contains_key(at) && now.overrides[at] == text)
        }),
    decreases j - i,
{
    let end = end_of(doc.nodes@, row);
    let col = cols[i] as usize;
    let now = row_marks(doc, row, i, end, rows, col, marks)->Ok_0;
    if !is_cell_of(doc, row, i) {
        assert(cols[i + 1] == cols[i]);
        rows_mark_every_cell(doc, row, i + 1, cols, rows, marks, j, at, span);
    } else {
        let next = next_col(doc, i, col)->Ok_0;
        assert(cols[i + 1] == next);
        let mid = cell_marks(doc, i, (rows.0, col), (rows.1, next), marks)->Ok_0;
        if i < j {
            rows_mark_every_cell(doc, row, i + 1, cols, rows, mid, j, at, span);
        } else {
            rows_keep_earlier_marks(doc, row, i + 1, end, rows, next, mid);
            if spans(doc, j) {
                assert(crate::scan::is_spanned(doc, j)) by {
                    assert(is_cell_of(doc, row, j));
                }
                let k = mid.protected.len() - 1;
                assert(now.protected.take(mid.protected.len() as int)[k] == mid.protected[k]);
                let r = now.protected[k];
                assert(r == mid.protected.last());
            }
            if has_breaks(doc, j) {
                let m = choose|m: int|
                    (m == j || is_inside(doc.nodes@, j, m)) && (is_tag(
                        #[trigger] doc.nodes@[m],
                        TEXT@,
                        "tab"@,
                    ) || is_tag(doc.nodes@[m], TEXT@, "line-break"@));
                nodes_end_where_nothing_is_inside(doc.nodes@, j, m);
                breaks_are_found(doc, j, end_of(doc.nodes@, j), m);
                assert(crate::scan::is_broken_text(doc, j));
                assert(crate::scan::is_between(at, (rows.0, col), (rows.1, next)));
                assert(mid.overrides.contains_key(at));
                assert(now.overrides.contains_key(at));
            }
        }
    }
}

/// What a cell of a table marks stands in what the table marks.
proof fn tables_mark_every_cell(
    doc: Xml,
    table: int,
    i: int,
    rows: Seq<int>,
    marks: Marks,
    row: int,
    cols: Seq<int>,
    j: int,
    at: Address,
    span: (int, int),
)
    requires
        0 <= table <= i <= row < end_of(doc.nodes@, table) <= doc.nodes@.len(),
        are_rows(doc, table, rows),
        0 <= rows[i] <= u64::MAX,
        is_tag(doc.nodes@[row], TABLE@, "table-row"@),
        row < j < end_of(doc.nodes@, row) <= doc.nodes@.len(),
        are_cols(doc, row, cols),
        is_cell_of(doc, row, j),
        table_marks(doc, i, end_of(doc.nodes@, table), rows[i] as u64, marks) is Ok,
        rows[row] <= at.0 < rows[row + 1],
        cols[j] <= at.1 < cols[j + 1],
        spans(doc, j) ==> is_span(
            doc,
            j,
            "number-rows-spanned"@,
            "number-matrix-rows-spanned"@,
            span.0,
        ) && is_span(
            doc,
            j,
            "number-columns-spanned"@,
            "number-matrix-columns-spanned"@,
            span.1,
        ),
    ensures
        ({
            let now = table_marks(
                doc,
                i,
                end_of(doc.nodes@, table),
                rows[i] as u64,
                marks,
            )->Ok_0;
            let end = end_of(doc.nodes@, j);
            &&& spans(doc, j) ==> exists|k: int|
                {
                    let r = #[trigger] now.protected[k];
                    &&& 0 <= k < now.protected.len()
                    &&& r.0 == (rows[row] as u64, cols[j] as usize)
                    &&& r.1.0 == rows[row + 1] - 1 + span.0 - 1
                    &&& r.1.1 == cols[j + 1] - 1 + span.1 - 1
                }
            &&& has_breaks(doc, j) ==> (paragraphs(doc, j, j + 1, end, true) matches Ok(text)
                && now.overrides.contains_key(at) && now.overrides[at] == text)
        }),
    decreases row - i,
{
    let end = end_of(doc.nodes@, table);
    let first = rows[i] as u64;
    let now = table_marks(doc, i, end, first, marks)->Ok_0;
    if !is_tag(doc.nodes@[i], TABLE@, "table-row"@) {
        assert(rows[i + 1] == rows[i]);
        tables_mark_every_cell(doc, table, i + 1, rows, marks, row, cols, j, at, span);
    } else {
        let next = next_row(doc, i, first)->Ok_0;
        assert(rows[i + 1] == next);
        let stop = end_of(doc.nodes@, i);
        let mid = row_marks(doc, i, i + 1, stop, (first, next), 0, marks)->Ok_0;
        if i < row {
            tables_mark_every_cell(doc, table, i + 1, rows, mid, row, cols, j, at, span);
        } else {
            rows_mark_every_cell(
                doc,
                row,
                row + 1,
                cols,
                (first, next),
                marks,
                j,
                at,
                span,
            );
            tables_keep_earlier_marks(doc, i + 1, end, next, mid);
            if spans(doc, j) {
                let k = choose|k: int|
                    {
                        let r = #[trigger] mid.protected[k];
                        &&& 0 <= k < mid.protected.len()
                        &&& r.0 == (first, cols[j] as usize)
                        &&& r.1.0 == next - 1 + span.0 - 1
                        &&& r.1.1 == cols[j + 1] - 1 + span.1 - 1
                    };
                assert(now.protected.take(mid.protected.len() as int)[k] == mid.protected[k]);
                let r = now.protected[k];
                assert(r == mid.protected[k]);
            }
            if has_breaks(doc, j) {
                assert(mid.overrides.contains_key(at));
                assert(now.overrides.contains_key(at) == mid.overrides.contains_key(at));
            }
        }
    }
}

/// Every cell of an ODS table that covers others or is covered is read-only, over all its
/// repetitions and as far as it reaches. Every one whose text has tabs or line breaks has that
/// text in place of what is read, in each of its repetitions.
pub proof fn every_spanned_and_broken_cell_is_marked(
    doc: Xml,
    name: Seq<char>,
    marks: Marks,
    has_formulas: bool,
    rows: Seq<int>,
    row: int,
    cols: Seq<int>,
    j: int,
    at: Address,
    span: (int, int),
)
    requires
        scan_of(doc, Format::Ods, name) == Ok::<(Marks, bool), Error>((marks, has_formulas)),
        are_rows(doc, table_named(doc, name, 0), rows),
        is_inside(doc.nodes@, table_named(doc, name, 0), row),
        is_tag(doc.nodes@[row], TABLE@, "table-row"@),
        is_inside(doc.nodes@, row, j),
        is_cell_of(doc, row, j),
        are_cols(doc, row, cols),
        rows[row] <= at.0 < rows[row + 1],
        cols[j] <= at.1 < cols[j + 1],
        spans(doc, j) ==> is_span(
            doc,
            j,
            "number-rows-spanned"@,
            "number-matrix-rows-spanned"@,
            span.0,
        ) && is_span(
            doc,
            j,
            "number-columns-spanned"@,
            "number-matrix-columns-spanned"@,
            span.1,
        ),
    ensures
        spans(doc, j) ==> exists|k: int|
            {
                let r = #[trigger] marks.protected[k];
                &&& 0 <= k < marks.protected.len()
                &&& r.0 == (rows[row] as u64, cols[j] as usize)
                &&& r.1.0 == rows[row + 1] - 1 + span.0 - 1
                &&& r.1.1 == cols[j + 1] - 1 + span.1 - 1
            },
        has_breaks(doc, j) ==> (paragraphs(
            doc,
            j,
            j + 1,
            end_of(doc.nodes@, j),
            true,
        ) matches Ok(text) && marks.overrides.contains_key(at) && marks.overrides[at] == text),
        has_formulas,
{
    let table = table_named(doc, name, 0);
    crate::made_ods::table_is_the_first(doc, name, 0);
    nodes_end_where_nothing_is_inside(doc.nodes@, table, row);
    nodes_end_where_nothing_is_inside(doc.nodes@, row, j);
    tables_mark_every_cell(
        doc,
        table,
        table,
        rows,
        Marks { protected: Seq::empty(), overrides: Map::empty() },
        row,
        cols,
        j,
        at,
        span,
    );
}

proof fn found_breaks_are_there(doc: Xml, j: int, end: int) -> (m: int)
    requires
        has_break(doc, j, end),
    ensures
        j <= m < end,
        is_tag(doc.nodes@[m], TEXT@, "tab"@) || is_tag(doc.nodes@[m], TEXT@, "line-break"@),
    decreases end - j,
{
    if is_tag(doc.nodes@[j], TEXT@, "tab"@) || is_tag(doc.nodes@[j], TEXT@, "line-break"@) {
        j
    } else {
        found_breaks_are_there(doc, j + 1, end)
    }
}

/// Node `j` is a cell of a row element.
pub open spec fn is_cell_in_row(doc: Xml, row: int, j: int) -> bool {
    &&& is_tag(doc.nodes@[row], TABLE@, "table-row"@)
    &&& is_inside(doc.nodes@, row, j)
    &&& is_cell_of(doc, row, j)
}

/// A mark of a row that was not there before it is that of one of its cells.
proof fn row_marks_are_of_cells(
    doc: Xml,
    row: int,
    i: int,
    end: int,
    rows: (u64, u64),
    col: usize,
    marks: Marks,
    k: int,
    at: Address,
) -> (r: (int, int))
    requires
        row_marks(doc, row, i, end, rows, col, marks) is Ok,
        i > row,
    ensures
        ({
            let now = row_marks(doc, row, i, end, rows, col, marks)->Ok_0;
            &&& marks.protected.len() <= now.protected.len()
            &&& now.protected.take(marks.protected.len() as int) == marks.protected
            &&& marks.protected.len() <= k < now.protected.len() ==> i <= r.0 < end && is_cell_of(
                doc,
                row,
                r.0,
            ) && crate::scan::is_spanned(doc, r.0)
            &&& now.overrides.contains_key(at) && !marks.overrides.contains_key(at) ==> i <= r.1
                < end && is_cell_of(doc, row, r.1) && crate::scan::is_broken_text(doc, r.1)
        }),
    decreases end - i,
{
    if i >= end {
        assert(marks.protected.take(marks.protected.len() as int) =~= marks.protected);
        (0, 0)
    } else if !is_cell_of(doc, row, i) {
        row_marks_are_of_cells(doc, row, i + 1, end, rows, col, marks, k, at)
    } else {
        let next = next_col(doc, i, col)->Ok_0;
        let mid = cell_marks(doc, i, (rows.0, col), (rows.1, next), marks)->Ok_0;
        let r = row_marks_are_of_cells(doc, row, i + 1, end, rows, next, mid, k, at);
        let now = row_marks(doc, row, i, end, rows, col, marks)->Ok_0;
        let n = marks.protected.len() as int;
        assert(now.protected.take(n) =~= now.protected.take(mid.protected.len() as int).take(n));
        assert(mid.protected.take(n) =~= marks.protected);
        (
            if k < mid.protected.len() {
                i
            } else {
                r.0
            },
            if mid.overrides.contains_key(at) {
                i
            } else {
                r.1
            },
        )
    }
}

proof fn table_marks_are_of_cells(
    doc: Xml,
    j: int,
    end: int,
    row: u64,
    marks: Marks,
    k: int,
    at: Address,
) -> (r: ((int, int), (int, int)))
    requires
        table_marks(doc, j, end, row, marks) is Ok,
        0 <= j,
        end <= doc.nodes@.len(),
    ensures
        ({
            let now = table_marks(doc, j, end, row, marks)->Ok_0;
            &&& marks.protected.len() <= k < now.protected.len() ==> j <= (r.0).0 < end
                && is_cell_in_row(doc, (r.0).0, (r.0).1) && crate::scan::is_spanned(doc, (r.0).1)
            &&& now.overrides.contains_key(at) && !marks.overrides.contains_key(at) ==> j <= (
            r.1).0 < end && is_cell_in_row(doc, (r.1).0, (r.1).1) && crate::scan::is_broken_text(
                doc,
                (r.1).1,
            )
        }),
    decreases end - j,
{
    if j >= end {
        ((0, 0), (0, 0))
    } else if !is_tag(doc.nodes@[j], TABLE@, "table-row"@) {
        table_marks_are_of_cells(doc, j + 1, end, row, marks, k, at)
    } else {
        let next = next_row(doc, j, row)->Ok_0;
        let last = end_of(doc.nodes@, j);
        let mid = row_marks(doc, j, j + 1, last, (row, next), 0, marks)->Ok_0;
        let here = row_marks_are_of_cells(doc, j, j + 1, last, (row, next), 0, marks, k, at);
        let later = table_marks_are_of_cells(doc, j + 1, end, next, mid, k, at);
        nodes_end_where_nothing_is_inside(doc.nodes@, j, here.0);
        nodes_end_where_nothing_is_inside(doc.nodes@, j, here.1);
        (
            if k < mid.protected.len() {
                (j, here.0)
            } else {
                later.0
            },
            if mid.overrides.contains_key(at) {
                (j, here.1)
            } else {
                later.1
            },
        )
    }
}

/// Nothing else is marked in an ODS sheet: each read-only rectangle is that of a cell that
/// covers others or is covered, and each text that is put in place of a value is that of a
/// cell in which a tab or a line break stands.
pub proof fn only_spanned_and_broken_cells_are_marked(
    doc: Xml,
    name: Seq<char>,
    marks: Marks,
    has_formulas: bool,
    k: int,
    at: Address,
)
    requires
        scan_of(doc, Format::Ods, name) == Ok::<(Marks, bool), Error>((marks, has_formulas)),
    ensures
        0 <= k < marks.protected.len() ==> exists|row: int, j: int| #[trigger]
            is_cell_in_row(doc, row, j) && spans(doc, j),
        marks.overrides.contains_key(at) ==> exists|row: int, j: int| #[trigger]
            is_cell_in_row(doc, row, j) && has_breaks(doc, j),
{
    let table = table_named(doc, name, 0);
    crate::made_ods::table_is_the_first(doc, name, 0);
    nodes_end_where_nothing_is_inside(doc.nodes@, table, table + 1);
    let none = Marks { protected: Seq::empty(), overrides: Map::empty() };
    let end = end_of(doc.nodes@, table);
    let (a, b) = table_marks_are_of_cells(doc, table, end, 0, none, k, at);
    if 0 <= k < marks.protected.len() {
        assert(is_cell_in_row(doc, a.0, a.1) && spans(doc, a.1));
    }
    if marks.overrides.contains_key(at) {
        let j = b.1;
        let m = found_breaks_are_there(doc, j, end_of(doc.nodes@, j));
        nodes_end_where_nothing_is_inside(doc.nodes@, j, m);
        assert(m == j || is_inside(doc.nodes@, j, m));
        assert(has_breaks(doc, j));
        assert(is_cell_in_row(doc, b.0, b.1));
    }
}

} // verus!
