//! How far the tables of an ODS workbook reach.
use crate::inside::{is_inside, nodes_end_where_nothing_is_inside};
use crate::made_ods::{are_cols, are_rows};
use crate::ods::{
    cells_extent, has_element, is_cell_of, is_filled, larger, preflight_rule, repeat_of, rows_extent,
    tables_extent,
};
use crate::package::{OFFICE, TABLE};
use crate::tree::{end_of, is_tag, value_in};
use crate::workbook::{fits, Format};
use crate::xml::Xml;
use vstd::prelude::*;

verus! {

/// Node `c` is an element child of node `j`.
pub open spec fn is_part(doc: Xml, j: int, c: int) -> bool {
    &&& is_inside(doc.nodes@, j, c)
    &&& doc.nodes@[c].element
    &&& doc.nodes@[c].parent matches Some(p) && p == j
}

/// A cell has a value, a formula or something inside.
pub open spec fn has_content(doc: Xml, j: int) -> bool {
    ||| value_in(doc, j, OFFICE@, "value-type"@) is Some
    ||| value_in(doc, j, TABLE@, "formula"@) is Some
    ||| exists|c: int| #[trigger] is_part(doc, j, c)
}

/// The rectangle is no larger than is imported.
pub open spec fn is_small(rows: int, cols: int) -> bool {
    rows <= 1_048_576 && cols <= 16_384 && rows * cols <= 5_000_000
}

proof fn element_is_found(doc: Xml, i: int, j: int, end: int)
    requires
        0 <= i < j,
        end <= doc.nodes@.len(),
    ensures
        has_element(doc, i, j, end) <==> exists|c: int|
            j <= c < end && (#[trigger] doc.nodes@[c]).element && doc.nodes@[c].parent is Some
                && doc.nodes@[c].parent->0 == i,
    decreases end - j,
{
    if j < end {
        element_is_found(doc, i, j + 1, end);
        let node = doc.nodes@[j];
        if has_element(doc, i, j, end) && !(node.element && node.parent is Some && node.parent->0
            == i) {
            let c = choose|c: int|
                j + 1 <= c < end && (#[trigger] doc.nodes@[c]).element && doc.nodes@[c].parent
                    is Some && doc.nodes@[c].parent->0 == i;
            assert(doc.nodes@[c].element);
        }
    }
}

proof fn filled_cells_have_content(doc: Xml, j: int)
    requires
        0 <= j < doc.nodes@.len(),
    ensures
        is_filled(doc, j) <==> has_content(doc, j),
{
    let end = end_of(doc.nodes@, j);
    nodes_end_where_nothing_is_inside(doc.nodes@, j, j + 1);
    element_is_found(doc, j, j + 1, end);
    if has_element(doc, j, j + 1, end) {
        let c = choose|c: int|
            j + 1 <= c < end && (#[trigger] doc.nodes@[c]).element && doc.nodes@[c].parent is Some
                && doc.nodes@[c].parent->0 == j;
        nodes_end_where_nothing_is_inside(doc.nodes@, j, c);
        assert(is_part(doc, j, c));
    }
    if exists|c: int| #[trigger] is_part(doc, j, c) {
        let c = choose|c: int| #[trigger] is_part(doc, j, c);
        nodes_end_where_nothing_is_inside(doc.nodes@, j, c);
        assert(doc.nodes@[c].element);
    }
}

proof fn smaller_fits(r: int, c: int, rows: int, cols: int)
    requires
        0 <= r <= rows,
        0 <= c <= cols,
        fits(rows, cols),
    ensures
        fits(r, c),
        is_small(r, c),
{
    assert(r * c <= rows * cols) by (nonlinear_arith)
        requires
            0 <= r <= rows,
            0 <= c <= cols,
    ;
}

/// The extent does not shrink in a row, fits, and reaches a filled cell.
proof fn cells_are_reached(
    doc: Xml,
    row: int,
    cols: Seq<int>,
    from: int,
    j: int,
    rows: int,
    extent: (int, int),
)
    requires
        0 <= row < from <= end_of(doc.nodes@, row) <= doc.nodes@.len(),
        are_cols(doc, row, cols),
        fits(extent.0, extent.1),
        0 <= extent.0,
        0 <= extent.1,
        cells_extent(
            doc,
            row,
            from,
            end_of(doc.nodes@, row),
            rows,
            cols[from],
            extent,
        ) is Ok,
    ensures
        ({
            let reached = cells_extent(
                doc,
                row,
                from,
                end_of(doc.nodes@, row),
                rows,
                cols[from],
                extent,
            )->Ok_0;
            &&& reached.0 >= extent.0
            &&& reached.1 >= extent.1
            &&& fits(reached.0, reached.1)
            &&& from <= j < end_of(doc.nodes@, row) && is_cell_of(doc, row, j) && is_filled(doc, j)
                ==> reached.0 >= rows && reached.1 >= cols[j + 1]
        }),
    decreases end_of(doc.nodes@, row) - from,
{
    let end = end_of(doc.nodes@, row);
    if from < end {
        assert(cols[from + 1] == cols[from + 1]);
        if !is_cell_of(doc, row, from) {
            cells_are_reached(doc, row, cols, from + 1, j, rows, extent);
        } else {
            let n = repeat_of(doc, from, "number-columns-repeated"@)->Ok_0;
            if !is_filled(doc, from) {
                cells_are_reached(doc, row, cols, from + 1, j, rows, extent);
            } else {
                let reached = (larger(extent.0, rows), larger(extent.1, cols[from] + n));
                cells_are_reached(doc, row, cols, from + 1, j, rows, reached);
            }
        }
    }
}

/// Two filled cells, one in a row before that of the other, lie in a rectangle that fits.
proof fn rows_are_reached(
    doc: Xml,
    table: int,
    rows: Seq<int>,
    from: int,
    extent: (int, int),
    row: int,
    cols: Seq<int>,
    j: int,
)
    requires
        0 <= table <= from <= row < end_of(doc.nodes@, table) <= doc.nodes@.len(),
        are_rows(doc, table, rows),
        fits(extent.0, extent.1),
        0 <= extent.0,
        0 <= extent.1,
        rows_extent(doc, from, end_of(doc.nodes@, table), rows[from], extent) is Ok,
        is_tag(doc.nodes@[row], TABLE@, "table-row"@),
        are_cols(doc, row, cols),
        row < j < end_of(doc.nodes@, row),
        is_cell_of(doc, row, j),
        is_filled(doc, j),
        row < end_of(doc.nodes@, row) <= doc.nodes@.len(),
    ensures
        fits(larger(extent.0, rows[row + 1]), larger(extent.1, cols[j + 1])),
    decreases row - from,
{
    let end = end_of(doc.nodes@, table);
    assert(rows[from + 1] == rows[from + 1]);
    if !is_tag(doc.nodes@[from], TABLE@, "table-row"@) {
        rows_are_reached(doc, table, rows, from + 1, extent, row, cols, j);
    } else {
        let last = end_of(doc.nodes@, from);
        nodes_end_where_nothing_is_inside(doc.nodes@, from, from + 1);
        let places = if from == row {
            cols
        } else {
            numbering(doc, from)
        };
        cells_are_reached(doc, from, places, from + 1, j, rows[from + 1], extent);
        let reached = cells_extent(doc, from, from + 1, last, rows[from + 1], 0, extent)->Ok_0;
        if from < row {
            rows_are_reached(doc, table, rows, from + 1, reached, row, cols, j);
            rows_grow(doc, table, rows, row + 1);
            cols_grow(doc, row, cols, j + 1);
            smaller_fits(
                larger(extent.0, rows[row + 1]),
                larger(extent.1, cols[j + 1]),
                larger(reached.0, rows[row + 1]),
                larger(reached.1, cols[j + 1]),
            );
        } else {
            rows_grow(doc, table, rows, row + 1);
            cols_grow(doc, row, cols, j + 1);
            smaller_fits(
                larger(extent.0, rows[row + 1]),
                larger(extent.1, cols[j + 1]),
                reached.0,
                reached.1,
            );
        }
    }
}

proof fn rows_grow(doc: Xml, table: int, rows: Seq<int>, j: int)
    requires
        0 <= table <= j <= end_of(doc.nodes@, table),
        are_rows(doc, table, rows),
    ensures
        rows[j] >= 0,
    decreases j - table,
{
    if table < j {
        rows_grow(doc, table, rows, j - 1);
        assert(rows[(j - 1) + 1] == rows[j]);
    }
}

proof fn cols_grow(doc: Xml, row: int, cols: Seq<int>, j: int)
    requires
        0 <= row < j <= end_of(doc.nodes@, row),
        are_cols(doc, row, cols),
    ensures
        cols[j] >= 0,
    decreases j - row,
{
    if row + 1 < j {
        cols_grow(doc, row, cols, j - 1);
        assert(cols[(j - 1) + 1] == cols[j]);
    }
}

/// The columns at which the nodes of a row start.
proof fn numbering(doc: Xml, row: int) -> (cols: Seq<int>)
    requires
        0 <= row < end_of(doc.nodes@, row),
    ensures
        are_cols(doc, row, cols),
{
    let end = end_of(doc.nodes@, row);
    let cols = Seq::new((end + 1) as nat, |j: int| column_at(doc, row, j));
    assert forall|j: int| row < j < end implies #[trigger] cols[j + 1] == cols[j] + if is_cell_of(
        doc,
        row,
        j,
    ) && repeat_of(doc, j, "number-columns-repeated"@) is Ok {
        repeat_of(doc, j, "number-columns-repeated"@)->Ok_0 as int
    } else {
        0
    } by {
        assert(column_at(doc, row, j + 1) == cols[j + 1]);
    }
    cols
}

spec fn column_at(doc: Xml, row: int, j: int) -> int
    decreases j - row,
{
    if j <= row + 1 {
        0
    } else {
        column_at(doc, row, j - 1) + if is_cell_of(doc, row, j - 1) && repeat_of(
            doc,
            j - 1,
            "number-columns-repeated"@,
        ) is Ok {
            repeat_of(doc, j - 1, "number-columns-repeated"@)->Ok_0 as int
        } else {
            0
        }
    }
}

proof fn every_table_is_checked(doc: Xml, i: int, table: int)
    requires
        0 <= i <= table < doc.nodes@.len(),
        is_tag(doc.nodes@[table], TABLE@, "table"@),
        tables_extent(doc, i) is Ok,
    ensures
        rows_extent(doc, table, end_of(doc.nodes@, table), 0, (0, 0)) is Ok,
    decreases table - i,
{
    if i < table {
        every_table_is_checked(doc, i + 1, table);
    }
}

/// The cells of a table are imported only where the rectangle around any two of them that
/// have content, from the first row and column on, is small enough.
pub proof fn tables_beyond_the_limit_are_refused(
    doc: Xml,
    table: int,
    rows: Seq<int>,
    row: int,
    cols: Seq<int>,
    j: int,
    other: int,
    places: Seq<int>,
    k: int,
)
    requires
        preflight_rule(doc, Format::Ods) is Ok,
        0 <= table < doc.nodes@.len(),
        is_tag(doc.nodes@[table], TABLE@, "table"@),
        are_rows(doc, table, rows),
        is_inside(doc.nodes@, table, row),
        is_tag(doc.nodes@[row], TABLE@, "table-row"@),
        is_inside(doc.nodes@, row, j),
        is_cell_of(doc, row, j),
        has_content(doc, j),
        are_cols(doc, row, cols),
        is_inside(doc.nodes@, table, other),
        is_tag(doc.nodes@[other], TABLE@, "table-row"@),
        is_inside(doc.nodes@, other, k),
        is_cell_of(doc, other, k),
        has_content(doc, k),
        are_cols(doc, other, places),
        row < other,
    ensures
        is_small(rows[row + 1], cols[j + 1]),
        is_small(rows[other + 1], cols[j + 1]),
        is_small(rows[other + 1], places[k + 1]),
{
    let end = end_of(doc.nodes@, table);
    every_table_is_checked(doc, 0, table);
    nodes_end_where_nothing_is_inside(doc.nodes@, table, row);
    nodes_end_where_nothing_is_inside(doc.nodes@, table, other);
    nodes_end_where_nothing_is_inside(doc.nodes@, row, j);
    nodes_end_where_nothing_is_inside(doc.nodes@, other, k);
    filled_cells_have_content(doc, j);
    filled_cells_have_content(doc, k);
    rows_are_reached(doc, table, rows, table, (0, 0), row, cols, j);
    rows_grow(doc, table, rows, row + 1);
    cols_grow(doc, row, cols, j + 1);
    rows_grow(doc, table, rows, other + 1);
    cols_grow(doc, other, places, k + 1);
    pair_is_reached(doc, table, rows, table, (0, 0), row, cols, j, other, places, k);
    rows_are_reached(doc, table, rows, table, (0, 0), other, places, k);
}

proof fn pair_is_reached(
    doc: Xml,
    table: int,
    rows: Seq<int>,
    from: int,
    extent: (int, int),
    row: int,
    cols: Seq<int>,
    j: int,
    other: int,
    places: Seq<int>,
    k: int,
)
    requires
        0 <= table <= from <= row < other < end_of(doc.nodes@, table) <= doc.nodes@.len(),
        are_rows(doc, table, rows),
        fits(extent.0, extent.1),
        0 <= extent.0,
        0 <= extent.1,
        rows_extent(doc, from, end_of(doc.nodes@, table), rows[from], extent) is Ok,
        is_tag(doc.nodes@[row], TABLE@, "table-row"@),
        are_cols(doc, row, cols),
        row < j < end_of(doc.nodes@, row) <= doc.nodes@.len(),
        is_cell_of(doc, row, j),
        is_filled(doc, j),
        is_tag(doc.nodes@[other], TABLE@, "table-row"@),
        are_cols(doc, other, places),
        other < k < end_of(doc.nodes@, other) <= doc.nodes@.len(),
        is_cell_of(doc, other, k),
        is_filled(doc, k),
    ensures
        is_small(rows[other + 1], cols[j + 1]),
    decreases row - from,
{
    assert(rows[from + 1] == rows[from + 1]);
    if !is_tag(doc.nodes@[from], TABLE@, "table-row"@) {
        pair_is_reached(doc, table, rows, from + 1, extent, row, cols, j, other, places, k);
    } else {
        let last = end_of(doc.nodes@, from);
        nodes_end_where_nothing_is_inside(doc.nodes@, from, from + 1);
        let own = if from == row {
            cols
        } else {
            numbering(doc, from)
        };
        cells_are_reached(doc, from, own, from + 1, j, rows[from + 1], extent);
        let reached = cells_extent(doc, from, from + 1, last, rows[from + 1], 0, extent)->Ok_0;
        if from < row {
            pair_is_reached(doc, table, rows, from + 1, reached, row, cols, j, other, places, k);
        } else {
            rows_are_reached(doc, table, rows, from + 1, reached, other, places, k);
            rows_grow(doc, table, rows, other + 1);
            cols_grow(doc, row, cols, j + 1);
            smaller_fits(
                rows[other + 1],
                cols[j + 1],
                larger(reached.0, rows[other + 1]),
                larger(reached.1, places[k + 1]),
            );
        }
    }
}

/// The elements of the tables say how often they are repeated, and the rows and columns of
/// every table can be counted.
pub open spec fn can_be_counted(
    doc: Xml,
    rows: spec_fn(int) -> Seq<int>,
    cols: spec_fn(int) -> Seq<int>,
) -> bool {
    &&& forall|t: int|
        0 <= t < doc.nodes@.len() && is_tag(#[trigger] doc.nodes@[t], TABLE@, "table"@) ==> are_rows(
            doc,
            t,
            rows(t),
        ) && forall|j: int| t <= j <= end_of(doc.nodes@, t) ==> #[trigger] rows(t)[j] <= u64::MAX
    &&& forall|r: int|
        0 <= r < doc.nodes@.len() && is_tag(#[trigger] doc.nodes@[r], TABLE@, "table-row"@) ==> {
            &&& repeat_of(doc, r, "number-rows-repeated"@) is Ok
            &&& are_cols(doc, r, cols(r))
            &&& forall|j: int|
                r < j <= end_of(doc.nodes@, r) ==> #[trigger] cols(r)[j] <= u64::MAX
            &&& forall|j: int|
                r < j < end_of(doc.nodes@, r) && #[trigger] is_cell_of(doc, r, j) ==> repeat_of(
                    doc,
                    j,
                    "number-columns-repeated"@,
                ) is Ok
        }
}

/// Every cell of a table that has content lies in this many rows and columns.
pub open spec fn lies_within(
    doc: Xml,
    table: int,
    rows: Seq<int>,
    cols: spec_fn(int) -> Seq<int>,
    size: (int, int),
) -> bool {
    forall|r: int, j: int|
        is_inside(doc.nodes@, table, r) && is_tag(doc.nodes@[r], TABLE@, "table-row"@)
            && is_inside(doc.nodes@, r, j) && #[trigger] is_cell_of(doc, r, j) && has_content(doc, j)
            ==> rows[r + 1] <= size.0 && cols(r)[j + 1] <= size.1
}

/// Where the cells with content of every table lie in a rectangle that is small enough, the
/// workbook is not refused, however large the tables are without them.
pub proof fn small_tables_are_not_refused(
    doc: Xml,
    rows: spec_fn(int) -> Seq<int>,
    cols: spec_fn(int) -> Seq<int>,
    size: spec_fn(int) -> (int, int),
)
    requires
        can_be_counted(doc, rows, cols),
        forall|t: int|
            0 <= t < doc.nodes@.len() && is_tag(#[trigger] doc.nodes@[t], TABLE@, "table"@) ==> {
                &&& lies_within(doc, t, rows(t), cols, size(t))
                &&& is_small(size(t).0, size(t).1)
                &&& size(t).0 >= 0
                &&& size(t).1 >= 0
            },
    ensures
        preflight_rule(doc, Format::Ods) is Ok,
{
    tables_are_fine(doc, rows, cols, size, 0);
}

proof fn tables_are_fine(
    doc: Xml,
    rows: spec_fn(int) -> Seq<int>,
    cols: spec_fn(int) -> Seq<int>,
    size: spec_fn(int) -> (int, int),
    i: int,
)
    requires
        0 <= i <= doc.nodes@.len(),
        can_be_counted(doc, rows, cols),
        forall|t: int|
            0 <= t < doc.nodes@.len() && is_tag(#[trigger] doc.nodes@[t], TABLE@, "table"@) ==> {
                &&& lies_within(doc, t, rows(t), cols, size(t))
                &&& is_small(size(t).0, size(t).1)
                &&& size(t).0 >= 0
                &&& size(t).1 >= 0
            },
    ensures
        tables_extent(doc, i) is Ok,
    decreases doc.nodes@.len() - i,
{
    if i < doc.nodes@.len() {
        tables_are_fine(doc, rows, cols, size, i + 1);
        if is_tag(doc.nodes@[i], TABLE@, "table"@) {
            nodes_end_where_nothing_is_inside(doc.nodes@, i, i + 1);
            assert(lies_within(doc, i, rows(i), cols, size(i)));
            rows_are_fine(doc, i, rows, cols, size(i), i, (0, 0));
        }
    }
}

proof fn rows_are_fine(
    doc: Xml,
    table: int,
    rows: spec_fn(int) -> Seq<int>,
    cols: spec_fn(int) -> Seq<int>,
    size: (int, int),
    j: int,
    extent: (int, int),
)
    requires
        0 <= table <= j <= end_of(doc.nodes@, table) <= doc.nodes@.len(),
        is_tag(doc.nodes@[table], TABLE@, "table"@),
        can_be_counted(doc, rows, cols),
        lies_within(doc, table, rows(table), cols, size),
        is_small(size.0, size.1),
        0 <= extent.0 <= size.0,
        0 <= extent.1 <= size.1,
    ensures
        rows_extent(doc, j, end_of(doc.nodes@, table), rows(table)[j], extent) is Ok,
    decreases end_of(doc.nodes@, table) - j,
{
    let end = end_of(doc.nodes@, table);
    if j < end {
        assert(are_rows(doc, table, rows(table)));
        assert(rows(table)[j + 1] == rows(table)[j + 1]);
        if is_tag(doc.nodes@[j], TABLE@, "table-row"@) {
            reveal_strlit("table");
            reveal_strlit("table-row");
            assert("table"@.len() == 5 && "table-row"@.len() == 9);
            assert(j > table);
            nodes_end_where_nothing_is_inside(doc.nodes@, table, j);
            nodes_end_where_nothing_is_inside(doc.nodes@, j, j + 1);
            assert(repeat_of(doc, j, "number-rows-repeated"@) is Ok);
            cells_are_fine(doc, table, rows, cols, size, j, j + 1, extent);
            rows_grow(doc, table, rows(table), j + 1);
            let reached = cells_extent(
                doc,
                j,
                j + 1,
                end_of(doc.nodes@, j),
                rows(table)[j + 1],
                0,
                extent,
            )->Ok_0;
            rows_are_fine(doc, table, rows, cols, size, j + 1, reached);
        } else {
            rows_are_fine(doc, table, rows, cols, size, j + 1, extent);
        }
    }
}

proof fn cells_are_fine(
    doc: Xml,
    table: int,
    rows: spec_fn(int) -> Seq<int>,
    cols: spec_fn(int) -> Seq<int>,
    size: (int, int),
    row: int,
    j: int,
    extent: (int, int),
)
    requires
        0 <= table < row < j <= end_of(doc.nodes@, row) <= doc.nodes@.len(),
        is_inside(doc.nodes@, table, row),
        is_tag(doc.nodes@[row], TABLE@, "table-row"@),
        can_be_counted(doc, rows, cols),
        lies_within(doc, table, rows(table), cols, size),
        is_small(size.0, size.1),
        0 <= extent.0 <= size.0,
        0 <= extent.1 <= size.1,
    ensures
        cells_extent(
            doc,
            row,
            j,
            end_of(doc.nodes@, row),
            rows(table)[row + 1],
            cols(row)[j],
            extent,
        ) matches Ok(reached) && 0 <= reached.0 <= size.0 && 0 <= reached.1 <= size.1,
    decreases end_of(doc.nodes@, row) - j,
{
    let end = end_of(doc.nodes@, row);
    if j < end {
        assert(are_cols(doc, row, cols(row)));
        assert(cols(row)[j + 1] == cols(row)[j + 1]);
        if is_cell_of(doc, row, j) {
            nodes_end_where_nothing_is_inside(doc.nodes@, row, j);
            filled_cells_have_content(doc, j);
            assert(repeat_of(doc, j, "number-columns-repeated"@) is Ok);
            if is_filled(doc, j) {
                let n = repeat_of(doc, j, "number-columns-repeated"@)->Ok_0;
                let reached = (
                    larger(extent.0, rows(table)[row + 1]),
                    larger(extent.1, cols(row)[j] + n),
                );
                assert(fits(size.0, size.1));
                smaller_fits(reached.0, reached.1, size.0, size.1);
                cells_are_fine(doc, table, rows, cols, size, row, j + 1, reached);
            } else {
                cells_are_fine(doc, table, rows, cols, size, row, j + 1, extent);
            }
        } else {
            cells_are_fine(doc, table, rows, cols, size, row, j + 1, extent);
        }
    }
}

} // verus!
