//! That a native ODS save makes every edit.
use crate::a1::Address;
use crate::cells::before;
use crate::inside::{is_inside, nodes_end_where_nothing_is_inside};
use crate::made::holds;
use crate::ods::{is_cell_of, repeat_of};
use crate::ods_patch::{
    after_cols, after_rows, cell_markup, cells_named, cells_patches, edited_row, is_before_col,
    new_cell, patched_ods, repeated_markup, split_cell, split_row, string_attributes, table_patches,
    trailing_cells, value_paragraphs,
};
use crate::package::{OFFICE, TABLE};
use crate::scan::table_named;
use crate::tree::{end_of, is_tag};
use crate::xlsx::after_row;
use crate::xml::{patches_within, spliced, utf8, PatchView, Xml};
use vstd::prelude::*;

verus! {

/// The numbers of the rows at which the nodes of a table start: a row element stands for as
/// many rows as it is repeated.
pub open spec fn are_rows(doc: Xml, table: int, rows: Seq<int>) -> bool {
    let end = end_of(doc.nodes@, table);
    &&& rows.len() == end + 1
    &&& rows[table] == 0
    &&& forall|j: int|
        table <= j < end ==> #[trigger] rows[j + 1] == rows[j] + if is_tag(
            doc.nodes@[j],
            TABLE@,
            "table-row"@,
        ) && repeat_of(doc, j, "number-rows-repeated"@) is Ok {
            repeat_of(doc, j, "number-rows-repeated"@)->Ok_0 as int
        } else {
            0
        }
}

/// The numbers of the columns at which the nodes of a row element start.
pub open spec fn are_cols(doc: Xml, row: int, cols: Seq<int>) -> bool {
    let end = end_of(doc.nodes@, row);
    &&& cols.len() == end + 1
    &&& cols[row + 1] == 0
    &&& forall|j: int|
        row < j < end ==> #[trigger] cols[j + 1] == cols[j] + if is_cell_of(doc, row, j)
            && repeat_of(doc, j, "number-columns-repeated"@) is Ok {
            repeat_of(doc, j, "number-columns-repeated"@)->Ok_0 as int
        } else {
            0
        }
}

/// The entries are in the order of their cells.
pub open spec fn in_order(entries: Seq<(Address, String)>) -> bool {
    forall|i: int, j: int|
        0 <= i < j < entries.len() ==> before((#[trigger] entries[i]).0, (#[trigger] entries[j]).0)
}

/// The markup is a cell that holds the text, as its value and as what is shown.
pub open spec fn is_text_cell(markup: Seq<u8>, text: Seq<char>) -> bool {
    exists|a: Seq<u8>, b: Seq<u8>|
        {
            &&& markup == #[trigger] (a + utf8(value_paragraphs(text)) + b)
            &&& exists|declared: bool| holds(a, utf8(#[trigger] string_attributes(text, declared)))
        }
}

proof fn holds_in(whole: Seq<u8>, a: Seq<u8>, bytes: Seq<u8>, b: Seq<u8>, part: Seq<u8>)
    requires
        whole == a + bytes + b,
        holds(bytes, part),
    ensures
        holds(whole, part),
{
    let (x, y) = choose|x: Seq<u8>, y: Seq<u8>| bytes == #[trigger] (x + part + y);
    assert(whole =~= (a + x) + part + (y + b));
}

proof fn holds_itself(part: Seq<u8>)
    ensures
        holds(part, part),
{
    assert(part =~= Seq::<u8>::empty() + part + Seq::<u8>::empty());
}

/// A cell that is written holds its text.
proof fn written_cells_hold_their_text(
    doc: Xml,
    text: Seq<u8>,
    scopes: Seq<Option<String>>,
    j: int,
    value: Seq<char>,
)
    requires
        cell_markup(doc, text, scopes, j, value) is Ok,
    ensures
        is_text_cell(cell_markup(doc, text, scopes, j, value)->Ok_0, value),
{
    let declared = crate::sheet::text_view(scopes[j]) == Some(OFFICE@);
    let extra = utf8(string_attributes(value, declared));
    let remove = crate::ods_patch::value_attributes();
    let start = doc.tag_of(text, j, remove, extra)->Ok_0;
    let list = doc.attributes@[j]@;
    let from = doc.nodes@[j].start as int;
    let end = crate::tree::tag_close(text, doc.attributes_end(j));
    let tag = spliced(
        text.subrange(from, end),
        crate::tree::removals(list, remove, from, list.len() as int),
    )->Ok_0;
    let front = crate::tree::without_end_slashes(crate::tree::without_end_spaces(tag));
    assert(start == front + extra + seq![62u8]);
    assert(holds(start, extra));
    let rest = crate::ods_patch::other_children(doc, text, j, j + 1, end_of(doc.nodes@, j))
        + crate::xlsx::close_tag(doc.qualified_of(j, "table-cell"@));
    assert(cell_markup(doc, text, scopes, j, value)->Ok_0 =~= start + utf8(value_paragraphs(value))
        + rest);
}

/// What takes the place of a cell holds every edit of its columns.
proof fn split_cells_hold_every_edit(
    doc: Xml,
    text: Seq<u8>,
    scopes: Seq<Option<String>>,
    j: int,
    entries: Seq<(Address, String)>,
    k: int,
    row: u64,
    cursor: usize,
    to: usize,
    e: int,
) -> (markup: Seq<u8>)
    requires
        split_cell(doc, text, scopes, j, entries, k, row, cursor, to) is Ok,
        0 <= k <= e < after_cols(entries, k, row, to),
    ensures
        is_text_cell(markup, entries[e].1@),
        holds(split_cell(doc, text, scopes, j, entries, k, row, cursor, to)->Ok_0, markup),
    decreases entries.len() - k,
{
    let whole = split_cell(doc, text, scopes, j, entries, k, row, cursor, to)->Ok_0;
    let col = entries[k].0.1;
    let next = (col + 1) as usize;
    let name = "number-columns-repeated"@;
    let count = crate::ods_patch::distance(cursor as int, col as int);
    let gap = repeated_markup(doc, text, j, name, count, None)->Ok_0;
    let cell = cell_markup(doc, text, scopes, j, entries[k].1@)->Ok_0;
    let rest = split_cell(doc, text, scopes, j, entries, k + 1, row, next, to)->Ok_0;
    assert(whole == gap + cell + rest);
    if e == k {
        written_cells_hold_their_text(doc, text, scopes, j, entries[k].1@);
        cell
    } else {
        let markup = split_cells_hold_every_edit(
            doc,
            text,
            scopes,
            j,
            entries,
            k + 1,
            row,
            next,
            to,
            e,
        );
        assert(whole =~= (gap + cell) + rest + Seq::<u8>::empty());
        holds_in(whole, gap + cell, rest, Seq::empty(), markup);
        markup
    }
}

/// The bytes of two texts one after the other are the bytes of both as one.
pub proof fn utf8_joins(a: Seq<char>, b: Seq<char>)
    ensures
        utf8(a + b) == utf8(a) + utf8(b),
    decreases a.len(),
{
    if a.len() == 0 {
        assert(a + b =~= b);
        assert(utf8(a) + utf8(b) =~= utf8(b));
    } else {
        utf8_joins(a.drop_first(), b);
        assert((a + b).drop_first() =~= a.drop_first() + b);
        assert((a + b)[0] == a[0]);
        assert(utf8(a + b) =~= utf8(a) + utf8(b));
    }
}

/// A new cell holds its text.
proof fn new_cells_hold_their_text(value: Seq<char>)
    ensures
        is_text_cell(utf8(new_cell(value)), value),
{
    let start = "<table:table-cell xmlns:table=\""@ + TABLE@ + "\""@;
    let attributes = string_attributes(value, false);
    let shown = value_paragraphs(value);
    let end = "</table:table-cell>"@;
    assert(new_cell(value) =~= (start + attributes + ">"@) + shown + end);
    utf8_joins((start + attributes + ">"@) + shown, end);
    utf8_joins(start + attributes + ">"@, shown);
    utf8_joins(start + attributes, ">"@);
    utf8_joins(start, attributes);
    let a = utf8(start + attributes + ">"@);
    assert(a =~= utf8(start) + utf8(attributes) + utf8(">"@));
    assert(holds(a, utf8(attributes)));
    assert(utf8(new_cell(value)) =~= a + utf8(shown) + utf8(end));
}

/// Cells that follow those of a row hold every edit they are of.
proof fn trailing_cells_hold_every_edit(
    entries: Seq<(Address, String)>,
    k: int,
    number: u64,
    col: usize,
    e: int,
) -> (markup: Seq<u8>)
    requires
        0 <= k <= e < after_row(entries, number, k),
    ensures
        is_text_cell(markup, entries[e].1@),
        holds(utf8(trailing_cells(entries, k, number, col)), markup),
    decreases entries.len() - k,
{
    let at = entries[k].0.1;
    let whole = trailing_cells(entries, k, number, col);
    let cell = new_cell(entries[k].1@);
    let rest = trailing_cells(entries, k + 1, number, (at + 1) as usize);
    let gap = whole.take(whole.len() - cell.len() - rest.len());
    assert(whole =~= gap + cell + rest);
    utf8_joins(gap + cell, rest);
    utf8_joins(gap, cell);
    assert(utf8(whole) == utf8(gap) + utf8(cell) + utf8(rest));
    if e == k {
        new_cells_hold_their_text(entries[k].1@);
        utf8(cell)
    } else {
        let markup = trailing_cells_hold_every_edit(entries, k + 1, number, (at + 1) as usize, e);
        assert(utf8(whole) =~= (utf8(gap) + utf8(cell)) + utf8(rest) + Seq::<u8>::empty());
        holds_in(utf8(whole), utf8(gap) + utf8(cell), utf8(rest), Seq::empty(), markup);
        markup
    }
}

/// The patches of the cells of a row make every edit before the entry they leave off at, in
/// the cell over whose columns it is; what is left is past the columns of the row.
proof fn cells_make_every_edit(
    doc: Xml,
    text: Seq<u8>,
    scopes: Seq<Option<String>>,
    row: int,
    j: int,
    cols: Seq<int>,
    entries: Seq<(Address, String)>,
    k: int,
    number: u64,
    e: int,
) -> (r: (int, int))
    requires
        0 <= row < j <= end_of(doc.nodes@, row) <= doc.nodes@.len(),
        are_cols(doc, row, cols),
        0 <= cols[j] <= usize::MAX,
        in_order(entries),
        cells_named(entries),
        0 <= k <= entries.len(),
        k < entries.len() && entries[k].0.0 == number ==> entries[k].0.1 >= cols[j],
        cells_patches(
            doc,
            text,
            scopes,
            row,
            j,
            end_of(doc.nodes@, row),
            entries,
            k,
            number,
            cols[j] as usize,
        ) is Ok,
    ensures
        ({
            let end = end_of(doc.nodes@, row);
            let view = cells_patches(
                doc,
                text,
                scopes,
                row,
                j,
                end,
                entries,
                k,
                number,
                cols[j] as usize,
            )->Ok_0;
            &&& k <= view.k <= entries.len()
            &&& view.col == cols[end]
            &&& view.k < entries.len() && entries[view.k].0.0 == number ==> entries[view.k].0.1
                >= view.col
            &&& k <= e < view.k ==> {
                let (n, i) = r;
                &&& entries[e].0.0 == number
                &&& j <= n < end && is_cell_of(doc, row, n)
                &&& cols[n] <= entries[e].0.1 < cols[n + 1]
                &&& 0 <= i < view.patches.len()
                &&& view.patches[i].start == doc.nodes@[n].start - doc.nodes@[row].start
                &&& view.patches[i].end == doc.nodes@[n].end - doc.nodes@[row].start
                &&& exists|markup: Seq<u8>| #[trigger]
                    is_text_cell(markup, entries[e].1@) && holds(view.patches[i].bytes, markup)
            }
        }),
    decreases end_of(doc.nodes@, row) - j,
{
    let end = end_of(doc.nodes@, row);
    let col = cols[j] as usize;
    let view = cells_patches(doc, text, scopes, row, j, end, entries, k, number, col)->Ok_0;
    if j >= end {
        (0, 0)
    } else if !is_cell_of(doc, row, j) {
        assert(cols[j + 1] == cols[j]);
        cells_make_every_edit(doc, text, scopes, row, j + 1, cols, entries, k, number, e)
    } else {
        let next = crate::scan::next_col(doc, j, col)->Ok_0;
        assert(cols[j + 1] == next);
        if !is_before_col(entries, k, number, next) {
            cells_make_every_edit(doc, text, scopes, row, j + 1, cols, entries, k, number, e)
        } else {
            let after = after_cols(entries, k, number, next);
            cols_end(entries, k, number, next, e);
            let bytes = split_cell(doc, text, scopes, j, entries, k, number, col, next)->Ok_0;
            let (n, i) = cells_make_every_edit(
                doc,
                text,
                scopes,
                row,
                j + 1,
                cols,
                entries,
                after,
                number,
                e,
            );
            let rest = cells_patches(
                doc,
                text,
                scopes,
                row,
                j + 1,
                end,
                entries,
                after,
                number,
                next,
            )->Ok_0;
            if k <= e < after {
                if e > k {
                    assert(before(entries[k].0, entries[e].0));
                }
                let markup = split_cells_hold_every_edit(
                    doc,
                    text,
                    scopes,
                    j,
                    entries,
                    k,
                    number,
                    col,
                    next,
                    e,
                );
                assert(view.patches[0].bytes == bytes);
                assert(is_text_cell(markup, entries[e].1@) && holds(view.patches[0].bytes, markup));
                (j, 0)
            } else {
                if after <= e < view.k {
                    assert(view.patches[i + 1] == rest.patches[i]);
                }
                (n, i + 1)
            }
        }
    }
}

/// The entries up to a column are of it, and the next is not.
proof fn cols_end(entries: Seq<(Address, String)>, k: int, row: u64, to: usize, e: int)
    requires
        0 <= k <= entries.len(),
    ensures
        k <= after_cols(entries, k, row, to) <= entries.len(),
        k <= e < after_cols(entries, k, row, to) ==> is_before_col(entries, e, row, to),
        !is_before_col(entries, after_cols(entries, k, row, to), row, to),
    decreases entries.len() - k,
{
    if is_before_col(entries, k, row, to) {
        cols_end(entries, k + 1, row, to, e);
    }
}

/// The entries of a row end where they end, from whichever of them on.
proof fn rows_end_together(entries: Seq<(Address, String)>, number: u64, k: int, m: int)
    requires
        0 <= k <= m <= after_row(entries, number, k),
        k <= entries.len(),
    ensures
        after_row(entries, number, m) == after_row(entries, number, k),
    decreases m - k,
{
    if k < m {
        rows_end_together(entries, number, k + 1, m);
    }
}

/// Where the entries of a row end, entry `m` is of it exactly before.
proof fn entries_of_a_row(entries: Seq<(Address, String)>, number: u64, k: int, m: int)
    requires
        0 <= k <= m <= entries.len(),
        forall|i: int| k <= i < m ==> (#[trigger] entries[i]).0.0 == number,
    ensures
        m <= after_row(entries, number, k),
    decreases m - k,
{
    crate::xlsx::after_row_goes_on(entries, number, k);
    if k < m {
        assert(entries[k].0.0 == number);
        entries_of_a_row(entries, number, k + 1, m);
    }
}

/// The patches of the cells of a row lie within it.
proof fn cells_lie_within(
    doc: Xml,
    text: Seq<u8>,
    scopes: Seq<Option<String>>,
    row: int,
    j: int,
    end: int,
    entries: Seq<(Address, String)>,
    k: int,
    number: u64,
    col: usize,
)
    requires
        doc.wf(text.len() as int),
        0 <= row < doc.nodes@.len(),
        0 <= j,
        end <= doc.nodes@.len(),
    ensures
        cells_patches(doc, text, scopes, row, j, end, entries, k, number, col) matches Ok(view)
            ==> patches_within(view.patches, doc.nodes@[row].end - doc.nodes@[row].start),
    decreases end - j,
{
    let width = doc.nodes@[row].end - doc.nodes@[row].start;
    if let Ok(view) = cells_patches(doc, text, scopes, row, j, end, entries, k, number, col) {
        if j < end {
            if !is_cell_of(doc, row, j) {
                cells_lie_within(doc, text, scopes, row, j + 1, end, entries, k, number, col);
            } else {
                let next = crate::scan::next_col(doc, j, col)->Ok_0;
                if !is_before_col(entries, k, number, next) {
                    cells_lie_within(doc, text, scopes, row, j + 1, end, entries, k, number, next);
                } else {
                    let after = after_cols(entries, k, number, next);
                    cells_lie_within(
                        doc,
                        text,
                        scopes,
                        row,
                        j + 1,
                        end,
                        entries,
                        after,
                        number,
                        next,
                    );
                    let rest = cells_patches(
                        doc,
                        text,
                        scopes,
                        row,
                        j + 1,
                        end,
                        entries,
                        after,
                        number,
                        next,
                    )->Ok_0;
                    assert(doc.nodes@[j].parent is Some);
                    assert(doc.nodes@[j].start <= doc.nodes@[j].end);
                    assert forall|i: int| 0 <= i < view.patches.len() implies 0 <= (
                    #[trigger] view.patches[i]).start <= view.patches[i].end <= width by {
                        if i > 0 {
                            assert(view.patches[i] == rest.patches[i - 1]);
                        }
                    }
                }
            }
        }
    }
}

/// One row of its own that takes the place of a repeated one holds every edit of the row:
/// what follows the stored cells is put in as a whole, and all else holds the others. A row
/// that is written as empty has no cells.
pub proof fn edited_rows_hold_every_edit(
    doc: Xml,
    text: Seq<u8>,
    scopes: Seq<Option<String>>,
    row: int,
    cols: Seq<int>,
    entries: Seq<(Address, String)>,
    k: int,
    number: u64,
    e: int,
)
    requires
        doc.wf(text.len() as int),
        0 <= row < doc.nodes@.len(),
        are_cols(doc, row, cols),
        in_order(entries),
        cells_named(entries),
        edited_row(doc, text, scopes, row, entries, k, number) is Ok,
        0 <= k <= e < after_row(entries, number, k),
        crate::tree::is_empty_element(
            text,
            doc.nodes@[row].start as int,
            doc.nodes@[row].end as int,
        ) ==> forall|j: int| row < j < end_of(doc.nodes@, row) ==> !is_cell_of(doc, row, j),
    ensures
        exists|x: Seq<u8>, extra: Seq<u8>, y: Seq<u8>, markup: Seq<u8>|
            {
                &&& edited_row(doc, text, scopes, row, entries, k, number)->Ok_0
                    == #[trigger] (x + extra + y)
                &&& #[trigger] is_text_cell(markup, entries[e].1@)
                &&& holds(extra, markup) || holds(x + y, markup)
            },
{
    let end = end_of(doc.nodes@, row);
    nodes_end_where_nothing_is_inside(doc.nodes@, row, row + 1);
    let node = doc.nodes@[row];
    let bytes = edited_row(doc, text, scopes, row, entries, k, number)->Ok_0;
    let view = cells_patches(doc, text, scopes, row, row + 1, end, entries, k, number, 0)->Ok_0;
    crate::xlsx::after_row_goes_on(entries, number, k);
    let (n, i) = cells_make_every_edit(
        doc,
        text,
        scopes,
        row,
        row + 1,
        cols,
        entries,
        k,
        number,
        e,
    );
    let extra = utf8(trailing_cells(entries, view.k, number, view.col));
    let none = Seq::<u8>::empty();
    if e >= view.k {
        assert forall|m: int| k <= m < view.k implies (#[trigger] entries[m]).0.0 == number by {
            entry_is_of_the_row(entries, number, k, m);
        }
        entries_of_a_row(entries, number, k, view.k);
        rows_end_together(entries, number, k, view.k);
        let markup = trailing_cells_hold_every_edit(entries, view.k, number, view.col, e);
        let (x, y) = choose|x: Seq<u8>, y: Seq<u8>| extra == #[trigger] (x + markup + y);
        if extra.len() == 0 {
            // The paragraphs of a text are never empty, nor is what holds them.
            paragraphs_are_some(entries[e].1@);
            let (a, b) = choose|a: Seq<u8>, b: Seq<u8>|
                markup == #[trigger] (a + utf8(value_paragraphs(entries[e].1@)) + b);
            assert(extra.len() == x.len() + markup.len() + y.len());
            assert(false);
        }
        if crate::tree::is_empty_element(text, node.start as int, node.end as int) {
            let name = "number-rows-repeated"@;
            let start = crate::ods_patch::repeated_tag(doc, text, row, name, 1)->Ok_0;
            let close = crate::xlsx::close_tag(doc.qualified_of(row, node.name@));
            assert(bytes == start + extra + close);
        } else {
            let all = spliced(
                text.subrange(node.start as int, node.end as int),
                view.patches + crate::ods_patch::single_row(doc, row),
            )->Ok_0;
            let at = crate::tree::last_end_tag(all, 0, all.len() as int)->0;
            assert(bytes == all.take(at) + extra + all.skip(at));
        }
    } else {
        let single = crate::ods_patch::single_row(doc, row);
        let list = view.patches + single;
        let source = text.subrange(node.start as int, node.end as int);
        assert(node.start <= node.end);
        if crate::tree::is_empty_element(text, node.start as int, node.end as int) {
            assert(!is_cell_of(doc, row, n));
            assert(false);
        }
        let all = spliced(source, list)->Ok_0;
        cells_lie_within(doc, text, scopes, row, row + 1, end, entries, k, number, 0);
        assert forall|p: int| 0 <= p < list.len() implies 0 <= (#[trigger] list[p]).start
            <= list[p].end <= source.len() by {
            if p < view.patches.len() {
                assert(list[p] == view.patches[p]);
            } else {
                assert(list[p] == single[0]);
                let attributes = doc.attributes@[row]@;
                let name = "number-rows-repeated"@;
                let a = crate::tree::full_attribute(attributes, TABLE@, name)->0;
                let l = found_full(attributes, TABLE@, name);
                assert(doc.attributes@[row]@[l] == a);
            }
        }
        let (a, b) = crate::placed::patches_stand_in_the_result(source, list, i);
        assert(list[i] == view.patches[i]);
        let markup = choose|markup: Seq<u8>| #[trigger]
            is_text_cell(markup, entries[e].1@) && holds(view.patches[i].bytes, markup);
        holds_in(all, a, list[i].bytes, b, markup);
        if extra.len() == 0 {
            assert(bytes =~= all + none + none);
            assert(all + none =~= all);
            assert(holds(all + none, markup));
        } else {
            let at = crate::tree::last_end_tag(all, 0, all.len() as int)->0;
            crate::made::end_tag_is_between(all, 0, all.len() as int);
            assert(bytes == all.take(at) + extra + all.skip(at));
            assert(all.take(at) + all.skip(at) =~= all);
            assert(holds(all.take(at) + all.skip(at), markup));
        }
    }
}

proof fn entry_is_of_the_row(entries: Seq<(Address, String)>, number: u64, k: int, m: int)
    requires
        0 <= k <= m,
        m < after_row(entries, number, k),
        k <= entries.len(),
    ensures
        entries[m].0.0 == number,
    decreases m - k,
{
    crate::xlsx::after_row_goes_on(entries, number, k);
    if k < m {
        entry_is_of_the_row(entries, number, k + 1, m);
    }
}

proof fn found_full(
    list: Seq<crate::xml::XmlAttribute>,
    namespace: Seq<char>,
    name: Seq<char>,
) -> (l: int)
    requires
        crate::tree::full_attribute(list, namespace, name) is Some,
    ensures
        0 <= l < list.len(),
        crate::tree::full_attribute(list, namespace, name) == Some(list[l]),
    decreases list.len(),
{
    if list[0].name@ == name && crate::sheet::text_view(list[0].namespace) == Some(namespace) {
        0
    } else {
        let l = found_full(list.skip(1), namespace, name);
        l + 1
    }
}

/// The paragraphs of a text are never empty.
proof fn paragraphs_are_some(value: Seq<char>)
    ensures
        utf8(value_paragraphs(value)).len() > 0,
{
    let lines = crate::text::parts(value, '\n');
    crate::text::parts_are_some(value, '\n');
    reveal_strlit("</text:p>");
    let shown = value_paragraphs(value);
    assert(shown.len() > 0);
    assert(utf8(shown) == vstd::utf8::encode_scalar(shown[0] as u32) + utf8(shown.drop_first()));
    vstd::utf8::encode_utf8_first_scalar(shown);
}

/// The entries of the rows before a row, and the next, which is not.
proof fn rows_end(entries: Seq<(Address, String)>, k: int, to: u64, e: int)
    requires
        0 <= k <= entries.len(),
    ensures
        k <= after_rows(entries, k, to) <= entries.len(),
        k <= e < after_rows(entries, k, to) ==> entries[e].0.0 < to,
        after_rows(entries, k, to) < entries.len() ==> entries[after_rows(entries, k, to)].0.0
            >= to,
    decreases entries.len() - k,
{
    if k < entries.len() && entries[k].0.0 < to {
        rows_end(entries, k + 1, to, e);
    }
}

/// What takes the place of a row element holds a row of its own for the row of every edit.
proof fn split_rows_hold_every_row(
    doc: Xml,
    text: Seq<u8>,
    scopes: Seq<Option<String>>,
    j: int,
    entries: Seq<(Address, String)>,
    k: int,
    cursor: u64,
    to: u64,
    e: int,
) -> (first: int)
    requires
        split_row(doc, text, scopes, j, entries, k, cursor, to) is Ok,
        0 <= k <= e < after_rows(entries, k, to),
        k <= entries.len(),
    ensures
        k <= first <= e < after_row(entries, entries[first].0.0, first),
        entries[first].0.0 == entries[e].0.0,
        edited_row(doc, text, scopes, j, entries, first, entries[first].0.0) is Ok,
        holds(
            split_row(doc, text, scopes, j, entries, k, cursor, to)->Ok_0,
            edited_row(doc, text, scopes, j, entries, first, entries[first].0.0)->Ok_0,
        ),
    decreases entries.len() - k,
{
    let number = entries[k].0.0;
    let next = after_row(entries, number, k + 1);
    rows_end(entries, k, to, e);
    crate::xlsx::after_row_goes_on(entries, number, k + 1);
    let whole = split_row(doc, text, scopes, j, entries, k, cursor, to)->Ok_0;
    let count = crate::ods_patch::distance(cursor as int, number as int);
    let gap = repeated_markup(doc, text, j, "number-rows-repeated"@, count, None)->Ok_0;
    let row = edited_row(doc, text, scopes, j, entries, k, number)->Ok_0;
    let rest = split_row(doc, text, scopes, j, entries, next, (number + 1) as u64, to)->Ok_0;
    assert(whole == gap + row + rest);
    if e < next {
        assert(after_row(entries, number, k) == next);
        entry_is_of_the_row(entries, number, k, e);
        k
    } else {
        skips_rows(entries, number, k + 1, to);
        let first = split_rows_hold_every_row(
            doc,
            text,
            scopes,
            j,
            entries,
            next,
            (number + 1) as u64,
            to,
            e,
        );
        assert(whole =~= (gap + row) + rest + Seq::<u8>::empty());
        holds_in(
            whole,
            gap + row,
            rest,
            Seq::empty(),
            edited_row(doc, text, scopes, j, entries, first, entries[first].0.0)->Ok_0,
        );
        first
    }
}

proof fn skips_rows(entries: Seq<(Address, String)>, number: u64, k: int, to: u64)
    requires
        k <= entries.len(),
        number < to,
    ensures
        after_rows(entries, k, to) == after_rows(entries, after_row(entries, number, k), to),
    decreases entries.len() - k,
{
    if k < entries.len() && entries[k].0.0 == number {
        skips_rows(entries, number, k + 1, to);
    }
}

/// The patch takes the place of row element `n`, over whose rows the edit is, and holds a row
/// of its own that has the edit.
pub open spec fn makes_in_row(
    doc: Xml,
    text: Seq<u8>,
    scopes: Seq<Option<String>>,
    rows: Seq<int>,
    n: int,
    patch: PatchView,
    entries: Seq<(Address, String)>,
    e: int,
    first: int,
) -> bool {
    &&& is_tag(doc.nodes@[n], TABLE@, "table-row"@)
    &&& rows[n] <= entries[e].0.0 < rows[n + 1]
    &&& patch.start == doc.nodes@[n].start
    &&& patch.end == doc.nodes@[n].end
    &&& 0 <= first <= e < after_row(entries, entries[first].0.0, first)
    &&& entries[first].0.0 == entries[e].0.0
    &&& edited_row(doc, text, scopes, n, entries, first, entries[first].0.0) matches Ok(bytes)
        && holds(patch.bytes, bytes)
}

proof fn tables_make_every_edit(
    doc: Xml,
    text: Seq<u8>,
    scopes: Seq<Option<String>>,
    table: int,
    rows: Seq<int>,
    j: int,
    entries: Seq<(Address, String)>,
    k: int,
    e: int,
)
    requires
        0 <= table <= j <= end_of(doc.nodes@, table) <= doc.nodes@.len(),
        are_rows(doc, table, rows),
        0 <= rows[j] <= u64::MAX,
        in_order(entries),
        0 <= k <= entries.len(),
        k < entries.len() ==> entries[k].0.0 >= rows[j],
        table_patches(
            doc,
            text,
            scopes,
            j,
            end_of(doc.nodes@, table),
            entries,
            k,
            rows[j] as u64,
        ) is Ok,
    ensures
        ({
            let (list, last) = table_patches(
                doc,
                text,
                scopes,
                j,
                end_of(doc.nodes@, table),
                entries,
                k,
                rows[j] as u64,
            )->Ok_0;
            &&& k <= last <= entries.len()
            &&& k <= e < last ==> exists|n: int, i: int, first: int|
                {
                    &&& j <= n < end_of(doc.nodes@, table)
                    &&& 0 <= i < list.len()
                    &&& #[trigger] makes_in_row(
                        doc,
                        text,
                        scopes,
                        rows,
                        n,
                        list[i],
                        entries,
                        e,
                        first,
                    )
                }
        }),
    decreases end_of(doc.nodes@, table) - j,
{
    let end = end_of(doc.nodes@, table);
    let row = rows[j] as u64;
    let (list, last) = table_patches(doc, text, scopes, j, end, entries, k, row)->Ok_0;
    if j < end {
        if !is_tag(doc.nodes@[j], TABLE@, "table-row"@) {
            assert(rows[j + 1] == rows[j]);
            tables_make_every_edit(doc, text, scopes, table, rows, j + 1, entries, k, e);
        } else {
            let next = crate::scan::next_row(doc, j, row)->Ok_0;
            assert(rows[j + 1] == next);
            if k >= entries.len() || entries[k].0.0 >= next {
                tables_make_every_edit(doc, text, scopes, table, rows, j + 1, entries, k, e);
            } else {
                let after = after_rows(entries, k, next);
                rows_end(entries, k, next, e);
                tables_make_every_edit(doc, text, scopes, table, rows, j + 1, entries, after, e);
                let (rest, _) = table_patches(
                    doc,
                    text,
                    scopes,
                    j + 1,
                    end,
                    entries,
                    after,
                    next,
                )->Ok_0;
                if k <= e < after {
                    if k < e {
                        assert(before(entries[k].0, entries[e].0));
                    }
                    let first = split_rows_hold_every_row(
                        doc,
                        text,
                        scopes,
                        j,
                        entries,
                        k,
                        row,
                        next,
                        e,
                    );
                    assert(makes_in_row(doc, text, scopes, rows, j, list[0], entries, e, first));
                } else if after <= e < last {
                    let (n, i, first) = choose|n: int, i: int, first: int|
                        {
                            &&& j + 1 <= n < end
                            &&& 0 <= i < rest.len()
                            &&& #[trigger] makes_in_row(
                                doc,
                                text,
                                scopes,
                                rows,
                                n,
                                rest[i],
                                entries,
                                e,
                                first,
                            )
                        };
                    assert(list[i + 1] == rest[i]);
                    assert(makes_in_row(
                        doc,
                        text,
                        scopes,
                        rows,
                        n,
                        list[i + 1],
                        entries,
                        e,
                        first,
                    ));
                }
            }
        }
    }
}

proof fn tables_lie_within(
    doc: Xml,
    text: Seq<u8>,
    scopes: Seq<Option<String>>,
    j: int,
    end: int,
    entries: Seq<(Address, String)>,
    k: int,
    row: u64,
)
    requires
        doc.wf(text.len() as int),
        0 <= j,
        end <= doc.nodes@.len(),
    ensures
        table_patches(doc, text, scopes, j, end, entries, k, row) matches Ok((list, _))
            ==> patches_within(list, text.len() as int),
    decreases end - j,
{
    if let Ok((list, _)) = table_patches(doc, text, scopes, j, end, entries, k, row) {
        if j < end {
            if !is_tag(doc.nodes@[j], TABLE@, "table-row"@) {
                tables_lie_within(doc, text, scopes, j + 1, end, entries, k, row);
            } else {
                let next = crate::scan::next_row(doc, j, row)->Ok_0;
                if k >= entries.len() || entries[k].0.0 >= next {
                    tables_lie_within(doc, text, scopes, j + 1, end, entries, k, next);
                } else {
                    let after = after_rows(entries, k, next);
                    tables_lie_within(doc, text, scopes, j + 1, end, entries, after, next);
                    let (rest, _) = table_patches(
                        doc,
                        text,
                        scopes,
                        j + 1,
                        end,
                        entries,
                        after,
                        next,
                    )->Ok_0;
                    assert(doc.nodes@[j].start <= doc.nodes@[j].end);
                    assert forall|i: int| 0 <= i < list.len() implies 0 <= (
                    #[trigger] list[i]).start <= list[i].end <= text.len() by {
                        if i > 0 {
                            assert(list[i] == rest[i - 1]);
                        }
                    }
                }
            }
        }
    }
}

/// A native ODS save makes every edit: for each of them the content part that is written holds,
/// in place of the row element over whose rows the edit is, a row of its own that has the
/// edit.
pub proof fn every_ods_edit_is_made(
    doc: Xml,
    text: Seq<u8>,
    scopes: Seq<Option<String>>,
    name: Seq<char>,
    table: int,
    rows: Seq<int>,
    entries: Seq<(Address, String)>,
    e: int,
)
    requires
        doc.wf(text.len() as int),
        in_order(entries),
        table == table_named(doc, name, 0),
        are_rows(doc, table, rows),
        patched_ods(doc, text, scopes, name, entries) is Ok,
        0 <= e < entries.len(),
    ensures
        exists|n: int, patch: PatchView, first: int|
            {
                &&& is_inside(doc.nodes@, table, n)
                &&& #[trigger] makes_in_row(
                    doc,
                    text,
                    scopes,
                    rows,
                    n,
                    patch,
                    entries,
                    e,
                    first,
                )
                &&& holds(patched_ods(doc, text, scopes, name, entries)->Ok_0, patch.bytes)
            },
{
    let end = end_of(doc.nodes@, table);
    table_is_the_first(doc, name, 0);
    nodes_end_where_nothing_is_inside(doc.nodes@, table, table + 1);
    tables_make_every_edit(doc, text, scopes, table, rows, table, entries, 0, e);
    let (list, last) = table_patches(doc, text, scopes, table, end, entries, 0, 0)->Ok_0;
    let (n, i, first) = choose|n: int, i: int, first: int|
        {
            &&& table <= n < end
            &&& 0 <= i < list.len()
            &&& #[trigger] makes_in_row(
                doc,
                text,
                scopes,
                rows,
                n,
                list[i],
                entries,
                e,
                first,
            )
        };
    nodes_end_where_nothing_is_inside(doc.nodes@, table, n);
    if n == table {
        reveal_strlit("table");
        reveal_strlit("table-row");
        assert("table"@.len() == 5 && "table-row"@.len() == 9);
    }
    tables_lie_within(doc, text, scopes, table, end, entries, 0, 0);
    let (a, b) = crate::placed::patches_stand_in_the_result(text, list, i);
    let patch = list[i];
    assert(patched_ods(doc, text, scopes, name, entries)->Ok_0 == a + patch.bytes + b);
    assert(makes_in_row(doc, text, scopes, rows, n, patch, entries, e, first));
}

/// The table of a name is the first that has it.
pub proof fn table_is_the_first(doc: Xml, name: Seq<char>, i: int)
    requires
        0 <= i <= doc.nodes@.len(),
    ensures
        ({
            let n = table_named(doc, name, i);
            &&& i <= n <= doc.nodes@.len()
            &&& n < doc.nodes@.len() ==> crate::opened::is_table(doc.nodes@[n])
                && crate::inside::holds_value_in(doc.attributes@[n]@, TABLE@, "name"@, name)
            &&& forall|m: int|
                i <= m < n ==> !(crate::opened::is_table(#[trigger] doc.nodes@[m])
                    && crate::inside::holds_value_in(doc.attributes@[m]@, TABLE@, "name"@, name))
        }),
    decreases doc.nodes@.len() - i,
{
    if i < doc.nodes@.len() {
        crate::inside::values_are_of_the_first_full_attribute(doc, i, TABLE@, "name"@, name);
        let here = is_tag(doc.nodes@[i], TABLE@, "table"@) && crate::tree::value_in(
            doc,
            i,
            TABLE@,
            "name"@,
        ) == Some(name);
        assert(is_tag(doc.nodes@[i], TABLE@, "table"@) == crate::opened::is_table(doc.nodes@[i]));
        if !here {
            table_is_the_first(doc, name, i + 1);
        }
    }
}

/// A character of a paragraph: spaces and tabs are elements, and what is markup is escaped.
pub open spec fn in_paragraph(c: char) -> Seq<char> {
    if c == ' ' {
        "<text:s/>"@
    } else if c == '\t' {
        "<text:tab/>"@
    } else {
        crate::xlsx::escaped(seq![c])
    }
}

/// The content of a paragraph goes character by character.
pub proof fn paragraphs_go_by_characters(a: Seq<char>, b: Seq<char>, c: char)
    ensures
        crate::ods_patch::paragraph_text(a + b) == crate::ods_patch::paragraph_text(a)
            + crate::ods_patch::paragraph_text(b),
        crate::ods_patch::paragraph_text(seq![c]) == in_paragraph(c),
    decreases b.len(),
{
    if b.len() == 0 {
        assert(a + b =~= a);
        assert(crate::ods_patch::paragraph_text(a) + Seq::<char>::empty()
            =~= crate::ods_patch::paragraph_text(a));
    } else {
        paragraphs_go_by_characters(a, b.drop_last(), c);
        assert((a + b).drop_last() =~= a + b.drop_last());
        assert(crate::ods_patch::paragraph_text(a + b) =~= crate::ods_patch::paragraph_text(a)
            + crate::ods_patch::paragraph_text(b));
    }
    let one = seq![c];
    assert(one.drop_last() =~= Seq::<char>::empty());
    assert(crate::ods_patch::paragraph_text(one.drop_last()) =~= Seq::<char>::empty());
    assert(crate::xlsx::escaped(one.drop_last()) =~= Seq::<char>::empty());
    assert(crate::ods_patch::paragraph_text(one) =~= crate::ods_patch::paragraph_char(c));
    assert(crate::xlsx::escaped(one) =~= crate::xlsx::escaped_char(c));
}

/// Every line of a text is a paragraph of its own.
pub proof fn every_line_is_a_paragraph(text: Seq<char>, line: Seq<char>)
    requires
        forall|i: int| 0 <= i < line.len() ==> #[trigger] line[i] != '\n',
    ensures
        value_paragraphs(line) == "<text:p xmlns:text=\""@ + crate::package::TEXT@ + "\">"@
            + crate::ods_patch::paragraph_text(line) + "</text:p>"@,
        value_paragraphs(text + seq!['\n'] + line) == value_paragraphs(text) + value_paragraphs(
            line,
        ),
{
    let all = crate::text::parts(text + seq!['\n'] + line, '\n');
    let lines = crate::text::parts(text, '\n');
    crate::text::parts_go_on(text, '\n', line);
    crate::text::first_of_is(line, '\n', line.len() as int);
    let one = crate::text::parts(line, '\n');
    assert(one =~= seq![line]);
    let paragraph = "<text:p xmlns:text=\""@ + crate::package::TEXT@ + "\">"@
        + crate::ods_patch::paragraph_text(line) + "</text:p>"@;
    let none = Seq::<char>::empty();
    assert(crate::ods_patch::paragraphs_of(one, 0) == none);
    assert(value_paragraphs(line) =~= none + paragraph);
    assert(none + paragraph =~= paragraph);
    same_lines(all, lines, lines.len() as int);
    assert(value_paragraphs(text + seq!['\n'] + line) =~= value_paragraphs(text) + paragraph);
}

proof fn same_lines(a: Seq<Seq<char>>, b: Seq<Seq<char>>, n: int)
    requires
        0 <= n <= b.len() <= a.len(),
        forall|i: int| 0 <= i < b.len() ==> a[i] == #[trigger] b[i],
    ensures
        crate::ods_patch::paragraphs_of(a, n) == crate::ods_patch::paragraphs_of(b, n),
    decreases n,
{
    if n > 0 {
        same_lines(a, b, n - 1);
    }
}

} // verus!
