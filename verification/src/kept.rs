//! What native saves leave as it is.
use crate::a1::Address;
use crate::cells::Cells;
use crate::error::Error;
use crate::ods::repeat_of;
use crate::ods_patch::{after_rows, patched_ods, table_patches};
use crate::package::TABLE;
use crate::scan::{next_row, table_named};
use crate::tree::is_tag;
use crate::xlsx::{
    after_row, cell_address, cell_with, dimension_patches, first_named, first_of_row,
    missing_patches, one_row, patched_xlsx, row_number, row_patches, rows_patches, xlsx_patches,
};
use crate::xml::{arranged, inserted, patches_within, spliced, spliced_from, PatchView, Xml};
use vstd::prelude::*;

verus! {

/// The patch covers this place.
pub open spec fn covers(patch: PatchView, p: int) -> bool {
    patch.start <= p < patch.end
}

/// How far the patches before a place move what stands there.
pub open spec fn shift(list: Seq<PatchView>, p: int) -> int
    decreases list.len(),
{
    if list.len() == 0 {
        0
    } else {
        shift(list.skip(1), p) + if list[0].end <= p {
            list[0].bytes.len() - (list[0].end - list[0].start)
        } else {
            0
        }
    }
}

/// Patches that splice start no earlier than where the text goes on.
proof fn splice_goes_on(text: Seq<u8>, list: Seq<PatchView>, cursor: int)
    requires
        spliced_from(text, list, cursor) is Ok,
        patches_within(list, text.len() as int),
    ensures
        forall|i: int| 0 <= i < list.len() ==> (#[trigger] list[i]).start >= cursor,
    decreases list.len(),
{
    if list.len() > 0 {
        let rest = list.skip(1);
        assert(patches_within(rest, text.len() as int)) by {
            assert forall|i: int| 0 <= i < rest.len() implies 0 <= (#[trigger] rest[i]).start
                <= rest[i].end <= text.len() by {
                assert(list[i + 1].start <= list[i + 1].end);
            }
        }
        splice_goes_on(text, rest, list[0].end);
        assert(list[0].start <= list[0].end);
        assert forall|i: int| 0 <= i < list.len() implies (#[trigger] list[i]).start >= cursor by {
            if i > 0 {
                assert(rest[i - 1] == list[i]);
            }
        }
    }
}

/// Patches that start after a place do not move it.
proof fn later_patches_do_not_shift(list: Seq<PatchView>, p: int)
    requires
        forall|i: int| 0 <= i < list.len() ==> (#[trigger] list[i]).end > p,
    ensures
        shift(list, p) == 0,
    decreases list.len(),
{
    if list.len() > 0 {
        let rest = list.skip(1);
        assert forall|i: int| 0 <= i < rest.len() implies (#[trigger] rest[i]).end > p by {
            assert(rest[i] == list[i + 1]);
        }
        later_patches_do_not_shift(rest, p);
        assert(list[0].end > p);
    }
}

proof fn spliced_from_keeps(text: Seq<u8>, list: Seq<PatchView>, cursor: int, p: int)
    requires
        spliced_from(text, list, cursor) is Ok,
        patches_within(list, text.len() as int),
        0 <= cursor <= p < text.len(),
        forall|i: int| 0 <= i < list.len() ==> !covers(#[trigger] list[i], p),
    ensures
        ({
            let out = spliced_from(text, list, cursor)->Ok_0;
            let at = p - cursor + shift(list, p);
            0 <= at < out.len() && out[at] == text[p]
        }),
    decreases list.len(),
{
    if list.len() > 0 {
        let rest = list.skip(1);
        assert(patches_within(rest, text.len() as int)) by {
            assert forall|i: int| 0 <= i < rest.len() implies 0 <= (#[trigger] rest[i]).start
                <= rest[i].end <= text.len() by {
                assert(list[i + 1].start <= list[i + 1].end);
            }
        }
        assert(list[0].start <= list[0].end);
        assert(!covers(list[0], p));
        if list[0].end <= p {
            assert forall|i: int| 0 <= i < rest.len() implies !covers(#[trigger] rest[i], p) by {
                assert(rest[i] == list[i + 1]);
            }
            spliced_from_keeps(text, rest, list[0].end, p);
        } else {
            splice_goes_on(text, rest, list[0].end);
            assert forall|i: int| 0 <= i < rest.len() implies (#[trigger] rest[i]).end > p by {
                assert(rest[i] == list[i + 1]);
                assert(list[i + 1].start <= list[i + 1].end);
            }
            later_patches_do_not_shift(rest, p);
        }
    }
}

/// Putting a patch in order adds no other.
proof fn inserted_holds(list: Seq<PatchView>, patch: PatchView, i: int)
    requires
        0 <= i < inserted(list, patch).len(),
    ensures
        inserted(list, patch)[i] == patch || list.contains(inserted(list, patch)[i]),
    decreases list.len(),
{
    if list.len() > 0 && list.last().start > patch.start {
        let rest = list.drop_last();
        let before = inserted(rest, patch);
        if i < before.len() {
            inserted_holds(rest, patch, i);
            if rest.contains(before[i]) {
                let k = choose|k: int| 0 <= k < rest.len() && rest[k] == before[i];
                assert(list[k] == before[i]);
            }
        } else {
            assert(list[list.len() - 1] == inserted(list, patch)[i]);
        }
    } else if i < list.len() {
        assert(list[i] == inserted(list, patch)[i]);
    }
}

/// Putting patches in order adds none.
proof fn arranged_holds(list: Seq<PatchView>, i: int)
    requires
        0 <= i < arranged(list).len(),
    ensures
        list.contains(arranged(list)[i]),
    decreases list.len(),
{
    if list.len() > 0 {
        let before = arranged(list.drop_last());
        inserted_holds(before, list.last(), i);
        if arranged(list)[i] == list.last() {
            assert(list[list.len() - 1] == arranged(list)[i]);
        } else {
            let k = choose|k: int| 0 <= k < before.len() && before[k] == arranged(list)[i];
            arranged_holds(list.drop_last(), k);
            let rest = list.drop_last();
            let l = choose|l: int| 0 <= l < rest.len() && rest[l] == before[k];
            assert(list[l] == before[k]);
        }
    }
}

/// Every byte that no patch covers is kept, after what comes before it.
pub proof fn bytes_outside_patches_are_kept(text: Seq<u8>, list: Seq<PatchView>, p: int)
    requires
        spliced(text, list) is Ok,
        patches_within(list, text.len() as int),
        0 <= p < text.len(),
        forall|i: int| 0 <= i < list.len() ==> !covers(#[trigger] list[i], p),
    ensures
        ({
            let out = spliced(text, list)->Ok_0;
            let at = p + shift(arranged(list), p);
            0 <= at < out.len() && out[at] == text[p]
        }),
{
    let order = arranged(list);
    assert forall|i: int| 0 <= i < order.len() implies 0 <= (#[trigger] order[i]).start
        <= order[i].end <= text.len() && !covers(order[i], p) by {
        arranged_holds(list, i);
        let k = choose|k: int| 0 <= k < list.len() && list[k] == order[i];
        assert(!covers(list[k], p));
        assert(list[k].start <= list[k].end);
    }
    spliced_from_keeps(text, order, 0, p);
}

/// The cell is edited.
pub open spec fn has_cell(entries: Seq<(Address, String)>, at: Address) -> bool {
    exists|k: int| 0 <= k < entries.len() && (#[trigger] entries[k]).0 == at
}

/// The row is edited.
pub open spec fn has_row(entries: Seq<(Address, String)>, row: u64) -> bool {
    exists|k: int| 0 <= k < entries.len() && (#[trigger] entries[k]).0.0 == row
}

/// Node `n` is the element of an edited cell, or of an edited row that has no cells.
pub open spec fn is_edited(
    doc: Xml,
    text: Seq<u8>,
    entries: Seq<(Address, String)>,
    n: int,
) -> bool {
    let node = doc.nodes@[n];
    &&& 0 <= n < doc.nodes@.len()
    &&& {
        ||| node.name@ == "c"@ && (cell_address(doc, n) matches Ok(at) && has_cell(entries, at))
        ||| {
            &&& node.name@ == "row"@
            &&& crate::tree::is_empty_element(text, node.start as int, node.end as int)
            &&& row_number(doc, n) matches Ok(row) && has_row(entries, row)
        }
    }
}

/// The patch replaces the stated dimension of the sheet.
pub open spec fn is_dimension(doc: Xml, patch: PatchView) -> bool {
    let node = first_named(doc, "dimension"@, 0);
    node < doc.nodes@.len() && (crate::tree::local_attribute(
        doc.attributes@[node]@,
        "ref"@,
    ) matches Some(a) && patch.start == a.start && patch.end == a.end)
}

/// The patch inserts something, or replaces the stated dimension or an edited element.
pub open spec fn is_needed(
    doc: Xml,
    text: Seq<u8>,
    entries: Seq<(Address, String)>,
    patch: PatchView,
) -> bool {
    ||| patch.start == patch.end
    ||| is_dimension(doc, patch)
    ||| exists|n: int| #[trigger]
        is_edited(doc, text, entries, n) && patch.start == doc.nodes@[n].start && patch.end
            == doc.nodes@[n].end
}

/// Every patch inserts something, or replaces the stated dimension or an edited element.
pub open spec fn all_needed(
    doc: Xml,
    text: Seq<u8>,
    entries: Seq<(Address, String)>,
    list: Seq<PatchView>,
) -> bool {
    forall|i: int| 0 <= i < list.len() ==> is_needed(doc, text, entries, #[trigger] list[i])
}

/// The patch is needed and lies within the text.
spec fn is_good(
    doc: Xml,
    text: Seq<u8>,
    entries: Seq<(Address, String)>,
    patch: PatchView,
) -> bool {
    is_needed(doc, text, entries, patch) && 0 <= patch.start <= patch.end <= text.len()
}

spec fn all_good(
    doc: Xml,
    text: Seq<u8>,
    entries: Seq<(Address, String)>,
    list: Seq<PatchView>,
) -> bool {
    forall|i: int| 0 <= i < list.len() ==> is_good(doc, text, entries, #[trigger] list[i])
}

proof fn end_tag_within(text: Seq<u8>, from: int, to: int)
    ensures
        crate::tree::last_end_tag(text, from, to) matches Some(at) ==> from <= at <= to,
    decreases to - from,
{
    if to - from >= 2 {
        end_tag_within(text, from, to - 1);
    }
}

proof fn cell_past_within(doc: Xml, length: int, row: int, j: int, end: int, col: usize)
    requires
        doc.wf(length),
        0 <= j,
        end <= doc.nodes@.len(),
    ensures
        crate::xlsx::cell_past(doc, row, j, end, col) matches Some(at) ==> 0 <= at <= length,
    decreases end - j,
{
    if j < end {
        cell_past_within(doc, length, row, j + 1, end, col);
        assert(doc.nodes@[j].start <= doc.nodes@[j].end);
    }
}

proof fn cell_place_within(doc: Xml, text: Seq<u8>, row: int, at: Address)
    requires
        doc.wf(text.len() as int),
        0 <= row < doc.nodes@.len(),
    ensures
        crate::xlsx::cell_place(doc, text, row, at) matches Some(p) ==> 0 <= p <= text.len(),
{
    let end = crate::tree::end_of(doc.nodes@, row);
    subtree_ends(doc.nodes@, row, row + 1);
    cell_past_within(doc, text.len() as int, row, row + 1, end, at.1);
    assert(doc.nodes@[row].start <= doc.nodes@[row].end);
    end_tag_within(text, doc.nodes@[row].start as int, doc.nodes@[row].end as int);
}

proof fn row_past_within(doc: Xml, length: int, data: int, j: int, end: int, row: u64)
    requires
        doc.wf(length),
        0 <= j,
        end <= doc.nodes@.len(),
    ensures
        crate::xlsx::row_past(doc, data, j, end, row) matches Some(at) ==> 0 <= at <= length,
    decreases end - j,
{
    if j < end {
        row_past_within(doc, length, data, j + 1, end, row);
        assert(doc.nodes@[j].start <= doc.nodes@[j].end);
    }
}

proof fn row_place_within(doc: Xml, text: Seq<u8>, data: int, row: u64)
    requires
        doc.wf(text.len() as int),
        0 <= data < doc.nodes@.len(),
    ensures
        crate::xlsx::row_place(doc, text, data, row) matches Some(p) ==> 0 <= p <= text.len(),
{
    let end = crate::tree::end_of(doc.nodes@, data);
    subtree_ends(doc.nodes@, data, data + 1);
    row_past_within(doc, text.len() as int, data, data + 1, end, row);
    assert(doc.nodes@[data].start <= doc.nodes@[data].end);
    end_tag_within(text, doc.nodes@[data].start as int, doc.nodes@[data].end as int);
}

proof fn found_attribute(list: Seq<crate::xml::XmlAttribute>, name: Seq<char>)
    ensures
        crate::tree::local_attribute(list, name) matches Some(a) ==> list.contains(a),
    decreases list.len(),
{
    if list.len() > 0 {
        found_attribute(list.skip(1), name);
        if list[0].name@ == name {
            assert(list.contains(list[0]));
        } else if let Some(a) = crate::tree::local_attribute(list.skip(1), name) {
            let rest = list.skip(1);
            let k = choose|k: int| 0 <= k < rest.len() && rest[k] == a;
            assert(list[k + 1] == a);
        }
    }
}

/// A cell that is found is one of the row's, with that address.
proof fn found_cell(doc: Xml, row: int, j: int, end: int, at: Address)
    requires
        0 <= j,
        end <= doc.nodes@.len(),
        cell_with(doc, row, j, end, at) is Some,
    ensures
        ({
            let n = cell_with(doc, row, j, end, at)->0 as int;
            &&& j <= n < end
            &&& doc.nodes@[n].name@ == "c"@
            &&& cell_address(doc, n) == Ok::<Address, Error>(at)
        }),
    decreases end - j,
{
    if j < end {
        if !(crate::xlsx::is_cell_of(doc, row, j) && cell_address(doc, j) == Ok::<Address, Error>(
            at,
        )) {
            found_cell(doc, row, j + 1, end, at);
        } else {
            assert(doc.nodes.len() == doc.nodes@.len());
        }
    }
}

proof fn subtree_ends(nodes: Seq<crate::xml::XmlNode>, i: int, j: int)
    requires
        j <= nodes.len(),
    ensures
        crate::tree::inside_until(nodes, i, j) <= nodes.len(),
    decreases nodes.len() - j,
{
    if j < nodes.len() && nodes[j].parent is Some && nodes[j].parent->0 >= i {
        subtree_ends(nodes, i, j + 1);
    }
}

proof fn row_patches_needed(
    doc: Xml,
    text: Seq<u8>,
    row: int,
    entries: Seq<(Address, String)>,
    k: int,
    number: u64,
)
    requires
        doc.wf(text.len() as int),
        0 <= row < doc.nodes@.len(),
        0 <= k,
        doc.nodes@[row].name@ == "row"@,
        row_number(doc, row) == Ok::<u64, Error>(number),
    ensures
        row_patches(doc, text, row, entries, k, number) matches Ok(list) ==> all_good(
            doc,
            text,
            entries,
            list,
        ),
    decreases entries.len() - k,
{
    let end = crate::tree::end_of(doc.nodes@, row);
    if k < entries.len() && entries[k].0.0 == number {
        subtree_ends(doc.nodes@, row, row + 1);
        let at = entries[k].0;
        let cell = cell_with(doc, row, row + 1, end, at);
        assert(has_cell(entries, at));
        assert(has_row(entries, number));
        row_patches_needed(doc, text, row, entries, k + 1, number);
        cell_place_within(doc, text, row, at);
        assert(doc.nodes@[row].start <= doc.nodes@[row].end);
        if cell is Some {
            found_cell(doc, row, row + 1, end, at);
            assert(is_edited(doc, text, entries, cell->0 as int));
            assert(doc.nodes@[cell->0 as int].start <= doc.nodes@[cell->0 as int].end);
        } else if crate::tree::is_empty_element(
            text,
            doc.nodes@[row].start as int,
            doc.nodes@[row].end as int,
        ) {
            assert(is_edited(doc, text, entries, row));
        }
        if let Ok(list) = row_patches(doc, text, row, entries, k, number) {
            if let Ok(rest) = row_patches(doc, text, row, entries, k + 1, number) {
                assert forall|i: int| 0 <= i < list.len() implies is_good(
                    doc,
                    text,
                    entries,
                    #[trigger] list[i],
                ) by {
                    if i > 0 {
                        assert(list[i] == rest[i - 1]);
                    }
                }
            }
        }
    }
}

proof fn rows_patches_needed(
    doc: Xml,
    text: Seq<u8>,
    entries: Seq<(Address, String)>,
    data: int,
    j: int,
    end: int,
    done: Seq<u64>,
)
    requires
        doc.wf(text.len() as int),
        0 <= j,
        end <= doc.nodes@.len(),
    ensures
        rows_patches(doc, text, entries, data, j, end, done) matches Ok((list, _)) ==> all_good(
            doc,
            text,
            entries,
            list,
        ),
    decreases end - j,
{
    if j < end {
        rows_patches_needed(doc, text, entries, data, j + 1, end, done);
        if crate::xlsx::is_row_of(doc, data, j) && row_number(doc, j) is Ok {
            let number = row_number(doc, j)->Ok_0;
            let k = first_of_row(entries, number, 0);
            rows_patches_needed(doc, text, entries, data, j + 1, end, done.push(number));
            first_of_row_goes_on(entries, number, 0);
            row_patches_needed(doc, text, j, entries, k, number);
            if let Ok(patches) = one_row(doc, text, j, entries, k, number) {
                if let Ok((rest, _)) = rows_patches(
                    doc,
                    text,
                    entries,
                    data,
                    j + 1,
                    end,
                    done.push(number),
                ) {
                    let all = patches + rest;
                    assert forall|i: int| 0 <= i < all.len() implies is_good(
                        doc,
                        text,
                        entries,
                        #[trigger] all[i],
                    ) by {
                        if i < patches.len() {
                            assert(all[i] == patches[i]);
                        } else {
                            assert(all[i] == rest[i - patches.len()]);
                        }
                    }
                }
            }
        }
    }
}

proof fn first_of_row_goes_on(entries: Seq<(Address, String)>, row: u64, k: int)
    requires
        0 <= k,
    ensures
        first_of_row(entries, row, k) >= 0,
    decreases entries.len() - k,
{
    if k < entries.len() && entries[k].0.0 != row {
        first_of_row_goes_on(entries, row, k + 1);
    }
}

proof fn missing_patches_needed(
    doc: Xml,
    text: Seq<u8>,
    entries: Seq<(Address, String)>,
    data: int,
    k: int,
    done: Seq<u64>,
)
    requires
        doc.wf(text.len() as int),
        0 <= data < doc.nodes@.len(),
    ensures
        missing_patches(doc, text, entries, data, k, done) matches Ok(list) ==> all_good(
            doc,
            text,
            entries,
            list,
        ),
    decreases entries.len() - k,
{
    if k < entries.len() {
        let row = entries[k].0.0;
        crate::xlsx::after_row_goes_on(entries, row, k + 1);
        let next = after_row(entries, row, k + 1);
        missing_patches_needed(doc, text, entries, data, next, done);
        row_place_within(doc, text, data, row);
        if let Ok(list) = missing_patches(doc, text, entries, data, k, done) {
            if let Ok(rest) = missing_patches(doc, text, entries, data, next, done) {
                assert forall|i: int| 0 <= i < list.len() implies is_good(
                    doc,
                    text,
                    entries,
                    #[trigger] list[i],
                ) by {
                    if !done.contains(row) && i > 0 {
                        assert(list[i] == rest[i - 1]);
                    } else if done.contains(row) {
                        assert(list[i] == rest[i]);
                    }
                }
            }
        }
    }
}

/// The patches of an XLSX sheet are needed and lie within it.
proof fn xlsx_patches_good(doc: Xml, text: Seq<u8>, entries: Seq<(Address, String)>)
    requires
        doc.wf(text.len() as int),
    ensures
        xlsx_patches(doc, text, entries) matches Ok(list) ==> all_good(doc, text, entries, list),
{
    let data = first_named(doc, "sheetData"@, 0);
    if let Ok(list) = xlsx_patches(doc, text, entries) {
        let end = crate::tree::end_of(doc.nodes@, data);
        first_named_goes_on(doc, "sheetData"@, 0);
        subtree_ends(doc.nodes@, data, data + 1);
        rows_patches_needed(doc, text, entries, data, data + 1, end, Seq::empty());
        let dimension = dimension_patches(doc, entries)->Ok_0;
        let (rows, done) = rows_patches(
            doc,
            text,
            entries,
            data,
            data + 1,
            end,
            Seq::empty(),
        )->Ok_0;
        missing_patches_needed(doc, text, entries, data, 0, done);
        let missing = missing_patches(doc, text, entries, data, 0, done)->Ok_0;
        assert forall|i: int| 0 <= i < list.len() implies is_good(
            doc,
            text,
            entries,
            #[trigger] list[i],
        ) by {
            if i < dimension.len() {
                assert(list[i] == dimension[i]);
                assert(is_dimension(doc, dimension[i]));
                let node = first_named(doc, "dimension"@, 0);
                let attributes = doc.attributes@[node]@;
                first_named_goes_on(doc, "dimension"@, 0);
                found_attribute(attributes, "ref"@);
                let a = crate::tree::local_attribute(attributes, "ref"@)->0;
                let k = choose|k: int| 0 <= k < attributes.len() && attributes[k] == a;
                assert(doc.attributes@[node]@[k] == a);
                assert(doc.nodes@[node].start <= doc.nodes@[node].end);
            } else if i < dimension.len() + rows.len() {
                assert(list[i] == rows[i - dimension.len()]);
            } else {
                assert(list[i] == missing[i - dimension.len() - rows.len()]);
            }
        }
    }
}

/// The patches of an XLSX sheet lie within it.
pub proof fn xlsx_patches_lie_within(doc: Xml, text: Seq<u8>, entries: Seq<(Address, String)>)
    requires
        doc.wf(text.len() as int),
    ensures
        xlsx_patches(doc, text, entries) matches Ok(list) ==> patches_within(
            list,
            text.len() as int,
        ),
{
    xlsx_patches_good(doc, text, entries);
    if let Ok(list) = xlsx_patches(doc, text, entries) {
        assert forall|i: int| 0 <= i < list.len() implies 0 <= (#[trigger] list[i]).start
            <= list[i].end <= text.len() by {
            assert(is_good(doc, text, entries, list[i]));
        }
    }
}

/// Saving an XLSX sheet inserts new cells and rows, and replaces nothing but edited cells,
/// edited rows that had no cells, and the stated dimension.
pub proof fn only_edited_cells_are_replaced(
    doc: Xml,
    text: Seq<u8>,
    entries: Seq<(Address, String)>,
)
    requires
        doc.wf(text.len() as int),
    ensures
        xlsx_patches(doc, text, entries) matches Ok(list) ==> all_needed(doc, text, entries, list),
{
    xlsx_patches_good(doc, text, entries);
    if let Ok(list) = xlsx_patches(doc, text, entries) {
        assert forall|i: int| 0 <= i < list.len() implies is_needed(
            doc,
            text,
            entries,
            #[trigger] list[i],
        ) by {
            assert(is_good(doc, text, entries, list[i]));
        }
    }
}

proof fn first_named_goes_on(doc: Xml, name: Seq<char>, i: int)
    requires
        0 <= i,
    ensures
        first_named(doc, name, i) >= 0,
    decreases doc.nodes@.len() - i,
{
    if i < doc.nodes@.len() && doc.nodes@[i].name@ != name {
        first_named_goes_on(doc, name, i + 1);
    }
}

/// A saved XLSX sheet holds every byte of the sheet that lies in no edited cell, in no
/// edited row without cells, and not in the stated dimension.
pub proof fn xlsx_saves_keep_other_bytes(
    doc: Xml,
    text: Seq<u8>,
    entries: Seq<(Address, String)>,
    p: int,
)
    requires
        doc.wf(text.len() as int),
        patched_xlsx(doc, text, entries) is Ok,
        0 <= p < text.len(),
        forall|n: int| #[trigger]
            is_edited(doc, text, entries, n) ==> !(doc.nodes@[n].start <= p < doc.nodes@[n].end),
        forall|patch: PatchView| #[trigger] is_dimension(doc, patch) ==> !covers(patch, p),
    ensures
        ({
            let list = xlsx_patches(doc, text, entries)->Ok_0;
            let out = patched_xlsx(doc, text, entries)->Ok_0;
            let at = p + shift(arranged(list), p);
            0 <= at < out.len() && out[at] == text[p]
        }),
{
    let list = xlsx_patches(doc, text, entries)->Ok_0;
    xlsx_patches_good(doc, text, entries);
    assert forall|i: int| 0 <= i < list.len() implies !covers(#[trigger] list[i], p) && 0
        <= list[i].start <= list[i].end <= text.len() by {
        assert(is_good(doc, text, entries, list[i]));
    }
    bytes_outside_patches_are_kept(text, list, p);
}

/// The row at which row element `j` of a table from node `from` on starts.
pub open spec fn rows_before(doc: Xml, from: int, j: int) -> int
    decreases j - from,
{
    if j <= from {
        0
    } else {
        rows_before(doc, from, j - 1) + if is_tag(doc.nodes@[j - 1], TABLE@, "table-row"@) {
            rows_of(doc, j - 1)
        } else {
            0
        }
    }
}

/// How many rows a row element stands for.
pub open spec fn rows_of(doc: Xml, n: int) -> int {
    match repeat_of(doc, n, "number-rows-repeated"@) {
        Ok(count) => count as int,
        Err(_) => 0,
    }
}

/// Node `n` is a row element of the table that stands for an edited row.
pub open spec fn is_edited_row(
    doc: Xml,
    table: int,
    entries: Seq<(Address, String)>,
    n: int,
) -> bool {
    &&& 0 <= n < doc.nodes@.len()
    &&& table <= n < crate::tree::end_of(doc.nodes@, table)
    &&& is_tag(doc.nodes@[n], TABLE@, "table-row"@)
    &&& exists|k: int|
        0 <= k < entries.len() && rows_before(doc, table, n) <= (#[trigger] entries[k]).0.0
            < rows_before(doc, table, n) + rows_of(doc, n)
}

/// The patch replaces an edited row element.
pub open spec fn replaces_row(
    doc: Xml,
    table: int,
    entries: Seq<(Address, String)>,
    patch: PatchView,
) -> bool {
    exists|n: int| #[trigger]
        is_edited_row(doc, table, entries, n) && patch.start == doc.nodes@[n].start && patch.end
            == doc.nodes@[n].end
}

/// The rows of the entries do not go back.
pub open spec fn rows_ascend(entries: Seq<(Address, String)>) -> bool {
    forall|i: int, j: int|
        0 <= i < j < entries.len() ==> (#[trigger] entries[i]).0.0 <= (#[trigger] entries[j]).0.0
}

proof fn after_rows_passes_all(entries: Seq<(Address, String)>, k: int, to: u64)
    requires
        rows_ascend(entries),
        0 <= k,
    ensures
        after_rows(entries, k, to) >= k,
        forall|l: int|
            after_rows(entries, k, to) <= l < entries.len() ==> (#[trigger] entries[l]).0.0 >= to,
    decreases entries.len() - k,
{
    if k < entries.len() && entries[k].0.0 < to {
        after_rows_passes_all(entries, k + 1, to);
    } else {
        assert forall|l: int| k <= l < entries.len() implies (#[trigger] entries[l]).0.0 >= to by {
            if l > k {
                assert(entries[k].0.0 <= entries[l].0.0);
            }
        }
    }
}

proof fn table_patches_replace_rows(
    doc: Xml,
    text: Seq<u8>,
    scopes: Seq<Option<String>>,
    table: int,
    j: int,
    entries: Seq<(Address, String)>,
    k: int,
    row: u64,
)
    requires
        doc.wf(text.len() as int),
        rows_ascend(entries),
        0 <= table <= j,
        0 <= k,
        crate::tree::end_of(doc.nodes@, table) <= doc.nodes@.len(),
        row == rows_before(doc, table, j),
        forall|l: int| k <= l < entries.len() ==> (#[trigger] entries[l]).0.0 >= row,
    ensures
        table_patches(
            doc,
            text,
            scopes,
            j,
            crate::tree::end_of(doc.nodes@, table),
            entries,
            k,
            row,
        ) matches Ok((list, _)) ==> forall|i: int|
            0 <= i < list.len() ==> replaces_row(doc, table, entries, #[trigger] list[i]) && 0
                <= list[i].start <= list[i].end <= text.len(),
    decreases crate::tree::end_of(doc.nodes@, table) - j,
{
    let end = crate::tree::end_of(doc.nodes@, table);
    if j < end {
        if !is_tag(doc.nodes@[j], TABLE@, "table-row"@) {
            table_patches_replace_rows(doc, text, scopes, table, j + 1, entries, k, row);
        } else if next_row(doc, j, row) is Ok {
            let next = next_row(doc, j, row)->Ok_0;
            assert(next == rows_before(doc, table, j + 1));
            if k >= entries.len() || entries[k].0.0 >= next {
                assert forall|l: int| k <= l < entries.len() implies (#[trigger] entries[l]).0.0
                    >= next by {
                    if l > k {
                        assert(entries[k].0.0 <= entries[l].0.0);
                    }
                }
                table_patches_replace_rows(doc, text, scopes, table, j + 1, entries, k, next);
            } else {
                let after = after_rows(entries, k, next);
                after_rows_passes_all(entries, k, next);
                table_patches_replace_rows(doc, text, scopes, table, j + 1, entries, after, next);
                assert(rows_before(doc, table, j) <= entries[k].0.0 < rows_before(doc, table, j)
                    + rows_of(doc, j));
                assert(is_edited_row(doc, table, entries, j));
                assert(doc.nodes@[j].start <= doc.nodes@[j].end);
                if let Ok((list, _)) = table_patches(
                    doc,
                    text,
                    scopes,
                    j,
                    end,
                    entries,
                    k,
                    row,
                ) {
                    let (rest, _) = table_patches(
                        doc,
                        text,
                        scopes,
                        j + 1,
                        end,
                        entries,
                        after,
                        next,
                    )->Ok_0;
                    assert forall|i: int| 0 <= i < list.len() implies replaces_row(
                        doc,
                        table,
                        entries,
                        #[trigger] list[i],
                    ) && 0 <= list[i].start <= list[i].end <= text.len() by {
                        if i > 0 {
                            assert(list[i] == rest[i - 1]);
                        }
                    }
                }
            }
        }
    }
}

proof fn table_named_goes_on(doc: Xml, name: Seq<char>, i: int)
    requires
        0 <= i,
    ensures
        table_named(doc, name, i) >= 0,
    decreases doc.nodes@.len() - i,
{
    if i < doc.nodes@.len() {
        table_named_goes_on(doc, name, i + 1);
    }
}

/// A saved ODS workbook holds every byte of its content that lies in no row element that
/// stands for an edited row of the sheet.
pub proof fn ods_saves_keep_other_bytes(
    doc: Xml,
    text: Seq<u8>,
    scopes: Seq<Option<String>>,
    name: Seq<char>,
    edits: Cells,
    p: int,
)
    requires
        doc.wf(text.len() as int),
        edits.wf(),
        patched_ods(doc, text, scopes, name, edits.entries@) is Ok,
        0 <= p < text.len(),
        forall|n: int| #[trigger]
            is_edited_row(doc, table_named(doc, name, 0), edits.entries@, n) ==> !(
            doc.nodes@[n].start <= p < doc.nodes@[n].end),
    ensures
        ({
            let table = table_named(doc, name, 0);
            let end = crate::tree::end_of(doc.nodes@, table);
            let (list, _) = table_patches(
                doc,
                text,
                scopes,
                table,
                end,
                edits.entries@,
                0,
                0,
            )->Ok_0;
            let out = patched_ods(doc, text, scopes, name, edits.entries@)->Ok_0;
            let at = p + shift(arranged(list), p);
            0 <= at < out.len() && out[at] == text[p]
        }),
{
    let entries = edits.entries@;
    let table = table_named(doc, name, 0);
    let end = crate::tree::end_of(doc.nodes@, table);
    table_named_goes_on(doc, name, 0);
    subtree_ends(doc.nodes@, table, table + 1);
    assert(rows_ascend(entries)) by {
        assert forall|i: int, j: int| 0 <= i < j < entries.len() implies (
        #[trigger] entries[i]).0.0 <= (#[trigger] entries[j]).0.0 by {
            assert(crate::cells::before(entries[i].0, entries[j].0));
        }
    }
    table_patches_replace_rows(doc, text, scopes, table, table, entries, 0, 0);
    let (list, _) = table_patches(doc, text, scopes, table, end, entries, 0, 0)->Ok_0;
    assert forall|i: int| 0 <= i < list.len() implies !covers(#[trigger] list[i], p) by {
        assert(replaces_row(doc, table, entries, list[i]));
    }
    bytes_outside_patches_are_kept(text, list, p);
}

} // verus!
