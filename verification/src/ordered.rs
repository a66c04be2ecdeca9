//! That a native XLSX save makes the edits of a row in their order.
use crate::a1::Address;
use crate::cells::before;
use crate::error::Error;
use crate::inside::{nodes_end_where_nothing_is_inside, values_are_of_the_first_attribute};
use crate::made::{
    cells_hold_their_text, data_is_named, entries_are_of_the_row, first_is_of_the_row, is_new_cell,
    is_row, makes, missing_rows_make_every_entry, row_patches_make_every_entry,
    rows_stand_together, rows_that_are_there_are_done, unsigned_fits,
};
use crate::text::unsigned_of;
use crate::tree::end_of;
use crate::xlsx::{
    after_row, cell_markup, dimension_patches, expanded_row, first_named, first_of_row, is_row_of,
    missing_patches, missing_row, new_cells, one_row, patched_xlsx, row_number, row_patches,
    rows_patches, xlsx_patches,
};
use crate::xml::{PatchView, Xml};
use vstd::prelude::*;

verus! {

/// The bytes hold two parts, one behind the other.
pub open spec fn follows(bytes: Seq<u8>, first: Seq<u8>, second: Seq<u8>) -> bool {
    exists|a: Seq<u8>, b: Seq<u8>, c: Seq<u8>| bytes == #[trigger] (a + first + b + second + c)
}

/// The bytes hold new cells for two edits, the second behind the first.
pub open spec fn in_turn(bytes: Seq<u8>, x: (Address, String), y: (Address, String)) -> bool {
    exists|first: Seq<u8>, second: Seq<u8>| #[trigger]
        is_new_cell(first, x.0, x.1@) && #[trigger] is_new_cell(second, y.0, y.1@) && follows(
            bytes,
            first,
            second,
        )
}

proof fn in_turn_within(
    front: Seq<u8>,
    bytes: Seq<u8>,
    back: Seq<u8>,
    x: (Address, String),
    y: (Address, String),
)
    requires
        in_turn(bytes, x, y),
    ensures
        in_turn(front + bytes + back, x, y),
{
    let (first, second) = choose|first: Seq<u8>, second: Seq<u8>| #[trigger]
        is_new_cell(first, x.0, x.1@) && #[trigger] is_new_cell(second, y.0, y.1@) && follows(
            bytes,
            first,
            second,
        );
    let (a, b, c) = choose|a: Seq<u8>, b: Seq<u8>, c: Seq<u8>|
        bytes == #[trigger] (a + first + b + second + c);
    assert(front + bytes + back =~= (front + a) + first + b + second + (c + back));
    assert(follows(front + bytes + back, first, second));
}

/// One new cell is part of the new cells of its row.
proof fn new_cell_is_there(
    doc: Xml,
    text: Seq<u8>,
    parent: int,
    entries: Seq<(Address, String)>,
    k: int,
    row: u64,
    e: int,
) -> (r: (Seq<u8>, Seq<u8>, Seq<u8>))
    requires
        new_cells(doc, text, parent, entries, k, row) is Ok,
        0 <= k <= e < after_row(entries, row, k),
    ensures
        new_cells(doc, text, parent, entries, k, row)->Ok_0 == r.0 + r.1 + r.2,
        is_new_cell(r.1, entries[e].0, entries[e].1@),
    decreases entries.len() - k,
{
    let body = new_cells(doc, text, parent, entries, k, row)->Ok_0;
    let cell = cell_markup(doc, text, None, parent, entries[k].0, entries[k].1@)->Ok_0;
    let rest = new_cells(doc, text, parent, entries, k + 1, row)->Ok_0;
    if e == k {
        cells_hold_their_text(doc, text, None, parent, entries[k].0, entries[k].1@);
        assert(body =~= Seq::<u8>::empty() + cell + rest);
        (Seq::empty(), cell, rest)
    } else {
        let r = new_cell_is_there(doc, text, parent, entries, k + 1, row, e);
        assert(body =~= (cell + r.0) + r.1 + r.2);
        (cell + r.0, r.1, r.2)
    }
}

/// The new cells of a row stand in their order.
proof fn new_cells_are_in_turn(
    doc: Xml,
    text: Seq<u8>,
    parent: int,
    entries: Seq<(Address, String)>,
    k: int,
    row: u64,
    x: int,
    y: int,
)
    requires
        new_cells(doc, text, parent, entries, k, row) is Ok,
        0 <= k <= x < y < after_row(entries, row, k),
    ensures
        in_turn(new_cells(doc, text, parent, entries, k, row)->Ok_0, entries[x], entries[y]),
    decreases entries.len() - k,
{
    let body = new_cells(doc, text, parent, entries, k, row)->Ok_0;
    let cell = cell_markup(doc, text, None, parent, entries[k].0, entries[k].1@)->Ok_0;
    let rest = new_cells(doc, text, parent, entries, k + 1, row)->Ok_0;
    if x == k {
        cells_hold_their_text(doc, text, None, parent, entries[k].0, entries[k].1@);
        let (b, second, c) = new_cell_is_there(doc, text, parent, entries, k + 1, row, y);
        let none = Seq::<u8>::empty();
        assert(body =~= none + cell + b + second + c);
        assert(follows(body, cell, second));
    } else {
        new_cells_are_in_turn(doc, text, parent, entries, k + 1, row, x, y);
        in_turn_within(cell, rest, Seq::empty(), entries[x], entries[y]);
        assert(body =~= cell + rest + Seq::<u8>::empty());
    }
}

/// Entries of a row that go on from one of them are of the row from there on too.
proof fn row_goes_on(entries: Seq<(Address, String)>, row: u64, k: int, m: int, e: int)
    requires
        0 <= k <= m <= e < after_row(entries, row, k),
    ensures
        e < after_row(entries, row, m),
        entries[m].0.0 == row,
    decreases m - k,
{
    crate::xlsx::after_row_goes_on(entries, row, k);
    if k < m {
        row_goes_on(entries, row, k + 1, m, e);
    }
}

proof fn row_edits_are_in_order(
    doc: Xml,
    text: Seq<u8>,
    data: int,
    row: int,
    entries: Seq<(Address, String)>,
    k: int,
    number: u64,
    x: int,
    y: int,
) -> (r: (int, int))
    requires
        doc.wf(text.len() as int),
        0 <= data < row < doc.nodes@.len(),
        is_row(doc, data, row, number),
        row_patches(doc, text, row, entries, k, number) is Ok,
        0 <= k <= x < y < after_row(entries, number, k),
        entries[x].0.0 == number,
        entries[y].0.0 == number,
    ensures
        ({
            let list = row_patches(doc, text, row, entries, k, number)->Ok_0;
            &&& 0 <= r.0 <= r.1 < list.len()
            &&& makes(doc, text, data, list[r.0], entries[x].0, entries[x].1@)
            &&& makes(doc, text, data, list[r.1], entries[y].0, entries[y].1@)
            &&& r.0 == r.1 ==> in_turn(list[r.0].bytes, entries[x], entries[y])
        }),
{
    let list = row_patches(doc, text, row, entries, k, number)->Ok_0;
    let i = row_patches_make_every_entry(doc, text, data, row, entries, k, number, x);
    let j = row_patches_make_every_entry(doc, text, data, row, entries, k, number, y);
    if i == j {
        let m = k + i;
        row_goes_on(entries, number, k, m, y);
        new_cells_are_in_turn(doc, text, row, entries, m, number, x, y);
        let body = new_cells(doc, text, row, entries, m, number)->Ok_0;
        let tag = doc.tag_of(text, row, Seq::empty(), Seq::empty())->Ok_0;
        let close = crate::xlsx::close_tag(doc.qualified_of(row, "row"@));
        in_turn_within(tag, body, close, entries[x], entries[y]);
        assert(expanded_row(doc, text, row, entries, m, number)->Ok_0 == tag + body + close);
    }
    (i, j)
}

proof fn rows_edits_are_in_order(
    doc: Xml,
    text: Seq<u8>,
    entries: Seq<(Address, String)>,
    data: int,
    j: int,
    done: Seq<u64>,
    x: int,
    y: int,
) -> (r: (int, int))
    requires
        doc.wf(text.len() as int),
        0 <= data < j,
        data < doc.nodes@.len(),
        forall|a: int, b: int|
            0 <= a < b < entries.len() ==> before(
                (#[trigger] entries[a]).0,
                (#[trigger] entries[b]).0,
            ),
        0 <= x < y < entries.len(),
        entries[x].0.0 == entries[y].0.0,
        rows_patches(doc, text, entries, data, j, end_of(doc.nodes@, data), done) is Ok,
        rows_patches(doc, text, entries, data, j, end_of(doc.nodes@, data), done)->Ok_0.1.contains(
            entries[x].0.0,
        ),
        !done.contains(entries[x].0.0),
    ensures
        ({
            let list = rows_patches(
                doc,
                text,
                entries,
                data,
                j,
                end_of(doc.nodes@, data),
                done,
            )->Ok_0.0;
            &&& 0 <= r.0 <= r.1 < list.len()
            &&& makes(doc, text, data, list[r.0], entries[x].0, entries[x].1@)
            &&& makes(doc, text, data, list[r.1], entries[y].0, entries[y].1@)
            &&& r.0 == r.1 ==> in_turn(list[r.0].bytes, entries[x], entries[y])
        }),
    decreases end_of(doc.nodes@, data) - j,
{
    let end = end_of(doc.nodes@, data);
    let row = entries[x].0.0;
    let list = rows_patches(doc, text, entries, data, j, end, done)->Ok_0.0;
    nodes_end_where_nothing_is_inside(doc.nodes@, data, j);
    if !is_row_of(doc, data, j) {
        rows_edits_are_in_order(doc, text, entries, data, j + 1, done, x, y)
    } else {
        let number = row_number(doc, j)->Ok_0;
        let k = first_of_row(entries, number, 0);
        if k >= entries.len() || done.contains(number) {
            rows_edits_are_in_order(doc, text, entries, data, j + 1, done, x, y)
        } else {
            let now = done.push(number);
            let patches = one_row(doc, text, j, entries, k, number)->Ok_0;
            let rest = rows_patches(doc, text, entries, data, j + 1, end, now)->Ok_0.0;
            if row == number {
                first_is_of_the_row(entries, number, 0, x);
                rows_stand_together(entries, number, k, x);
                rows_stand_together(entries, number, k, y);
                let r = crate::tree::value(doc, j, "r"@)->0;
                values_are_of_the_first_attribute(doc, j, "r"@, r);
                assert(is_row(doc, data, j, number)) by {
                    assert(doc.nodes@[j].parent == Some(data as usize));
                    assert(unsigned_of(r) is Ok);
                    unsigned_fits(r);
                    assert(unsigned_of(r) == Ok::<nat, Error>(number as nat + 1));
                }
                let r = row_edits_are_in_order(doc, text, data, j, entries, k, number, x, y);
                assert(list[r.0] == patches[r.0]);
                assert(list[r.1] == patches[r.1]);
                r
            } else {
                assert(!now.contains(row)) by {
                    if now.contains(row) {
                        let m = choose|m: int| 0 <= m < now.len() && now[m] == row;
                        assert(done[m] == row);
                    }
                }
                let r = rows_edits_are_in_order(doc, text, entries, data, j + 1, now, x, y);
                let n = patches.len() as int;
                assert(list[n + r.0] == rest[r.0]);
                assert(list[n + r.1] == rest[r.1]);
                (n + r.0, n + r.1)
            }
        }
    }
}

proof fn missing_row_is_in_turn(
    doc: Xml,
    text: Seq<u8>,
    entries: Seq<(Address, String)>,
    data: int,
    k: int,
    row: u64,
    x: int,
    y: int,
)
    requires
        missing_row(doc, text, entries, data, k, row) is Ok,
        0 <= k <= x < y < after_row(entries, row, k),
    ensures
        in_turn(
            missing_row(doc, text, entries, data, k, row)->Ok_0.bytes,
            entries[x],
            entries[y],
        ),
{
    new_cells_are_in_turn(doc, text, data, entries, k, row, x, y);
    let body = new_cells(doc, text, data, entries, k, row)->Ok_0;
    let bytes = missing_row(doc, text, entries, data, k, row)->Ok_0.bytes;
    let close = crate::xlsx::close_tag(doc.qualified_of(data, "row"@));
    let front = bytes.take(bytes.len() - body.len() - close.len());
    assert(bytes =~= front + body + close);
    in_turn_within(front, body, close, entries[x], entries[y]);
}

#[verifier::rlimit(60)]
#[verifier::spinoff_prover]
proof fn missing_edits_are_in_order(
    doc: Xml,
    text: Seq<u8>,
    entries: Seq<(Address, String)>,
    data: int,
    k: int,
    done: Seq<u64>,
    x: int,
    y: int,
) -> (r: (int, int))
    requires
        doc.wf(text.len() as int),
        0 <= data < doc.nodes@.len(),
        missing_patches(doc, text, entries, data, k, done) is Ok,
        0 <= k <= x < y < entries.len(),
        !done.contains(entries[x].0.0),
        !done.contains(entries[y].0.0),
        forall|m: int| !#[trigger] is_row(doc, data, m, entries[x].0.0),
        forall|m: int| !#[trigger] is_row(doc, data, m, entries[y].0.0),
    ensures
        ({
            let list = missing_patches(doc, text, entries, data, k, done)->Ok_0;
            &&& 0 <= r.0 <= r.1 < list.len()
            &&& makes(doc, text, data, list[r.0], entries[x].0, entries[x].1@)
            &&& makes(doc, text, data, list[r.1], entries[y].0, entries[y].1@)
            &&& r.0 == r.1 ==> in_turn(list[r.0].bytes, entries[x], entries[y])
        }),
    decreases entries.len() - k,
{
    let row = entries[k].0.0;
    let next = after_row(entries, row, k + 1);
    crate::xlsx::after_row_goes_on(entries, row, k + 1);
    let list = missing_patches(doc, text, entries, data, k, done)->Ok_0;
    let rest = missing_patches(doc, text, entries, data, next, done)->Ok_0;
    if x < next {
        entries_are_of_the_row(entries, row, k, x);
        let i = missing_rows_make_every_entry(doc, text, entries, data, k, done, x);
        let j = missing_rows_make_every_entry(doc, text, entries, data, k, done, y);
        if y < next {
            entries_are_of_the_row(entries, row, k, y);
            missing_row_is_in_turn(doc, text, entries, data, k, row, x, y);
            assert(list[0] == missing_row(doc, text, entries, data, k, row)->Ok_0);
        }
        (i, j)
    } else {
        let r = missing_edits_are_in_order(doc, text, entries, data, next, done, x, y);
        if done.contains(row) {
            r
        } else {
            assert(list[r.0 + 1] == rest[r.0]);
            assert(list[r.1 + 1] == rest[r.1]);
            (r.0 + 1, r.1 + 1)
        }
    }
}

/// Two patches of a list, not the second before the first, make two edits; where they are
/// one, its cells are in their order.
pub open spec fn are_made(
    doc: Xml,
    text: Seq<u8>,
    data: int,
    list: Seq<PatchView>,
    i: int,
    j: int,
    x: (Address, String),
    y: (Address, String),
) -> bool {
    &&& 0 <= i <= j < list.len()
    &&& doc.nodes@[data].name@ == "sheetData"@
    &&& makes(doc, text, data, list[i], x.0, x.1@)
    &&& makes(doc, text, data, list[j], y.0, y.1@)
    &&& i == j ==> in_turn(list[i].bytes, x, y)
}

/// Edits of one row, and edits of rows that the sheet does not have, are made in the order of
/// their cells: what makes the one stands in the list before what makes the other, and where
/// one patch makes both, its cells stand in that order.
#[verifier::rlimit(60)]
#[verifier::spinoff_prover]
pub proof fn edits_are_made_in_order(
    doc: Xml,
    text: Seq<u8>,
    entries: Seq<(Address, String)>,
    x: int,
    y: int,
)
    requires
        doc.wf(text.len() as int),
        forall|i: int, j: int|
            0 <= i < j < entries.len() ==> before(
                (#[trigger] entries[i]).0,
                (#[trigger] entries[j]).0,
            ),
        0 <= x < y < entries.len(),
        patched_xlsx(doc, text, entries) is Ok,
        entries[x].0.0 == entries[y].0.0 || forall|data: int, m: int|
            !is_row(doc, data, m, entries[x].0.0) && !#[trigger] is_row(
                doc,
                data,
                m,
                entries[y].0.0,
            ),
    ensures
        ({
            let list = xlsx_patches(doc, text, entries)->Ok_0;
            exists|data: int, i: int, j: int| #[trigger]
                are_made(doc, text, data, list, i, j, entries[x], entries[y])
        }),
{
    let data = first_named(doc, "sheetData"@, 0);
    data_is_named(doc, "sheetData"@, 0);
    let list = xlsx_patches(doc, text, entries)->Ok_0;
    let end = end_of(doc.nodes@, data);
    let dimension = dimension_patches(doc, entries)->Ok_0;
    let (rows, done) = rows_patches(
        doc,
        text,
        entries,
        data,
        data + 1,
        end,
        Seq::empty(),
    )->Ok_0;
    let missing = missing_patches(doc, text, entries, data, 0, done)->Ok_0;
    assert(list == dimension + rows + missing);
    let none = Seq::<u64>::empty();
    let (row, other) = (entries[x].0.0, entries[y].0.0);
    assert(!none.contains(row));
    if row == other && done.contains(row) {
        let (i, j) = rows_edits_are_in_order(doc, text, entries, data, data + 1, none, x, y);
        made_within(doc, text, data, dimension, rows, missing, i, j, entries[x], entries[y]);
    } else {
        if row == other {
            assert forall|m: int| !#[trigger] is_row(doc, data, m, row) by {
                if is_row(doc, data, m, row) {
                    rows_that_are_there_are_done(
                        doc,
                        text,
                        entries,
                        data,
                        data + 1,
                        none,
                        x,
                        m,
                    );
                }
            }
        } else {
            assert forall|m: int| !#[trigger] is_row(doc, data, m, row) by {
                assert(!is_row(doc, data, m, other));
            }
            rows_that_are_done_are_there(doc, text, entries, data, data + 1, none, row);
            rows_that_are_done_are_there(doc, text, entries, data, data + 1, none, other);
        }
        let (i, j) = missing_edits_are_in_order(doc, text, entries, data, 0, done, x, y);
        let last = Seq::<PatchView>::empty();
        assert(dimension + rows + missing + last =~= dimension + rows + missing);
        made_within(
            doc,
            text,
            data,
            dimension + rows,
            missing,
            last,
            i,
            j,
            entries[x],
            entries[y],
        );
    }
}

proof fn made_within(
    doc: Xml,
    text: Seq<u8>,
    data: int,
    front: Seq<PatchView>,
    list: Seq<PatchView>,
    back: Seq<PatchView>,
    i: int,
    j: int,
    x: (Address, String),
    y: (Address, String),
)
    requires
        are_made(doc, text, data, list, i, j, x, y),
    ensures
        are_made(
            doc,
            text,
            data,
            front + list + back,
            front.len() + i,
            front.len() + j,
            x,
            y,
        ),
{
    let all = front + list + back;
    assert(all[front.len() + i] == list[i]);
    assert(all[front.len() + j] == list[j]);
}

proof fn rows_that_are_done_are_there(
    doc: Xml,
    text: Seq<u8>,
    entries: Seq<(Address, String)>,
    data: int,
    j: int,
    done: Seq<u64>,
    row: u64,
)
    requires
        0 <= data < j,
        data < doc.nodes@.len(),
        rows_patches(doc, text, entries, data, j, end_of(doc.nodes@, data), done) is Ok,
        !done.contains(row),
        forall|m: int| !#[trigger] is_row(doc, data, m, row),
    ensures
        !rows_patches(doc, text, entries, data, j, end_of(doc.nodes@, data), done)->Ok_0.1.contains(
            row,
        ),
    decreases end_of(doc.nodes@, data) - j,
{
    let end = end_of(doc.nodes@, data);
    nodes_end_where_nothing_is_inside(doc.nodes@, data, j);
    if j < end {
        if !is_row_of(doc, data, j) {
            rows_that_are_done_are_there(doc, text, entries, data, j + 1, done, row);
        } else {
            let number = row_number(doc, j)->Ok_0;
            let k = first_of_row(entries, number, 0);
            if k >= entries.len() || done.contains(number) {
                rows_that_are_done_are_there(doc, text, entries, data, j + 1, done, row);
            } else {
                let now = done.push(number);
                let r = crate::tree::value(doc, j, "r"@)->0;
                values_are_of_the_first_attribute(doc, j, "r"@, r);
                assert(is_row(doc, data, j, number)) by {
                    assert(doc.nodes@[j].parent == Some(data as usize));
                    assert(unsigned_of(r) is Ok);
                    unsigned_fits(r);
                    assert(unsigned_of(r) == Ok::<nat, Error>(number as nat + 1));
                }
                assert(!now.contains(row)) by {
                    if now.contains(row) {
                        let m = choose|m: int| 0 <= m < now.len() && now[m] == row;
                        if m < done.len() {
                            assert(done[m] == row);
                        } else {
                            assert(is_row(doc, data, j, row));
                        }
                    }
                }
                rows_that_are_done_are_there(doc, text, entries, data, j + 1, now, row);
            }
        }
    }
}

/// How many of the first `n` entries are of none of these rows.
spec fn left(entries: Seq<(Address, String)>, done: Seq<u64>, n: int) -> int
    decreases n,
{
    if n <= 0 {
        0
    } else {
        left(entries, done, n - 1) + if done.contains(entries[n - 1].0.0) {
            0int
        } else {
            1
        }
    }
}

/// How many of the first `n` entries are of a row.
spec fn of_row(entries: Seq<(Address, String)>, row: u64, n: int) -> int
    decreases n,
{
    if n <= 0 {
        0
    } else {
        of_row(entries, row, n - 1) + if entries[n - 1].0.0 == row {
            1int
        } else {
            0
        }
    }
}

proof fn one_row_less(entries: Seq<(Address, String)>, done: Seq<u64>, row: u64, n: int)
    requires
        0 <= n <= entries.len(),
        !done.contains(row),
    ensures
        left(entries, done.push(row), n) + of_row(entries, row, n) == left(entries, done, n),
    decreases n,
{
    if n > 0 {
        one_row_less(entries, done, row, n - 1);
        let at = entries[n - 1].0.0;
        let now = done.push(row);
        if done.contains(at) {
            let m = choose|m: int| 0 <= m < done.len() && done[m] == at;
            assert(now[m] == at);
        } else if at == row {
            assert(now[done.len() as int] == row);
        } else if now.contains(at) {
            let m = choose|m: int| 0 <= m < now.len() && now[m] == at;
            assert(done[m] == at);
        }
    }
}

proof fn counts_grow(entries: Seq<(Address, String)>, done: Seq<u64>, row: u64, m: int, n: int)
    requires
        0 <= m <= n,
    ensures
        0 <= left(entries, done, m) <= left(entries, done, n) <= n,
        0 <= of_row(entries, row, m) <= of_row(entries, row, n),
    decreases n,
{
    if m < n {
        counts_grow(entries, done, row, m, n - 1);
    } else if n > 0 {
        counts_grow(entries, done, row, m - 1, n - 1);
    }
}

/// The patches of a row are no more than its entries.
proof fn row_patches_are_few(
    doc: Xml,
    text: Seq<u8>,
    row: int,
    entries: Seq<(Address, String)>,
    k: int,
    number: u64,
)
    requires
        0 <= k <= entries.len(),
        row_patches(doc, text, row, entries, k, number) is Ok,
    ensures
        row_patches(doc, text, row, entries, k, number)->Ok_0.len() <= of_row(
            entries,
            number,
            entries.len() as int,
        ) - of_row(entries, number, k),
    decreases entries.len() - k,
{
    let n = entries.len() as int;
    counts_grow(entries, Seq::empty(), number, k, n);
    if k < entries.len() && entries[k].0.0 == number {
        counts_grow(entries, Seq::empty(), number, k + 1, n);
        let node = doc.nodes@[row];
        let cell = crate::xlsx::cell_with(doc, row, row + 1, end_of(doc.nodes@, row), entries[k].0);
        if !(cell is None && crate::tree::is_empty_element(
            text,
            node.start as int,
            node.end as int,
        )) {
            row_patches_are_few(doc, text, row, entries, k + 1, number);
        }
    }
}

proof fn rows_patches_are_few(
    doc: Xml,
    text: Seq<u8>,
    entries: Seq<(Address, String)>,
    data: int,
    j: int,
    done: Seq<u64>,
)
    requires
        rows_patches(doc, text, entries, data, j, end_of(doc.nodes@, data), done) is Ok,
    ensures
        ({
            let (list, all) = rows_patches(
                doc,
                text,
                entries,
                data,
                j,
                end_of(doc.nodes@, data),
                done,
            )->Ok_0;
            let n = entries.len() as int;
            list.len() + left(entries, all, n) <= left(entries, done, n)
        }),
    decreases end_of(doc.nodes@, data) - j,
{
    let end = end_of(doc.nodes@, data);
    if j < end {
        if !is_row_of(doc, data, j) {
            rows_patches_are_few(doc, text, entries, data, j + 1, done);
        } else {
            let number = row_number(doc, j)->Ok_0;
            let k = first_of_row(entries, number, 0);
            if k >= entries.len() || done.contains(number) {
                rows_patches_are_few(doc, text, entries, data, j + 1, done);
            } else {
                first_is_not_before(entries, number, 0);
                rows_patches_are_few(doc, text, entries, data, j + 1, done.push(number));
                row_patches_are_few(doc, text, j, entries, k, number);
                counts_grow(entries, done, number, k, entries.len() as int);
                one_row_less(entries, done, number, entries.len() as int);
            }
        }
    }
}

proof fn first_is_not_before(entries: Seq<(Address, String)>, row: u64, k: int)
    requires
        0 <= k <= entries.len(),
    ensures
        first_of_row(entries, row, k) >= k,
    decreases entries.len() - k,
{
    if k < entries.len() && entries[k].0.0 != row {
        first_is_not_before(entries, row, k + 1);
    }
}

proof fn missing_patches_are_few(
    doc: Xml,
    text: Seq<u8>,
    entries: Seq<(Address, String)>,
    data: int,
    k: int,
    done: Seq<u64>,
)
    requires
        0 <= k <= entries.len(),
        missing_patches(doc, text, entries, data, k, done) is Ok,
    ensures
        missing_patches(doc, text, entries, data, k, done)->Ok_0.len() <= left(
            entries,
            done,
            entries.len() as int,
        ) - left(entries, done, k),
    decreases entries.len() - k,
{
    let n = entries.len() as int;
    counts_grow(entries, done, 0, k, n);
    if k < n {
        let row = entries[k].0.0;
        let next = after_row(entries, row, k + 1);
        crate::xlsx::after_row_goes_on(entries, row, k + 1);
        counts_grow(entries, done, 0, k + 1, next);
        missing_patches_are_few(doc, text, entries, data, next, done);
    }
}

/// No edit is made twice: the patches of a sheet, apart from that of its stated dimension,
/// are no more than the edits.
pub proof fn patches_are_no_more_than_edits(
    doc: Xml,
    text: Seq<u8>,
    entries: Seq<(Address, String)>,
)
    requires
        xlsx_patches(doc, text, entries) is Ok,
    ensures
        xlsx_patches(doc, text, entries)->Ok_0.len() <= entries.len() + 1,
{
    let data = first_named(doc, "sheetData"@, 0);
    let n = entries.len() as int;
    let none = Seq::<u64>::empty();
    let (rows, done) = rows_patches(
        doc,
        text,
        entries,
        data,
        data + 1,
        end_of(doc.nodes@, data),
        none,
    )->Ok_0;
    rows_patches_are_few(doc, text, entries, data, data + 1, none);
    missing_patches_are_few(doc, text, entries, data, 0, done);
    counts_grow(entries, none, 0, 0, n);
}

/// The new cells of a row are those of its edits, one behind another, and nothing else.
pub proof fn new_cells_stand_one_by_one(
    doc: Xml,
    text: Seq<u8>,
    parent: int,
    entries: Seq<(Address, String)>,
    k: int,
    row: u64,
    to: int,
    joined: Seq<Seq<u8>>,
)
    requires
        0 <= k <= to <= entries.len(),
        forall|e: int| k <= e < to ==> (#[trigger] entries[e]).0.0 == row,
        to < entries.len() ==> entries[to].0.0 != row,
        joined.len() == to - k + 1,
        joined[0] == Seq::<u8>::empty(),
        forall|e: int|
            k <= e < to ==> (cell_markup(
                doc,
                text,
                None,
                parent,
                (#[trigger] entries[e]).0,
                entries[e].1@,
            ) matches Ok(cell) && joined[e - k + 1] == joined[e - k] + cell),
    ensures
        new_cells(doc, text, parent, entries, k, row) == Ok::<Seq<u8>, Error>(joined.last()),
{
    cells_are_joined(doc, text, parent, entries, k, row, to, joined, k);
    let body = new_cells(doc, text, parent, entries, k, row)->Ok_0;
    assert(Seq::<u8>::empty() + body =~= body);
}

proof fn cells_are_joined(
    doc: Xml,
    text: Seq<u8>,
    parent: int,
    entries: Seq<(Address, String)>,
    k: int,
    row: u64,
    to: int,
    joined: Seq<Seq<u8>>,
    e: int,
)
    requires
        0 <= k <= e <= to <= entries.len(),
        forall|e: int| k <= e < to ==> (#[trigger] entries[e]).0.0 == row,
        to < entries.len() ==> entries[to].0.0 != row,
        joined.len() == to - k + 1,
        forall|e: int|
            k <= e < to ==> (cell_markup(
                doc,
                text,
                None,
                parent,
                (#[trigger] entries[e]).0,
                entries[e].1@,
            ) matches Ok(cell) && joined[e - k + 1] == joined[e - k] + cell),
    ensures
        new_cells(doc, text, parent, entries, e, row) matches Ok(body) && joined[e - k] + body
            == joined.last(),
    decreases to - e,
{
    if e < to {
        assert(entries[e].0.0 == row);
        cells_are_joined(doc, text, parent, entries, k, row, to, joined, e + 1);
        let cell = cell_markup(doc, text, None, parent, entries[e].0, entries[e].1@)->Ok_0;
        let rest = new_cells(doc, text, parent, entries, e + 1, row)->Ok_0;
        assert(joined[e + 1 - k] == joined[e - k] + cell);
        assert(joined[e - k] + (cell + rest) =~= joined[e - k] + cell + rest);
    } else {
        assert(joined[e - k] + Seq::<u8>::empty() =~= joined[e - k]);
    }
}

} // verus!
