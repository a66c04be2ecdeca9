//! That a native XLSX save makes every edit.
use crate::a1::{name_of, Address};
use crate::cells::before;
use crate::error::Error;
use crate::inside::{
    holds_value, is_inside, nodes_end_where_nothing_is_inside, values_are_of_the_first_attribute,
};
use crate::text::unsigned_of;
use crate::tree::value;
use crate::workbook::address_of;
use crate::xlsx::{
    after_row, cell_markup, cell_start, cell_with, dimension_patches, escaped, expanded_row,
    first_named,
    first_of_row, is_cell_of, is_row_of, literal, missing_patches, missing_row, new_cells, one_row,
    patched_xlsx, row_number, row_patches, rows_patches, xlsx_patches,
};
use crate::xml::{utf8, PatchView, Xml};
use vstd::prelude::*;

verus! {

/// The bytes hold a part.
pub open spec fn holds(bytes: Seq<u8>, part: Seq<u8>) -> bool {
    exists|a: Seq<u8>, b: Seq<u8>| bytes == #[trigger] (a + part + b)
}

proof fn holds_in(whole: Seq<u8>, a: Seq<u8>, bytes: Seq<u8>, b: Seq<u8>, part: Seq<u8>)
    requires
        whole == a + bytes + b,
        holds(bytes, part),
    ensures
        holds(whole, part),
{
    let (x, y) = choose|x: Seq<u8>, y: Seq<u8>| bytes == #[trigger] (x + part + y);
    assert(whole =~= (a + x) + part + (y + b));
}

/// What is written of a text: what follows `=` as a formula, else the text as it is, with
/// what could be read otherwise escaped.
pub open spec fn written(text: Seq<char>) -> Seq<char> {
    if text.len() > 0 && text[0] == '=' {
        escaped(text.skip(1))
    } else {
        escaped(literal(text, text.len() as int))
    }
}

/// The markup holds the text between tags: as a formula, or as preserved inline text.
pub open spec fn is_cell(markup: Seq<u8>, text: Seq<char>) -> bool {
    exists|a: Seq<u8>, b: Seq<u8>|
        {
            &&& markup == #[trigger] (a + utf8(written(text)) + b)
            &&& exists|x: Seq<u8>| b == #[trigger] (utf8("</"@) + x)
            &&& exists|x: Seq<u8>| b == #[trigger] (x + utf8(">"@))
            &&& if text.len() > 0 && text[0] == '=' {
                exists|x: Seq<u8>| a == #[trigger] (x + utf8(">"@))
            } else {
                &&& exists|x: Seq<u8>| a == #[trigger] (x + utf8(" xml:space=\"preserve\">"@))
                &&& holds(a, utf8(" t=\"inlineStr\""@))
            }
        }
}

/// The markup is a cell of its own: it names its address.
pub open spec fn is_new_cell(markup: Seq<u8>, at: Address, text: Seq<char>) -> bool {
    is_cell(markup, text) && holds(markup, utf8(" r=\""@) + utf8(name_of(at)) + utf8("\""@))
}

/// Node `n` is a cell with this address in a row of the sheet data.
pub open spec fn is_stored(doc: Xml, data: int, n: int, at: Address) -> bool {
    &&& is_inside(doc.nodes@, data, n)
    &&& doc.nodes@[n].name@ == "c"@
    &&& exists|r: Seq<char>| #[trigger]
        holds_value(doc.attributes@[n]@, "r"@, r) && address_of(r) == Ok::<Address, Error>(at)
}

/// Node `n` is the row of the sheet data with this number, counted from 0.
pub open spec fn is_row(doc: Xml, data: int, n: int, row: u64) -> bool {
    &&& is_inside(doc.nodes@, data, n)
    &&& doc.nodes@[n].parent == Some(data as usize)
    &&& doc.nodes@[n].name@ == "row"@
    &&& exists|r: Seq<char>| #[trigger]
        holds_value(doc.attributes@[n]@, "r"@, r) && unsigned_of(r) == Ok::<nat, Error>(
            row as nat + 1,
        )
}

/// Node `m` is a cell of row element `row` with this address.
pub open spec fn is_cell_in(doc: Xml, row: int, m: int, at: Address) -> bool {
    &&& is_inside(doc.nodes@, row, m)
    &&& doc.nodes@[m].parent == Some(row as usize)
    &&& doc.nodes@[m].name@ == "c"@
    &&& exists|r: Seq<char>| #[trigger]
        holds_value(doc.attributes@[m]@, "r"@, r) && address_of(r) == Ok::<Address, Error>(at)
}

/// Node `m` is a cell of the row element past this column.
pub open spec fn is_past(doc: Xml, row: int, m: int, col: usize) -> bool {
    exists|at: Address| #[trigger] is_cell_in(doc, row, m, at) && at.1 > col
}

/// The place is before the first cell of the row past a column, where there is one.
pub open spec fn is_place_in_row(doc: Xml, row: int, place: int, col: usize) -> bool {
    forall|m: int| #[trigger]
        is_past(doc, row, m, col) && (forall|l: int| l < m ==> !#[trigger] is_past(doc, row, l, col))
            ==> place == doc.nodes@[m].start
}

/// Node `m` is a row of the sheet data past a row.
pub open spec fn is_later_row(doc: Xml, data: int, m: int, row: u64) -> bool {
    exists|later: u64| #[trigger] is_row(doc, data, m, later) && later > row
}

/// The place is before the first row of the sheet data past a row, where there is one.
pub open spec fn is_place_of_row(doc: Xml, data: int, place: int, row: u64) -> bool {
    forall|m: int| #[trigger]
        is_later_row(doc, data, m, row) && (forall|l: int|
            l < m ==> !#[trigger] is_later_row(doc, data, l, row)) ==> place == doc.nodes@[m].start
}

/// The patch replaces the stored cell of the address.
pub open spec fn replaces(
    doc: Xml,
    data: int,
    patch: PatchView,
    at: Address,
    text: Seq<char>,
) -> bool {
    exists|n: int| #[trigger]
        is_stored(doc, data, n, at) && patch.start == doc.nodes@[n].start && patch.end
            == doc.nodes@[n].end && is_cell(patch.bytes, text)
}

/// The patch adds a cell to a row that does not have it: before the first cell past it, or by
/// writing out a row that was written as empty.
pub open spec fn adds(
    doc: Xml,
    source: Seq<u8>,
    data: int,
    patch: PatchView,
    at: Address,
    text: Seq<char>,
) -> bool {
    exists|n: int, markup: Seq<u8>| #[trigger]
        is_row(doc, data, n, at.0) && #[trigger] is_new_cell(markup, at, text) && holds(
            patch.bytes,
            markup,
        ) && {
            ||| {
                &&& doc.nodes@[n].start <= patch.start == patch.end <= doc.nodes@[n].end
                &&& patch.bytes == markup
                &&& forall|m: int| !#[trigger] is_cell_in(doc, n, m, at)
                &&& is_place_in_row(doc, n, patch.start, at.1)
            }
            ||| {
                &&& doc.nodes@[n].start == patch.start && patch.end == doc.nodes@[n].end
                &&& crate::tree::is_empty_element(source, patch.start, patch.end)
            }
        }
}

/// The patch adds the cell in a new row with its number, which the sheet data does not have,
/// before the first row past it.
pub open spec fn adds_row(
    doc: Xml,
    data: int,
    patch: PatchView,
    at: Address,
    text: Seq<char>,
) -> bool {
    exists|markup: Seq<u8>| #[trigger]
        is_new_cell(markup, at, text) && holds(patch.bytes, markup) && holds(
            patch.bytes,
            utf8(" r=\""@) + utf8(crate::text::decimal(at.0 as nat + 1)) + utf8("\">"@),
        ) && doc.nodes@[data].start <= patch.start == patch.end <= doc.nodes@[data].end && (
        forall|m: int| !#[trigger] is_row(doc, data, m, at.0)) && is_place_of_row(
            doc,
            data,
            patch.start,
            at.0,
        )
}

/// The patch makes the edit.
pub open spec fn makes(
    doc: Xml,
    source: Seq<u8>,
    data: int,
    patch: PatchView,
    at: Address,
    text: Seq<char>,
) -> bool {
    ||| replaces(doc, data, patch, at, text)
    ||| adds(doc, source, data, patch, at, text)
    ||| adds_row(doc, data, patch, at, text)
}

/// Tags around a text make a cell of it.
proof fn tags_make_a_cell(
    value: Seq<char>,
    front: Seq<u8>,
    last: Seq<u8>,
    name: Seq<u8>,
    inner: Seq<u8>,
    c: Seq<u8>,
)
    requires
        value.len() > 0 && value[0] == '=' ==> last == utf8(">"@),
        !(value.len() > 0 && value[0] == '=') ==> last == utf8(" xml:space=\"preserve\">"@)
            && holds(front, utf8(" t=\"inlineStr\""@)),
    ensures
        is_cell(
            front + last + utf8(written(value)) + (utf8("</"@) + name + utf8(">"@)) + inner + (utf8(
                "</"@,
            ) + c + utf8(">"@)),
            value,
        ),
{
    let markup = front + last + utf8(written(value)) + (utf8("</"@) + name + utf8(">"@)) + inner + (
    utf8("</"@) + c + utf8(">"@));
    let a = front + last;
    let rest = name + utf8(">"@) + inner + (utf8("</"@) + c + utf8(">"@));
    let b = utf8("</"@) + rest;
    let most = utf8("</"@) + name + utf8(">"@) + inner + (utf8("</"@) + c);
    assert(markup =~= a + utf8(written(value)) + b);
    assert(b =~= most + utf8(">"@));
    if !(value.len() > 0 && value[0] == '=') {
        assert(a =~= Seq::<u8>::empty() + front + last);
        holds_in(a, Seq::empty(), front, last, utf8(" t=\"inlineStr\""@));
    }
}

/// The start tag of a cell of inline text says so.
proof fn inline_cells_say_so(doc: Xml, text: Seq<u8>, node: Option<usize>, parent: int, at: Address)
    requires
        cell_start(doc, text, node, parent, at, " t=\"inlineStr\""@) is Ok,
    ensures
        holds(
            cell_start(doc, text, node, parent, at, " t=\"inlineStr\""@)->Ok_0,
            utf8(" t=\"inlineStr\""@),
        ),
{
    let kind = " t=\"inlineStr\""@;
    match node {
        Some(n) => {
            kind_is_written(doc, text, n as int, utf8(kind));
        },
        None => {
            let x = utf8("<"@) + doc.qualified_of(parent, "c"@) + utf8(" r=\""@) + utf8(name_of(at))
                + utf8("\""@);
            assert(cell_start(doc, text, node, parent, at, kind)->Ok_0 == x + utf8(kind) + utf8(
                ">"@,
            ));
        },
    }
}

/// The start tag of a new cell names its address.
proof fn new_cells_name_their_address(
    doc: Xml,
    text: Seq<u8>,
    parent: int,
    at: Address,
    kind: Seq<char>,
)
    ensures
        cell_start(doc, text, None, parent, at, kind) is Ok,
        holds(
            cell_start(doc, text, None, parent, at, kind)->Ok_0,
            utf8(" r=\""@) + utf8(name_of(at)) + utf8("\""@),
        ),
{
    let x = utf8("<"@) + doc.qualified_of(parent, "c"@);
    let y = utf8(" r=\""@) + utf8(name_of(at)) + utf8("\""@);
    let z = utf8(kind) + utf8(">"@);
    assert(cell_start(doc, text, None, parent, at, kind)->Ok_0 =~= x + y + z);
}

/// The markup of a cell holds its text, and that of a new one its address.
pub proof fn cells_hold_their_text(
    doc: Xml,
    text: Seq<u8>,
    node: Option<usize>,
    parent: int,
    at: Address,
    value: Seq<char>,
)
    requires
        cell_markup(doc, text, node, parent, at, value) is Ok,
    ensures
        is_cell(cell_markup(doc, text, node, parent, at, value)->Ok_0, value),
        node is None ==> is_new_cell(
            cell_markup(doc, text, node, parent, at, value)->Ok_0,
            at,
            value,
        ),
{
    if value.len() > 0 && value[0] == '=' {
        formulas_hold_their_text(doc, text, node, parent, at, value);
    } else {
        texts_hold_their_text(doc, text, node, parent, at, value);
    }
}

/// What stands before, between and after tags, put together otherwise.
proof fn regroup(
    start: Seq<u8>,
    more: Seq<u8>,
    open: Seq<u8>,
    last: Seq<u8>,
    w: Seq<u8>,
    close: Seq<u8>,
    x: Seq<u8>,
    y: Seq<u8>,
    end: Seq<u8>,
)
    ensures
        start + more + (open + last) + w + close + x + y + end == (start + (more + open)) + last + w
            + close + (x + y) + end,
        start + more + (open + last) + w + close + x + y + end == Seq::<u8>::empty() + start + (more
            + (open + last) + w + close + x + y + end),
{
    assert(start + more + (open + last) + w + close + x + y + end =~= (start + (more + open)) + last
        + w + close + (x + y) + end);
    assert(start + more + (open + last) + w + close + x + y + end =~= Seq::<u8>::empty() + start + (
    more + (open + last) + w + close + x + y + end));
}

proof fn formulas_hold_their_text(
    doc: Xml,
    text: Seq<u8>,
    node: Option<usize>,
    parent: int,
    at: Address,
    value: Seq<char>,
)
    requires
        cell_markup(doc, text, node, parent, at, value) is Ok,
        value.len() > 0 && value[0] == '=',
    ensures
        is_cell(cell_markup(doc, text, node, parent, at, value)->Ok_0, value),
        node is None ==> is_new_cell(
            cell_markup(doc, text, node, parent, at, value)->Ok_0,
            at,
            value,
        ),
{
    let markup = cell_markup(doc, text, node, parent, at, value)->Ok_0;
    let c = doc.qualified_of(
        match node {
            Some(n) => n as int,
            None => parent,
        },
        "c"@,
    );
    let tail = match node {
        Some(n) => crate::xlsx::tail_of(doc, text, n as int),
        None => Seq::empty(),
    };
    let f = doc.qualified_of(parent, "f"@);
    let none = Seq::<u8>::empty();
    let start = cell_start(doc, text, node, parent, at, ""@)->Ok_0;
    let open = utf8("<"@) + f;
    let close = utf8("</"@) + f + utf8(">"@);
    let end = utf8("</"@) + c + utf8(">"@);
    let w = utf8(written(value));
    assert(markup == start + (open + utf8(">"@)) + w + close + tail + end);
    assert(start + none =~= start);
    assert(start + none + (open + utf8(">"@)) + w + close + tail + none + end =~= start + (open
        + utf8(">"@)) + w + close + tail + end);
    regroup(start, none, open, utf8(">"@), w, close, tail, none, end);
    tags_make_a_cell(value, start + (none + open), utf8(">"@), f, tail + none, c);
    if node is None {
        new_cells_name_their_address(doc, text, parent, at, ""@);
        holds_in(
            markup,
            none,
            start,
            none + (open + utf8(">"@)) + w + close + tail + none + end,
            utf8(" r=\""@) + utf8(name_of(at)) + utf8("\""@),
        );
    }
}

proof fn texts_hold_their_text(
    doc: Xml,
    text: Seq<u8>,
    node: Option<usize>,
    parent: int,
    at: Address,
    value: Seq<char>,
)
    requires
        cell_markup(doc, text, node, parent, at, value) is Ok,
        !(value.len() > 0 && value[0] == '='),
    ensures
        is_cell(cell_markup(doc, text, node, parent, at, value)->Ok_0, value),
        node is None ==> is_new_cell(
            cell_markup(doc, text, node, parent, at, value)->Ok_0,
            at,
            value,
        ),
{
    let markup = cell_markup(doc, text, node, parent, at, value)->Ok_0;
    let c = doc.qualified_of(
        match node {
            Some(n) => n as int,
            None => parent,
        },
        "c"@,
    );
    let tail = match node {
        Some(n) => crate::xlsx::tail_of(doc, text, n as int),
        None => Seq::empty(),
    };
    let t = doc.qualified_of(parent, "t"@);
    let is = doc.qualified_of(parent, "is"@);
    let none = Seq::<u8>::empty();
    let kind = " t=\"inlineStr\""@;
    let last = utf8(" xml:space=\"preserve\">"@);
    let start = cell_start(doc, text, node, parent, at, kind)->Ok_0;
    let more = utf8("<"@) + is + utf8(">"@);
    let open = utf8("<"@) + t;
    let close = utf8("</"@) + t + utf8(">"@);
    let x = utf8("</"@) + is + utf8(">"@);
    let end = utf8("</"@) + c + utf8(">"@);
    let w = utf8(written(value));
    assert(markup == start + more + (open + last) + w + close + x + tail + end);
    regroup(start, more, open, last, w, close, x, tail, end);
    inline_cells_say_so(doc, text, node, parent, at);
    assert(start + (more + open) =~= none + start + (more + open));
    holds_in(start + (more + open), none, start, more + open, utf8(kind));
    tags_make_a_cell(value, start + (more + open), last, t, x + tail, c);
    if node is None {
        new_cells_name_their_address(doc, text, parent, at, kind);
        holds_in(
            markup,
            none,
            start,
            more + (open + last) + w + close + x + tail + end,
            utf8(" r=\""@) + utf8(name_of(at)) + utf8("\""@),
        );
    }
}

/// A start tag that is written anew holds what is added to it.
proof fn kind_is_written(doc: Xml, text: Seq<u8>, n: int, extra: Seq<u8>)
    requires
        doc.tag_of(text, n, seq![(""@, "t"@)], extra) is Ok,
    ensures
        holds(doc.tag_of(text, n, seq![(""@, "t"@)], extra)->Ok_0, extra),
{
    let list = doc.attributes@[n]@;
    let start = doc.nodes@[n].start as int;
    let end = crate::tree::tag_close(text, doc.attributes_end(n));
    let tag = crate::xml::spliced(
        text.subrange(start, end),
        crate::tree::removals(list, seq![(""@, "t"@)], start, list.len() as int),
    )->Ok_0;
    let front = crate::tree::without_end_slashes(crate::tree::without_end_spaces(tag));
    assert(doc.tag_of(text, n, seq![(""@, "t"@)], extra)->Ok_0 == front + extra + seq![62u8]);
}

/// New cells of a row hold every entry of the row.
proof fn new_cells_hold_every_entry(
    doc: Xml,
    text: Seq<u8>,
    parent: int,
    entries: Seq<(Address, String)>,
    k: int,
    row: u64,
    e: int,
) -> (markup: Seq<u8>)
    requires
        new_cells(doc, text, parent, entries, k, row) is Ok,
        0 <= k <= e < after_row(entries, row, k),
    ensures
        is_new_cell(markup, entries[e].0, entries[e].1@),
        holds(new_cells(doc, text, parent, entries, k, row)->Ok_0, markup),
    decreases entries.len() - k,
{
    let body = new_cells(doc, text, parent, entries, k, row)->Ok_0;
    let cell = cell_markup(doc, text, None, parent, entries[k].0, entries[k].1@)->Ok_0;
    let rest = new_cells(doc, text, parent, entries, k + 1, row)->Ok_0;
    if e == k {
        cells_hold_their_text(doc, text, None, parent, entries[k].0, entries[k].1@);
        assert(body =~= Seq::<u8>::empty() + cell + rest);
        cell
    } else {
        let markup = new_cells_hold_every_entry(doc, text, parent, entries, k + 1, row, e);
        assert(body =~= cell + rest + Seq::<u8>::empty());
        holds_in(body, cell, rest, Seq::empty(), markup);
        markup
    }
}

/// What is inside a node that is inside another is inside that one too.
proof fn inside_of_inside(doc: Xml, a: int, b: int, c: int)
    requires
        is_inside(doc.nodes@, a, b),
        is_inside(doc.nodes@, b, c),
    ensures
        is_inside(doc.nodes@, a, c),
{
    assert forall|m: int| a < m <= c implies ((#[trigger] doc.nodes@[m]).parent matches Some(p)
        && p >= a) by {
        if m > b {
            assert(doc.nodes@[m].parent matches Some(p) && p >= b);
        }
    }
}

/// The cell that is found for an address has it.
proof fn found_cell_is_stored(doc: Xml, row: int, j: int, end: int, at: Address)
    requires
        row < j,
        end <= doc.nodes@.len(),
    ensures
        cell_with(doc, row, j, end, at) matches Some(n) ==> j <= n < end && is_cell_of(
            doc,
            row,
            n as int,
        ) && crate::xlsx::cell_address(doc, n as int) == Ok::<Address, Error>(at),
        cell_with(doc, row, j, end, at) is None ==> forall|m: int|
            j <= m < end ==> !(#[trigger] is_cell_of(doc, row, m) && crate::xlsx::cell_address(
                doc,
                m,
            ) == Ok::<Address, Error>(at)),
    decreases end - j,
{
    if j < end {
        found_cell_is_stored(doc, row, j + 1, end, at);
        assert(doc.nodes.len() == doc.nodes@.len());
    }
}

/// Where no cell of a row is found for an address, none has it.
proof fn missing_cell_is_not_in_its_row(doc: Xml, row: int, at: Address)
    requires
        0 <= row < doc.nodes@.len(),
        cell_with(doc, row, row + 1, crate::tree::end_of(doc.nodes@, row), at) is None,
    ensures
        forall|m: int| !#[trigger] is_cell_in(doc, row, m, at),
{
    let end = crate::tree::end_of(doc.nodes@, row);
    nodes_end_where_nothing_is_inside(doc.nodes@, row, row + 1);
    found_cell_is_stored(doc, row, row + 1, end, at);
    assert forall|m: int| !#[trigger] is_cell_in(doc, row, m, at) by {
        if is_cell_in(doc, row, m, at) {
            nodes_end_where_nothing_is_inside(doc.nodes@, row, m);
            let r = choose|r: Seq<char>| #[trigger]
                holds_value(doc.attributes@[m]@, "r"@, r) && address_of(r) == Ok::<Address, Error>(
                    at,
                );
            values_are_of_the_first_attribute(doc, m, "r"@, r);
            assert(is_cell_of(doc, row, m));
        }
    }
}

/// The cell before which a new one goes is the first past it.
proof fn place_is_before_the_first_past(
    doc: Xml,
    row: int,
    j: int,
    end: int,
    col: usize,
    m: int,
)
    requires
        0 <= row < j <= m < end <= doc.nodes@.len(),
        end == crate::tree::end_of(doc.nodes@, row),
        is_past(doc, row, m, col),
        forall|l: int| l < m ==> !#[trigger] is_past(doc, row, l, col),
    ensures
        crate::xlsx::cell_past(doc, row, j, end, col) == Some(doc.nodes@[m].start as int),
    decreases m - j,
{
    if j == m {
        let at = choose|at: Address| #[trigger] is_cell_in(doc, row, m, at) && at.1 > col;
        let r = choose|r: Seq<char>| #[trigger]
            holds_value(doc.attributes@[m]@, "r"@, r) && address_of(r) == Ok::<Address, Error>(at);
        values_are_of_the_first_attribute(doc, m, "r"@, r);
    } else {
        if is_cell_of(doc, row, j) && (crate::xlsx::cell_address(doc, j) matches Ok(at) && at.1
            > col) {
            let at = crate::xlsx::cell_address(doc, j)->Ok_0;
            let r = value_of_address(doc, j, at);
            nodes_end_where_nothing_is_inside(doc.nodes@, row, j);
            assert(is_cell_in(doc, row, j, at));
            assert(is_past(doc, row, j, col));
        }
        place_is_before_the_first_past(doc, row, j + 1, end, col, m);
    }
}

proof fn place_is_in_order(doc: Xml, text: Seq<u8>, row: int, at: Address, place: int)
    requires
        0 <= row < doc.nodes@.len(),
        crate::xlsx::cell_place(doc, text, row, at) == Some(place),
    ensures
        is_place_in_row(doc, row, place, at.1),
{
    let end = crate::tree::end_of(doc.nodes@, row);
    nodes_end_where_nothing_is_inside(doc.nodes@, row, row + 1);
    assert forall|m: int| #[trigger]
        is_past(doc, row, m, at.1) && (forall|l: int|
            l < m ==> !#[trigger] is_past(doc, row, l, at.1)) implies place
        == doc.nodes@[m].start by {
        let a = choose|a: Address| #[trigger] is_cell_in(doc, row, m, a) && a.1 > at.1;
        nodes_end_where_nothing_is_inside(doc.nodes@, row, m);
        place_is_before_the_first_past(doc, row, row + 1, end, at.1, m);
    }
}

proof fn row_place_is_before_the_first_past(
    doc: Xml,
    data: int,
    j: int,
    end: int,
    row: u64,
    m: int,
)
    requires
        0 <= data < j <= m < end <= doc.nodes@.len(),
        end == crate::tree::end_of(doc.nodes@, data),
        is_later_row(doc, data, m, row),
        forall|l: int| l < m ==> !#[trigger] is_later_row(doc, data, l, row),
    ensures
        crate::xlsx::row_past(doc, data, j, end, row) == Some(doc.nodes@[m].start as int),
    decreases m - j,
{
    if j == m {
        let later = choose|later: u64| #[trigger] is_row(doc, data, m, later) && later > row;
        let r = choose|r: Seq<char>| #[trigger]
            holds_value(doc.attributes@[m]@, "r"@, r) && unsigned_of(r) == Ok::<nat, Error>(
                later as nat + 1,
            );
        values_are_of_the_first_attribute(doc, m, "r"@, r);
    } else {
        if is_row_of(doc, data, j) && (crate::tree::value(doc, j, "r"@) matches Some(r) && (
        unsigned_of(r) matches Ok(n) && n > row + 1)) {
            let r = crate::tree::value(doc, j, "r"@)->0;
            unsigned_fits(r);
            let later = (unsigned_of(r)->Ok_0 - 1) as u64;
            values_are_of_the_first_attribute(doc, j, "r"@, r);
            nodes_end_where_nothing_is_inside(doc.nodes@, data, j);
            assert(is_row(doc, data, j, later));
            assert(is_later_row(doc, data, j, row));
        }
        row_place_is_before_the_first_past(doc, data, j + 1, end, row, m);
    }
}

proof fn row_place_is_in_order(doc: Xml, text: Seq<u8>, data: int, row: u64, place: int)
    requires
        0 <= data < doc.nodes@.len(),
        crate::xlsx::row_place(doc, text, data, row) == Some(place),
    ensures
        is_place_of_row(doc, data, place, row),
{
    let end = crate::tree::end_of(doc.nodes@, data);
    nodes_end_where_nothing_is_inside(doc.nodes@, data, data + 1);
    assert forall|m: int| #[trigger]
        is_later_row(doc, data, m, row) && (forall|l: int|
            l < m ==> !#[trigger] is_later_row(doc, data, l, row)) implies place
        == doc.nodes@[m].start by {
        let later = choose|later: u64| #[trigger] is_row(doc, data, m, later) && later > row;
        nodes_end_where_nothing_is_inside(doc.nodes@, data, m);
        row_place_is_before_the_first_past(doc, data, data + 1, end, row, m);
    }
}

/// A new cell goes into its row.
proof fn cell_goes_into_its_row(doc: Xml, text: Seq<u8>, row: int, at: Address)
    requires
        doc.wf(text.len() as int),
        0 <= row < doc.nodes@.len(),
    ensures
        crate::xlsx::cell_place(doc, text, row, at) matches Some(p) ==> doc.nodes@[row].start <= p
            <= doc.nodes@[row].end,
{
    let end = crate::tree::end_of(doc.nodes@, row);
    nodes_end_where_nothing_is_inside(doc.nodes@, row, row + 1);
    past_cell_is_in_its_row(doc, text.len() as int, row, row + 1, end, at.1);
    assert(doc.nodes@[row].start <= doc.nodes@[row].end);
    end_tag_is_between(text, doc.nodes@[row].start as int, doc.nodes@[row].end as int);
}

proof fn past_cell_is_in_its_row(doc: Xml, length: int, row: int, j: int, end: int, col: usize)
    requires
        doc.wf(length),
        0 <= j,
        0 <= row < doc.nodes@.len(),
        end <= doc.nodes@.len(),
    ensures
        crate::xlsx::cell_past(doc, row, j, end, col) matches Some(p) ==> doc.nodes@[row].start
            <= p <= doc.nodes@[row].end,
    decreases end - j,
{
    if j < end {
        past_cell_is_in_its_row(doc, length, row, j + 1, end, col);
        assert(doc.nodes@[j].start <= doc.nodes@[j].end);
        if is_cell_of(doc, row, j) {
            assert(doc.nodes@[j].parent is Some);
        }
    }
}

proof fn row_goes_into_the_data(doc: Xml, text: Seq<u8>, data: int, row: u64)
    requires
        doc.wf(text.len() as int),
        0 <= data < doc.nodes@.len(),
    ensures
        crate::xlsx::row_place(doc, text, data, row) matches Some(p) ==> doc.nodes@[data].start
            <= p <= doc.nodes@[data].end,
{
    let end = crate::tree::end_of(doc.nodes@, data);
    nodes_end_where_nothing_is_inside(doc.nodes@, data, data + 1);
    past_row_is_in_the_data(doc, text.len() as int, data, data + 1, end, row);
    assert(doc.nodes@[data].start <= doc.nodes@[data].end);
    end_tag_is_between(text, doc.nodes@[data].start as int, doc.nodes@[data].end as int);
}

proof fn past_row_is_in_the_data(doc: Xml, length: int, data: int, j: int, end: int, row: u64)
    requires
        doc.wf(length),
        0 <= j,
        0 <= data < doc.nodes@.len(),
        end <= doc.nodes@.len(),
    ensures
        crate::xlsx::row_past(doc, data, j, end, row) matches Some(p) ==> doc.nodes@[data].start
            <= p <= doc.nodes@[data].end,
    decreases end - j,
{
    if j < end {
        past_row_is_in_the_data(doc, length, data, j + 1, end, row);
        assert(doc.nodes@[j].start <= doc.nodes@[j].end);
        if is_row_of(doc, data, j) {
            assert(doc.nodes@[j].parent is Some);
        }
    }
}

/// An end tag is found where it is looked for.
pub proof fn end_tag_is_between(text: Seq<u8>, from: int, to: int)
    ensures
        crate::tree::last_end_tag(text, from, to) matches Some(at) ==> from <= at <= to,
    decreases to - from,
{
    if to - from >= 2 {
        end_tag_is_between(text, from, to - 1);
    }
}

/// The patches of a row make every entry of the row.
pub proof fn row_patches_make_every_entry(
    doc: Xml,
    text: Seq<u8>,
    data: int,
    row: int,
    entries: Seq<(Address, String)>,
    k: int,
    number: u64,
    e: int,
) -> (i: int)
    requires
        doc.wf(text.len() as int),
        0 <= data < row < doc.nodes@.len(),
        is_row(doc, data, row, number),
        row_patches(doc, text, row, entries, k, number) is Ok,
        0 <= k <= e < after_row(entries, number, k),
        entries[e].0.0 == number,
    ensures
        0 <= i < row_patches(doc, text, row, entries, k, number)->Ok_0.len(),
        makes(
            doc,
            text,
            data,
            row_patches(doc, text, row, entries, k, number)->Ok_0[i],
            entries[e].0,
            entries[e].1@,
        ),
        i <= e - k,
        i < e - k ==> row_patches(doc, text, row, entries, k, number)->Ok_0.len() == i + 1
            && expanded_row(doc, text, row, entries, k + i, number) == Ok::<Seq<u8>, Error>(
            row_patches(doc, text, row, entries, k, number)->Ok_0[i].bytes,
        ),
    decreases entries.len() - k,
{
    let list = row_patches(doc, text, row, entries, k, number)->Ok_0;
    let node = doc.nodes@[row];
    let end = crate::tree::end_of(doc.nodes@, row);
    nodes_end_where_nothing_is_inside(doc.nodes@, row, row + 1);
    let (at, value) = (entries[k].0, entries[k].1@);
    let cell = cell_with(doc, row, row + 1, end, at);
    assert(node.start <= node.end);
    if cell is None && crate::tree::is_empty_element(text, node.start as int, node.end as int) {
        let markup = new_cells_hold_every_entry(doc, text, row, entries, k, number, e);
        let body = new_cells(doc, text, row, entries, k, number)->Ok_0;
        let tag = doc.tag_of(text, row, Seq::empty(), Seq::empty())->Ok_0;
        let close = crate::xlsx::close_tag(doc.qualified_of(row, "row"@));
        holds_in(list[0].bytes, tag, body, close, markup);
        assert(adds(doc, text, data, list[0], entries[e].0, entries[e].1@));
        0
    } else if e == k {
        cells_hold_their_text(doc, text, cell, row, at, value);
        found_cell_is_stored(doc, row, row + 1, end, at);
        cell_goes_into_its_row(doc, text, row, at);
        match cell {
            Some(n) => {
                let r = value_of_address(doc, n as int, at);
                nodes_end_where_nothing_is_inside(doc.nodes@, row, n as int);
                inside_of_inside(doc, data, row, n as int);
                assert(is_stored(doc, data, n as int, at));
                assert(replaces(doc, data, list[0], at, value));
            },
            None => {
                let markup = list[0].bytes;
                assert(markup =~= Seq::<u8>::empty() + markup + Seq::<u8>::empty());
                missing_cell_is_not_in_its_row(doc, row, at);
                place_is_in_order(doc, text, row, at, list[0].start);
                assert(is_new_cell(markup, at, value) && holds(list[0].bytes, markup));
                assert(adds(doc, text, data, list[0], at, value));
            },
        }
        0
    } else {
        let i = row_patches_make_every_entry(doc, text, data, row, entries, k + 1, number, e);
        assert(list[i + 1] == row_patches(doc, text, row, entries, k + 1, number)->Ok_0[i]);
        i + 1
    }
}

proof fn value_of_address(doc: Xml, n: int, at: Address) -> (r: Seq<char>)
    requires
        crate::xlsx::cell_address(doc, n) == Ok::<Address, Error>(at),
    ensures
        holds_value(doc.attributes@[n]@, "r"@, r),
        address_of(r) == Ok::<Address, Error>(at),
{
    let r = value(doc, n, "r"@)->0;
    values_are_of_the_first_attribute(doc, n, "r"@, r);
    r
}

/// The entries of a row stand together.
pub proof fn rows_stand_together(entries: Seq<(Address, String)>, row: u64, k: int, e: int)
    requires
        forall|i: int, j: int|
            0 <= i < j < entries.len() ==> before(
                (#[trigger] entries[i]).0,
                (#[trigger] entries[j]).0,
            ),
        0 <= k <= e < entries.len(),
        entries[k].0.0 == row,
        entries[e].0.0 == row,
    ensures
        e < after_row(entries, row, k),
    decreases e - k,
{
    if k < e {
        assert(before(entries[k].0, entries[k + 1].0));
        if k + 1 < e {
            assert(before(entries[k + 1].0, entries[e].0));
        }
        rows_stand_together(entries, row, k + 1, e);
    } else {
        crate::xlsx::after_row_goes_on(entries, row, k + 1);
    }
}

pub proof fn first_is_of_the_row(entries: Seq<(Address, String)>, row: u64, k: int, e: int)
    requires
        0 <= k <= e < entries.len(),
        entries[e].0.0 == row,
    ensures
        k <= first_of_row(entries, row, k) <= e,
        entries[first_of_row(entries, row, k)].0.0 == row,
    decreases e - k,
{
    if entries[k].0.0 != row {
        first_is_of_the_row(entries, row, k + 1, e);
    }
}

/// The patches of the row elements make every entry of the rows that are then done.
pub proof fn rows_make_every_entry(
    doc: Xml,
    text: Seq<u8>,
    entries: Seq<(Address, String)>,
    data: int,
    j: int,
    done: Seq<u64>,
    e: int,
)
    requires
        doc.wf(text.len() as int),
        0 <= data < j,
        data < doc.nodes@.len(),
        forall|a: int, b: int|
            0 <= a < b < entries.len() ==> before(
                (#[trigger] entries[a]).0,
                (#[trigger] entries[b]).0,
            ),
        0 <= e < entries.len(),
        rows_patches(
            doc,
            text,
            entries,
            data,
            j,
            crate::tree::end_of(doc.nodes@, data),
            done,
        ) is Ok,
    ensures
        ({
            let (list, all) = rows_patches(
                doc,
                text,
                entries,
                data,
                j,
                crate::tree::end_of(doc.nodes@, data),
                done,
            )->Ok_0;
            all.contains(entries[e].0.0) && !done.contains(entries[e].0.0) ==> exists|i: int|
                0 <= i < list.len() && makes(
                    doc,
                    text,
                    data,
                    #[trigger] list[i],
                    entries[e].0,
                    entries[e].1@,
                )
        }),
    decreases crate::tree::end_of(doc.nodes@, data) - j,
{
    let end = crate::tree::end_of(doc.nodes@, data);
    let (at, value) = (entries[e].0, entries[e].1@);
    let (list, all) = rows_patches(doc, text, entries, data, j, end, done)->Ok_0;
    if j < end {
        nodes_end_where_nothing_is_inside(doc.nodes@, data, j);
        if !is_row_of(doc, data, j) {
            rows_make_every_entry(doc, text, entries, data, j + 1, done, e);
        } else {
            let number = row_number(doc, j)->Ok_0;
            let k = first_of_row(entries, number, 0);
            if k >= entries.len() || done.contains(number) {
                rows_make_every_entry(doc, text, entries, data, j + 1, done, e);
            } else {
                let now = done.push(number);
                let patches = one_row(doc, text, j, entries, k, number)->Ok_0;
                let (rest, _) = rows_patches(doc, text, entries, data, j + 1, end, now)->Ok_0;
                rows_make_every_entry(doc, text, entries, data, j + 1, now, e);
                if all.contains(at.0) && !done.contains(at.0) {
                    if at.0 == number {
                        first_is_of_the_row(entries, number, 0, e);
                        rows_stand_together(entries, number, k, e);
                        let r = crate::tree::value(doc, j, "r"@)->0;
                        values_are_of_the_first_attribute(doc, j, "r"@, r);
                        assert(is_row(doc, data, j, number)) by {
                            assert(doc.nodes@[j].parent == Some(data as usize));
                            assert(unsigned_of(r) is Ok);
                            unsigned_fits(r);
                            assert(unsigned_of(r) == Ok::<nat, Error>(number as nat + 1));
                        }
                        let i = row_patches_make_every_entry(
                            doc,
                            text,
                            data,
                            j,
                            entries,
                            k,
                            number,
                            e,
                        );
                        assert(list[i] == patches[i]);
                    } else {
                        assert(!now.contains(at.0)) by {
                            if now.contains(at.0) {
                                let m = choose|m: int| 0 <= m < now.len() && now[m] == at.0;
                                assert(done[m] == at.0);
                            }
                        }
                        let i = choose|i: int|
                            0 <= i < rest.len() && makes(doc, text, data, #[trigger] rest[i], at, value);
                        assert(list[patches.len() + i] == rest[i]);
                    }
                }
            }
        }
    }
}

/// Rows that the sheet data has and that are edited are done.
pub proof fn rows_that_are_there_are_done(
    doc: Xml,
    text: Seq<u8>,
    entries: Seq<(Address, String)>,
    data: int,
    j: int,
    done: Seq<u64>,
    e: int,
    m: int,
)
    requires
        0 <= data < j,
        data < doc.nodes@.len(),
        0 <= e < entries.len(),
        rows_patches(
            doc,
            text,
            entries,
            data,
            j,
            crate::tree::end_of(doc.nodes@, data),
            done,
        ) is Ok,
        done.contains(entries[e].0.0) || j <= m && is_row(doc, data, m, entries[e].0.0),
    ensures
        rows_patches(
            doc,
            text,
            entries,
            data,
            j,
            crate::tree::end_of(doc.nodes@, data),
            done,
        )->Ok_0.1.contains(entries[e].0.0),
    decreases crate::tree::end_of(doc.nodes@, data) - j,
{
    let end = crate::tree::end_of(doc.nodes@, data);
    nodes_end_where_nothing_is_inside(doc.nodes@, data, m);
    if j < end {
        if !is_row_of(doc, data, j) {
            rows_that_are_there_are_done(doc, text, entries, data, j + 1, done, e, m);
        } else {
            let number = row_number(doc, j)->Ok_0;
            let k = first_of_row(entries, number, 0);
            if m == j && is_row(doc, data, m, entries[e].0.0) {
                let r = choose|r: Seq<char>| #[trigger]
                    holds_value(doc.attributes@[m]@, "r"@, r) && unsigned_of(r) == Ok::<nat, Error>(
                        entries[e].0.0 as nat + 1,
                    );
                values_are_of_the_first_attribute(doc, m, "r"@, r);
                assert(number == entries[e].0.0);
                first_is_of_the_row(entries, number, 0, e);
            }
            if k >= entries.len() || done.contains(number) {
                rows_that_are_there_are_done(doc, text, entries, data, j + 1, done, e, m);
            } else {
                let now = done.push(number);
                assert(now.last() == number);
                if done.contains(entries[e].0.0) {
                    let l = choose|l: int| 0 <= l < done.len() && done[l] == entries[e].0.0;
                    assert(now[l] == entries[e].0.0);
                }
                if m == j {
                    assert(now[now.len() - 1] == number);
                }
                rows_that_are_there_are_done(doc, text, entries, data, j + 1, now, e, m);
            }
        }
    }
}

pub proof fn unsigned_fits(s: Seq<char>)
    ensures
        unsigned_of(s) matches Ok(n) ==> n <= u64::MAX,
{
    if s.len() > 0 {
        if s[0] == '+' {
            digits_fit(s.skip(1), s.len() - 1);
        } else {
            digits_fit(s, s.len() as int);
        }
    }
}

proof fn digits_fit(s: Seq<char>, n: int)
    ensures
        crate::text::digits_read(s, n) matches Ok(value) ==> value <= u64::MAX,
    decreases n,
{
    if n > 0 {
        digits_fit(s, n - 1);
    }
}

/// The rows that are added make every entry of a row that is not done.
pub proof fn missing_rows_make_every_entry(
    doc: Xml,
    text: Seq<u8>,
    entries: Seq<(Address, String)>,
    data: int,
    k: int,
    done: Seq<u64>,
    e: int,
) -> (i: int)
    requires
        doc.wf(text.len() as int),
        0 <= data < doc.nodes@.len(),
        missing_patches(doc, text, entries, data, k, done) is Ok,
        0 <= k <= e < entries.len(),
        !done.contains(entries[e].0.0),
        forall|m: int| !#[trigger] is_row(doc, data, m, entries[e].0.0),
    ensures
        0 <= i < missing_patches(doc, text, entries, data, k, done)->Ok_0.len(),
        makes(
            doc,
            text,
            data,
            missing_patches(doc, text, entries, data, k, done)->Ok_0[i],
            entries[e].0,
            entries[e].1@,
        ),
        e < after_row(entries, entries[k].0.0, k + 1) ==> i == 0,
        after_row(entries, entries[k].0.0, k + 1) <= e && !done.contains(entries[k].0.0) ==> i >= 1,
    decreases entries.len() - k,
{
    let row = entries[k].0.0;
    let next = after_row(entries, row, k + 1);
    crate::xlsx::after_row_goes_on(entries, row, k + 1);
    let list = missing_patches(doc, text, entries, data, k, done)->Ok_0;
    let rest = missing_patches(doc, text, entries, data, next, done)->Ok_0;
    if e < next {
        entries_are_of_the_row(entries, row, k, e);
        let markup = new_cells_hold_every_entry(doc, text, data, entries, k, row, e);
        let body = new_cells(doc, text, data, entries, k, row)->Ok_0;
        let tag = doc.qualified_of(data, "row"@);
        let number = utf8(" r=\""@) + utf8(crate::text::decimal(row as nat + 1)) + utf8("\">"@);
        let front = utf8("<"@) + tag;
        let close = crate::xlsx::close_tag(tag);
        let patch = missing_row(doc, text, entries, data, k, row)->Ok_0;
        row_goes_into_the_data(doc, text, data, row);
        assert(patch.bytes =~= (front + number) + body + close);
        holds_in(patch.bytes, front + number, body, close, markup);
        assert(patch.bytes =~= front + number + (body + close));
        assert(holds(patch.bytes, number));
        row_place_is_in_order(doc, text, data, row, patch.start);
        assert(adds_row(doc, data, patch, entries[e].0, entries[e].1@));
        assert(list[0] == patch);
        0
    } else {
        let i = missing_rows_make_every_entry(doc, text, entries, data, next, done, e);
        if done.contains(row) {
            i
        } else {
            assert(list[i + 1] == rest[i]);
            i + 1
        }
    }
}

pub proof fn entries_are_of_the_row(entries: Seq<(Address, String)>, row: u64, k: int, e: int)
    requires
        0 <= k <= e < after_row(entries, row, k + 1),
        k < entries.len(),
        entries[k].0.0 == row,
    ensures
        entries[e].0.0 == row,
        e < after_row(entries, row, k),
    decreases e - k,
{
    crate::xlsx::after_row_goes_on(entries, row, k + 1);
    if k < e {
        entries_are_of_the_row(entries, row, k + 1, e);
    }
}

/// A native XLSX save makes every edit: for each of them the sheet part that is written holds
/// the new text in a cell of its address. That is the stored cell, replaced as a whole, or a
/// new one at its place in the row of that number, or in a new row at its place.
pub proof fn every_edit_is_made(doc: Xml, text: Seq<u8>, entries: Seq<(Address, String)>, e: int)
    requires
        doc.wf(text.len() as int),
        forall|i: int, j: int|
            0 <= i < j < entries.len() ==> before(
                (#[trigger] entries[i]).0,
                (#[trigger] entries[j]).0,
            ),
        0 <= e < entries.len(),
        patched_xlsx(doc, text, entries) is Ok,
    ensures
        exists|data: int, patch: PatchView|
            {
                &&& 0 <= data < doc.nodes@.len()
                &&& doc.nodes@[data].name@ == "sheetData"@
                &&& #[trigger] makes(doc, text, data, patch, entries[e].0, entries[e].1@)
                &&& xlsx_patches(doc, text, entries)->Ok_0.contains(patch)
                &&& holds(patched_xlsx(doc, text, entries)->Ok_0, patch.bytes)
            },
{
    let data = first_named(doc, "sheetData"@, 0);
    data_is_named(doc, "sheetData"@, 0);
    let list = xlsx_patches(doc, text, entries)->Ok_0;
    let end = crate::tree::end_of(doc.nodes@, data);
    let dimension = dimension_patches(doc, entries)->Ok_0;
    let (rows, done) = rows_patches(
        doc,
        text,
        entries,
        data,
        data + 1,
        end,
        Seq::empty(),
    )->Ok_0;
    let missing = missing_patches(doc, text, entries, data, 0, done)->Ok_0;
    let (at, value) = (entries[e].0, entries[e].1@);
    assert(list == dimension + rows + missing);
    rows_make_every_entry(doc, text, entries, data, data + 1, Seq::empty(), e);
    let i = if done.contains(at.0) {
        assert(!Seq::<u64>::empty().contains(at.0));
        let i = choose|i: int|
            0 <= i < rows.len() && makes(doc, text, data, #[trigger] rows[i], at, value);
        assert(list[dimension.len() + i] == rows[i]);
        dimension.len() + i
    } else {
        assert forall|m: int| !#[trigger] is_row(doc, data, m, at.0) by {
            if is_row(doc, data, m, at.0) {
                rows_that_are_there_are_done(
                    doc,
                    text,
                    entries,
                    data,
                    data + 1,
                    Seq::empty(),
                    e,
                    m,
                );
            }
        }
        let i = missing_rows_make_every_entry(doc, text, entries, data, 0, done, e);
        assert(list[dimension.len() + rows.len() + i] == missing[i]);
        dimension.len() + rows.len() + i
    };
    crate::kept::xlsx_patches_lie_within(doc, text, entries);
    let (a, b) = crate::placed::patches_stand_in_the_result(text, list, i);
    let patch = list[i];
    assert(patched_xlsx(doc, text, entries)->Ok_0 == a + patch.bytes + b);
    assert(holds(patched_xlsx(doc, text, entries)->Ok_0, patch.bytes));
    assert(list.contains(patch));
    assert(makes(doc, text, data, patch, at, value));
}

pub proof fn data_is_named(doc: Xml, name: Seq<char>, i: int)
    requires
        0 <= i,
    ensures
        first_named(doc, name, i) < doc.nodes@.len() ==> i <= first_named(doc, name, i)
            && doc.nodes@[first_named(doc, name, i)].name@ == name,
    decreases doc.nodes@.len() - i,
{
    if i < doc.nodes@.len() && doc.nodes@[i].name@ != name {
        data_is_named(doc, name, i + 1);
    }
}

} // verus!
