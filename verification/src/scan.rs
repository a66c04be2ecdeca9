//! What a sheet part says of its cells beside their values: merged and array rectangles,
//! whether there are formulas, and ODS text with tabs and line breaks.
use crate::a1::Address;
use crate::cells::Cells;
use crate::error::Error;
use crate::ods::{is_cell_of, ods_text, repeat, repeat_of, row_cell, shown_text};
use crate::package::{OFFICE, TABLE, TEXT};
use crate::text::same;
use crate::tree::{is_child, is_tag, value_in};
use crate::workbook::{cell_range, Format};
use crate::xml::Xml;
use vstd::prelude::*;

verus! {

/// Read-only rectangles, and text by cell that stands in place of what a reader gives.
#[verifier::ext_equal]
pub struct Marks {
    pub protected: Seq<(Address, Address)>,
    pub overrides: Map<Address, Seq<char>>,
}

/// What a sheet part says of its cells beside their values.
#[derive(Debug)]
pub struct Scan {
    pub protected: Vec<(Address, Address)>,
    pub overrides: Cells,
    pub has_formulas: bool,
}

impl Scan {
    /// The rectangles and texts that were found; whether there are formulas is beside them.
    pub open spec fn marks(self) -> Marks {
        Marks { protected: self.protected@, overrides: self.overrides@ }
    }
}

/// Node `i` marks a merged or array rectangle of an XLSX sheet.
pub open spec fn is_rectangle(doc: Xml, i: int) -> bool {
    ||| doc.nodes@[i].name@ == "mergeCell"@
    ||| doc.nodes@[i].name@ == "f"@ && crate::tree::value(doc, i, "t"@) == Some("array"@)
}

/// The merged and array rectangles of an XLSX sheet from node `i` on.
pub open spec fn rectangles_from(doc: Xml, i: int) -> Result<Seq<(Address, Address)>, Error>
    decreases doc.nodes@.len() - i,
{
    if i >= doc.nodes@.len() {
        Ok(Seq::empty())
    } else if !is_rectangle(doc, i) || crate::tree::value(doc, i, "ref"@) is None {
        rectangles_from(doc, i + 1)
    } else {
        match crate::workbook::cell_range_of(crate::tree::value(doc, i, "ref"@)->0) {
            Err(error) => Err(error),
            Ok(range) => match rectangles_from(doc, i + 1) {
                Err(error) => Err(error),
                Ok(rest) => Ok(seq![range] + rest),
            },
        }
    }
}

fn marks_rectangle(doc: &Xml, i: usize) -> (r: bool)
    requires
        doc.attributes@.len() == doc.nodes@.len(),
        i < doc.nodes@.len(),
    ensures
        r == is_rectangle(*doc, i as int),
{
    if doc.is_named(i, "mergeCell") {
        return true;
    }
    doc.is_named(i, "f") && match doc.attribute(i, "t") {
        None => false,
        Some(a) => same(a.value.as_str(), "array"),
    }
}

/// The merged and array rectangles of an XLSX sheet.
fn rectangles(doc: &Xml) -> (r: Result<Vec<(Address, Address)>, Error>)
    requires
        doc.attributes@.len() == doc.nodes@.len(),
    ensures
        match r {
            Ok(list) => rectangles_from(*doc, 0) == Ok::<Seq<(Address, Address)>, Error>(list@),
            Err(error) => rectangles_from(*doc, 0) == Err::<Seq<(Address, Address)>, Error>(error),
        },
{
    let mut list: Vec<(Address, Address)> = Vec::new();
    let mut i: usize = 0;
    let ghost whole = rectangles_from(*doc, 0);
    proof {
        if let Ok(all) = whole {
            assert(list@ + all =~= all);
        }
    }
    while i < doc.nodes.len()
        invariant
            doc.attributes@.len() == doc.nodes@.len(),
            i <= doc.nodes@.len(),
            whole == rectangles_from(*doc, 0),
            match rectangles_from(*doc, i as int) {
                Ok(rest) => whole == Ok::<Seq<(Address, Address)>, Error>(list@ + rest),
                Err(error) => whole == Err::<Seq<(Address, Address)>, Error>(error),
            },
        decreases doc.nodes@.len() - i,
    {
        if marks_rectangle(doc, i) {
            if let Some(a) = doc.attribute(i, "ref") {
                match cell_range(a.value.as_str()) {
                    Err(error) => {
                        return Err(error);
                    },
                    Ok(range) => {
                        let ghost before = list@;
                        list.push(range);
                        proof {
                            if let Ok(rest) = rectangles_from(*doc, i + 1) {
                                assert(before + (seq![range] + rest) =~= list@ + rest);
                            }
                        }
                    },
                }
            }
        }
        i = i + 1;
    }
    assert(list@ + Seq::<(Address, Address)>::empty() =~= list@);
    Ok(list)
}

/// A tab or a line break stands at node `j` or after it.
pub open spec fn has_break(doc: Xml, j: int, end: int) -> bool
    decreases end - j,
{
    j < end && (is_tag(doc.nodes@[j], TEXT@, "tab"@) || is_tag(
        doc.nodes@[j],
        TEXT@,
        "line-break"@,
    ) || has_break(doc, j + 1, end))
}

/// A string cell whose paragraphs hold a tab or a line break.
pub open spec fn is_broken_text(doc: Xml, i: int) -> bool {
    &&& value_in(doc, i, OFFICE@, "value-type"@) == Some("string"@)
    &&& value_in(doc, i, OFFICE@, "string-value"@) is None
    &&& has_break(doc, i, crate::tree::end_of(doc.nodes@, i))
}

/// The text of the paragraphs of a cell from node `j` on, each with what stands before it:
/// nothing before the first, a line feed before the others.
pub open spec fn paragraphs(doc: Xml, i: int, j: int, end: int, first: bool) -> Result<
    Seq<char>,
    Error,
>
    decreases end - j,
{
    if j >= end {
        Ok(Seq::empty())
    } else if !(is_child(doc.nodes@[j], i) && is_tag(doc.nodes@[j], TEXT@, "p"@)) {
        paragraphs(doc, i, j + 1, end, first)
    } else {
        match shown_text(doc, j) {
            Err(error) => Err(error),
            Ok(text) => match paragraphs(doc, i, j + 1, end, false) {
                Err(error) => Err(error),
                Ok(rest) => Ok(
                    (if first {
                        text
                    } else {
                        seq!['\n'] + text
                    }) + rest,
                ),
            },
        }
    }
}

fn broken_text(doc: &Xml, i: usize) -> (r: bool)
    requires
        doc.attributes@.len() == doc.nodes@.len(),
        i < doc.nodes@.len(),
    ensures
        r == is_broken_text(*doc, i as int),
{
    let string = match doc.attribute_in(i, OFFICE, "value-type") {
        None => false,
        Some(a) => same(a.value.as_str(), "string"),
    };
    if !string || doc.attribute_in(i, OFFICE, "string-value").is_some() {
        return false;
    }
    let end = doc.end(i);
    let mut j: usize = i;
    while j < end
        invariant
            i <= j <= end <= doc.nodes@.len(),
            has_break(*doc, i as int, end as int) == has_break(*doc, j as int, end as int),
            end == crate::tree::end_of(doc.nodes@, i as int),
            value_in(*doc, i as int, OFFICE@, "value-type"@) == Some("string"@),
            value_in(*doc, i as int, OFFICE@, "string-value"@) is None,
        decreases end - j,
    {
        if doc.has_tag(j, TEXT, "tab") || doc.has_tag(j, TEXT, "line-break") {
            return true;
        }
        j = j + 1;
    }
    false
}

fn read_paragraphs(doc: &Xml, i: usize) -> (r: Result<String, Error>)
    requires
        doc.attributes@.len() == doc.nodes@.len(),
        i < doc.nodes@.len(),
    ensures
        ({
            let expected = paragraphs(
                *doc,
                i as int,
                i + 1,
                crate::tree::end_of(doc.nodes@, i as int),
                true,
            );
            match r {
                Ok(text) => expected == Ok::<Seq<char>, Error>(text@),
                Err(error) => expected == Err::<Seq<char>, Error>(error),
            }
        }),
{
    let end = doc.end(i);
    let mut out = String::new();
    let mut first = true;
    let mut j: usize = i + 1;
    let ghost whole = paragraphs(*doc, i as int, i + 1, end as int, true);
    proof {
        if let Ok(all) = whole {
            assert(out@ + all =~= all);
        }
    }
    while j < end
        invariant
            doc.attributes@.len() == doc.nodes@.len(),
            i < j <= end <= doc.nodes@.len(),
            end == crate::tree::end_of(doc.nodes@, i as int),
            whole == paragraphs(*doc, i as int, i + 1, end as int, true),
            match paragraphs(*doc, i as int, j as int, end as int, first) {
                Ok(rest) => whole == Ok::<Seq<char>, Error>(out@ + rest),
                Err(error) => whole == Err::<Seq<char>, Error>(error),
            },
        decreases end - j,
    {
        if doc.child_of(j, i) && doc.has_tag(j, TEXT, "p") {
            match ods_text(doc, j) {
                Err(error) => {
                    return Err(error);
                },
                Ok(text) => {
                    let ghost before = out@;
                    let ghost start = first;
                    if !first {
                        out.push('\n');
                    }
                    out.append(text.as_str());
                    first = false;
                    proof {
                        let piece = if start {
                            text@
                        } else {
                            seq!['\n'] + text@
                        };
                        assert(out@ =~= before + piece);
                        if let Ok(rest) = paragraphs(*doc, i as int, j + 1, end as int, false) {
                            assert(before + (piece + rest) =~= out@ + rest);
                        }
                    }
                },
            }
        }
        j = j + 1;
    }
    assert(out@ + Seq::<char>::empty() =~= out@);
    Ok(out)
}

/// The cell is in the rectangle whose last corner is not part of it.
pub open spec fn is_between(at: Address, from: Address, to: Address) -> bool {
    from.0 <= at.0 < to.0 && from.1 <= at.1 < to.1
}

/// The cells of a rectangle hold this text.
pub open spec fn filled(
    cells: Map<Address, Seq<char>>,
    from: Address,
    to: Address,
    text: Seq<char>,
) -> Map<Address, Seq<char>> {
    cells.union_prefer_right(
        Map::new(|at: Address| is_between(at, from, to), |at: Address| text),
    )
}

fn fill_row(cells: &mut Cells, row: u64, from: usize, to: usize, text: &str)
    requires
        old(cells).wf(),
        row < u64::MAX,
        from <= to,
    ensures
        final(cells).wf(),
        final(cells)@ == filled(old(cells)@, (row, from), ((row + 1) as u64, to), text@),
{
    let ghost was = cells@;
    let mut col: usize = from;
    assert(cells@ =~= filled(was, (row, from), ((row + 1) as u64, from), text@));
    while col < to
        invariant
            from <= col <= to,
            row < u64::MAX,
            cells.wf(),
            cells@ == filled(was, (row, from), ((row + 1) as u64, col), text@),
        decreases to - col,
    {
        cells.insert((row, col), text.to_owned());
        col = col + 1;
        assert(cells@ =~= filled(was, (row, from), ((row + 1) as u64, col), text@));
    }
}

/// Every cell of a rectangle, whose last corner is not part of it, gets this text.
fn fill(cells: &mut Cells, from: Address, to: Address, text: &str)
    requires
        old(cells).wf(),
        from.0 <= to.0,
        from.1 <= to.1,
    ensures
        final(cells).wf(),
        final(cells)@ == filled(old(cells)@, from, to, text@),
{
    let ghost was = cells@;
    let mut row: u64 = from.0;
    assert(cells@ =~= filled(was, from, (from.0, to.1), text@));
    while row < to.0
        invariant
            from.0 <= row <= to.0,
            from.1 <= to.1,
            cells.wf(),
            cells@ == filled(was, from, (row, to.1), text@),
        decreases to.0 - row,
    {
        fill_row(cells, row, from.1, to.1, text);
        row = row + 1;
        assert(cells@ =~= filled(was, from, (row, to.1), text@));
    }
}

/// A cell that covers others or is covered.
pub open spec fn is_spanned(doc: Xml, j: int) -> bool {
    ||| is_tag(doc.nodes@[j], TABLE@, "covered-table-cell"@)
    ||| value_in(doc, j, TABLE@, "number-columns-spanned"@) is Some
    ||| value_in(doc, j, TABLE@, "number-rows-spanned"@) is Some
    ||| value_in(doc, j, TABLE@, "number-matrix-columns-spanned"@) is Some
    ||| value_in(doc, j, TABLE@, "number-matrix-rows-spanned"@) is Some
}

/// The larger of two repetitions.
pub open spec fn larger_repeat(doc: Xml, j: int, a: Seq<char>, b: Seq<char>) -> Result<
    u64,
    Error,
> {
    match repeat_of(doc, j, a) {
        Err(error) => Err(error),
        Ok(m) => match repeat_of(doc, j, b) {
            Err(error) => Err(error),
            Ok(n) => Ok(
                if n > m {
                    n
                } else {
                    m
                },
            ),
        },
    }
}

fn larger_repetition(doc: &Xml, j: usize, a: &str, b: &str) -> (r: Result<u64, Error>)
    requires
        j < doc.attributes@.len(),
    ensures
        r == larger_repeat(*doc, j as int, a@, b@),
        r matches Ok(n) ==> n >= 1,
{
    match repeat(doc, j, a) {
        Err(error) => Err(error),
        Ok(m) => match repeat(doc, j, b) {
            Err(error) => Err(error),
            Ok(n) => Ok(
                if n > m {
                    n
                } else {
                    m
                },
            ),
        },
    }
}

/// The rectangle that a spanned cell and its repetitions cover, from its first corner and
/// the corner after its repetitions.
pub open spec fn spanned_range(doc: Xml, j: int, from: Address, to: Address) -> Result<
    (Address, Address),
    Error,
> {
    match larger_repeat(doc, j, "number-rows-spanned"@, "number-matrix-rows-spanned"@) {
        Err(error) => Err(error),
        Ok(rows) => match larger_repeat(
            doc,
            j,
            "number-columns-spanned"@,
            "number-matrix-columns-spanned"@,
        ) {
            Err(error) => Err(error),
            Ok(cols) => if to.0 - 1 + rows - 1 > u64::MAX {
                Err(Error::OdsRowOverflow)
            } else if to.1 - 1 + cols - 1 > usize::MAX {
                Err(Error::OdsColumnOverflow)
            } else {
                Ok((from, ((to.0 - 1 + rows - 1) as u64, (to.1 - 1 + cols - 1) as usize)))
            },
        },
    }
}

fn find_spanned(doc: &Xml, j: usize, from: Address, to: Address) -> (r: Result<
    (Address, Address),
    Error,
>)
    requires
        j < doc.attributes@.len(),
        to.0 > 0,
        to.1 > 0,
    ensures
        r == spanned_range(*doc, j as int, from, to),
{
    let rows = match larger_repetition(
        doc,
        j,
        "number-rows-spanned",
        "number-matrix-rows-spanned",
    ) {
        Ok(n) => n,
        Err(error) => {
            return Err(error);
        },
    };
    let cols = match larger_repetition(
        doc,
        j,
        "number-columns-spanned",
        "number-matrix-columns-spanned",
    ) {
        Ok(n) => n,
        Err(error) => {
            return Err(error);
        },
    };
    let row: u64 = match (to.0 - 1).checked_add(rows - 1) {
        Some(row) => row,
        None => {
            return Err(Error::OdsRowOverflow);
        },
    };
    let reach: u128 = (to.1 - 1) as u128 + (cols - 1) as u128;
    if reach > usize::MAX as u128 {
        return Err(Error::OdsColumnOverflow);
    }
    Ok((from, (row, reach as usize)))
}

fn spanned(doc: &Xml, j: usize) -> (r: bool)
    requires
        doc.attributes@.len() == doc.nodes@.len(),
        j < doc.nodes@.len(),
    ensures
        r == is_spanned(*doc, j as int),
{
    doc.has_tag(j, TABLE, "covered-table-cell") || doc.attribute_in(
        j,
        TABLE,
        "number-columns-spanned",
    ).is_some() || doc.attribute_in(j, TABLE, "number-rows-spanned").is_some() || doc.attribute_in(
        j,
        TABLE,
        "number-matrix-columns-spanned",
    ).is_some() || doc.attribute_in(j, TABLE, "number-matrix-rows-spanned").is_some()
}

/// The column after the repetitions of a cell that starts at `col`.
pub open spec fn next_col(doc: Xml, j: int, col: usize) -> Result<usize, Error> {
    match repeat_of(doc, j, "number-columns-repeated"@) {
        Err(error) => Err(error),
        Ok(n) => if col + n > usize::MAX {
            Err(Error::OdsColumnOverflow)
        } else {
            Ok((col + n) as usize)
        },
    }
}

/// The column after the repetitions of a cell that starts at `col`.
pub fn find_next_col(doc: &Xml, j: usize, col: usize) -> (r: Result<usize, Error>)
    requires
        j < doc.attributes@.len(),
    ensures
        r == next_col(*doc, j as int, col),
        r matches Ok(next) ==> col < next,
{
    match repeat(doc, j, "number-columns-repeated") {
        Err(error) => Err(error),
        Ok(n) => {
            let next: u128 = col as u128 + n as u128;
            if next > usize::MAX as u128 {
                Err(Error::OdsColumnOverflow)
            } else {
                Ok(next as usize)
            }
        },
    }
}

/// The row after the repetitions of a row that starts at `row`.
pub open spec fn next_row(doc: Xml, j: int, row: u64) -> Result<u64, Error> {
    match repeat_of(doc, j, "number-rows-repeated"@) {
        Err(error) => Err(error),
        Ok(n) => if row + n > u64::MAX {
            Err(Error::OdsRowOverflow)
        } else {
            Ok((row + n) as u64)
        },
    }
}

/// The row after the repetitions of a row that starts at `row`.
pub fn find_next_row(doc: &Xml, j: usize, row: u64) -> (r: Result<u64, Error>)
    requires
        j < doc.attributes@.len(),
    ensures
        r == next_row(*doc, j as int, row),
        r matches Ok(next) ==> row < next,
{
    match repeat(doc, j, "number-rows-repeated") {
        Err(error) => Err(error),
        Ok(n) => match row.checked_add(n) {
            Some(next) => Ok(next),
            None => Err(Error::OdsRowOverflow),
        },
    }
}

/// The marks after one cell, from its first corner and the corner after its repetitions.
pub open spec fn cell_marks(doc: Xml, j: int, from: Address, to: Address, marks: Marks) -> Result<
    Marks,
    Error,
> {
    let end = crate::tree::end_of(doc.nodes@, j);
    let text = paragraphs(doc, j, j + 1, end, true);
    if is_broken_text(doc, j) && text is Err {
        Err(text->Err_0)
    } else {
        let overrides = if is_broken_text(doc, j) {
            filled(marks.overrides, from, to, text->Ok_0)
        } else {
            marks.overrides
        };
        if is_spanned(doc, j) {
            match spanned_range(doc, j, from, to) {
                Err(error) => Err(error),
                Ok(range) => Ok(Marks { protected: marks.protected.push(range), overrides }),
            }
        } else {
            Ok(Marks { protected: marks.protected, overrides })
        }
    }
}

/// The marks after the cells of a row from node `j` on, which starts at row `rows.0` and
/// repeats up to row `rows.1`.
pub open spec fn row_marks(
    doc: Xml,
    row: int,
    j: int,
    end: int,
    rows: (u64, u64),
    col: usize,
    marks: Marks,
) -> Result<Marks, Error>
    decreases end - j,
{
    if j >= end {
        Ok(marks)
    } else if !is_cell_of(doc, row, j) {
        row_marks(doc, row, j + 1, end, rows, col, marks)
    } else {
        match next_col(doc, j, col) {
            Err(error) => Err(error),
            Ok(next) => match cell_marks(doc, j, (rows.0, col), (rows.1, next), marks) {
                Err(error) => Err(error),
                Ok(now) => row_marks(doc, row, j + 1, end, rows, next, now),
            },
        }
    }
}

/// The marks after the rows of a table from node `j` on.
pub open spec fn table_marks(doc: Xml, j: int, end: int, row: u64, marks: Marks) -> Result<
    Marks,
    Error,
>
    decreases end - j,
{
    if j >= end {
        Ok(marks)
    } else if !is_tag(doc.nodes@[j], TABLE@, "table-row"@) {
        table_marks(doc, j + 1, end, row, marks)
    } else {
        match next_row(doc, j, row) {
            Err(error) => Err(error),
            Ok(next) => match row_marks(
                doc,
                j,
                j + 1,
                crate::tree::end_of(doc.nodes@, j),
                (row, next),
                0,
                marks,
            ) {
                Err(error) => Err(error),
                Ok(now) => table_marks(doc, j + 1, end, next, now),
            },
        }
    }
}

/// The first table with this name from node `i` on.
pub open spec fn table_named(doc: Xml, name: Seq<char>, i: int) -> int
    decreases doc.nodes@.len() - i,
{
    if i >= doc.nodes@.len() {
        doc.nodes@.len() as int
    } else if is_tag(doc.nodes@[i], TABLE@, "table"@) && value_in(doc, i, TABLE@, "name"@) == Some(
        name,
    ) {
        i
    } else {
        table_named(doc, name, i + 1)
    }
}

/// The first table with this name; the number of nodes where there is none.
pub fn find_table(doc: &Xml, name: &str) -> (r: usize)
    requires
        doc.attributes@.len() == doc.nodes@.len(),
    ensures
        r == table_named(*doc, name@, 0),
        r <= doc.nodes@.len(),
{
    let mut i: usize = 0;
    while i < doc.nodes.len()
        invariant
            doc.attributes@.len() == doc.nodes@.len(),
            i <= doc.nodes@.len(),
            table_named(*doc, name@, 0) == table_named(*doc, name@, i as int),
        decreases doc.nodes@.len() - i,
    {
        if doc.has_tag(i, TABLE, "table") {
            if let Some(a) = doc.attribute_in(i, TABLE, "name") {
                if same(a.value.as_str(), name) {
                    return i;
                }
            }
        }
        i = i + 1;
    }
    i
}

/// What a sheet part says of its cells: its marks, and whether it has formulas.
pub open spec fn scan_of(doc: Xml, format: Format, name: Seq<char>) -> Result<
    (Marks, bool),
    Error,
> {
    match format {
        Format::Xlsx => match rectangles_from(doc, 0) {
            Err(error) => Err(error),
            Ok(protected) => Ok(
                (
                    Marks { protected, overrides: Map::empty() },
                    crate::xlsx::first_named(doc, "f"@, 0) < doc.nodes@.len(),
                ),
            ),
        },
        Format::Ods => {
            let table = table_named(doc, name, 0);
            if table >= doc.nodes@.len() {
                Err(Error::MissingOdsSheet)
            } else {
                match table_marks(
                    doc,
                    table,
                    crate::tree::end_of(doc.nodes@, table),
                    0,
                    Marks { protected: Seq::empty(), overrides: Map::empty() },
                ) {
                    Err(error) => Err(error),
                    Ok(marks) => Ok((marks, true)),
                }
            }
        },
    }
}

fn mark_cell(doc: &Xml, j: usize, from: Address, to: Address, scan: &mut Scan) -> (r: Result<
    (),
    Error,
>)
    requires
        doc.attributes@.len() == doc.nodes@.len(),
        j < doc.nodes@.len(),
        old(scan).overrides.wf(),
        from.0 < to.0,
        from.1 < to.1,
    ensures
        final(scan).overrides.wf(),
        final(scan).has_formulas == old(scan).has_formulas,
        match r {
            Ok(()) => cell_marks(*doc, j as int, from, to, old(scan).marks()) == Ok::<Marks, Error>(
                final(scan).marks(),
            ),
            Err(error) => cell_marks(*doc, j as int, from, to, old(scan).marks()) == Err::<
                Marks,
                Error,
            >(error),
        },
{
    if broken_text(doc, j) {
        match read_paragraphs(doc, j) {
            Err(error) => {
                return Err(error);
            },
            Ok(text) => {
                fill(&mut scan.overrides, from, to, text.as_str());
            },
        }
    }
    if spanned(doc, j) {
        match find_spanned(doc, j, from, to) {
            Err(error) => {
                return Err(error);
            },
            Ok(range) => {
                scan.protected.push(range);
            },
        }
    }
    Ok(())
}

fn mark_row(doc: &Xml, row: usize, rows: (u64, u64), scan: &mut Scan) -> (r: Result<(), Error>)
    requires
        doc.attributes@.len() == doc.nodes@.len(),
        row < doc.nodes@.len(),
        old(scan).overrides.wf(),
        rows.0 < rows.1,
    ensures
        final(scan).overrides.wf(),
        final(scan).has_formulas == old(scan).has_formulas,
        ({
            let expected = row_marks(
                *doc,
                row as int,
                row + 1,
                crate::tree::end_of(doc.nodes@, row as int),
                rows,
                0,
                old(scan).marks(),
            );
            match r {
                Ok(()) => expected == Ok::<Marks, Error>(final(scan).marks()),
                Err(error) => expected == Err::<Marks, Error>(error),
            }
        }),
{
    let end = doc.end(row);
    let ghost whole = row_marks(*doc, row as int, row + 1, end as int, rows, 0, scan.marks());
    let mut col: usize = 0;
    let mut j: usize = row + 1;
    while j < end
        invariant
            doc.attributes@.len() == doc.nodes@.len(),
            row < j <= end <= doc.nodes@.len(),
            end == crate::tree::end_of(doc.nodes@, row as int),
            rows.0 < rows.1,
            scan.overrides.wf(),
            scan.has_formulas == old(scan).has_formulas,
            whole == row_marks(
                *doc,
                row as int,
                row + 1,
                end as int,
                rows,
                0,
                old(scan).marks(),
            ),
            whole == row_marks(*doc, row as int, j as int, end as int, rows, col, scan.marks()),
        decreases end - j,
    {
        if row_cell(doc, row, j) {
            let next = match find_next_col(doc, j, col) {
                Ok(next) => next,
                Err(error) => {
                    return Err(error);
                },
            };
            match mark_cell(doc, j, (rows.0, col), (rows.1, next), scan) {
                Ok(()) => {},
                Err(error) => {
                    return Err(error);
                },
            }
            col = next;
        }
        j = j + 1;
    }
    Ok(())
}

fn mark_table(doc: &Xml, table: usize) -> (r: Result<Scan, Error>)
    requires
        doc.attributes@.len() == doc.nodes@.len(),
        table < doc.nodes@.len(),
    ensures
        ({
            let expected = table_marks(
                *doc,
                table as int,
                crate::tree::end_of(doc.nodes@, table as int),
                0,
                Marks { protected: Seq::empty(), overrides: Map::empty() },
            );
            match r {
                Ok(scan) => expected == Ok::<Marks, Error>(scan.marks()) && scan.overrides.wf()
                    && scan.has_formulas,
                Err(error) => expected == Err::<Marks, Error>(error),
            }
        }),
{
    let end = doc.end(table);
    let ghost none = Marks { protected: Seq::empty(), overrides: Map::empty() };
    let ghost whole = table_marks(*doc, table as int, end as int, 0, none);
    let mut scan = Scan { protected: Vec::new(), overrides: Cells::new(), has_formulas: true };
    assert(scan.marks() =~= none);
    let mut row: u64 = 0;
    let mut j: usize = table;
    while j < end
        invariant
            doc.attributes@.len() == doc.nodes@.len(),
            table <= j <= end <= doc.nodes@.len(),
            end == crate::tree::end_of(doc.nodes@, table as int),
            scan.overrides.wf(),
            scan.has_formulas,
            whole == table_marks(*doc, table as int, end as int, 0, none),
            none == (Marks { protected: Seq::empty(), overrides: Map::empty() }),
            whole == table_marks(*doc, j as int, end as int, row, scan.marks()),
        decreases end - j,
    {
        if doc.has_tag(j, TABLE, "table-row") {
            let next = match find_next_row(doc, j, row) {
                Ok(next) => next,
                Err(error) => {
                    return Err(error);
                },
            };
            match mark_row(doc, j, (row, next), &mut scan) {
                Ok(()) => {},
                Err(error) => {
                    return Err(error);
                },
            }
            row = next;
        }
        j = j + 1;
    }
    Ok(scan)
}

/// What a sheet part says of its cells beside their values.
pub fn scan(doc: &Xml, format: Format, name: &str) -> (r: Result<Scan, Error>)
    requires
        doc.attributes@.len() == doc.nodes@.len(),
    ensures
        match r {
            Ok(scan) => scan_of(*doc, format, name@) == Ok::<(Marks, bool), Error>(
                (scan.marks(), scan.has_formulas),
            ) && scan.overrides.wf(),
            Err(error) => scan_of(*doc, format, name@) == Err::<(Marks, bool), Error>(error),
        },
{
    match format {
        Format::Xlsx => match rectangles(doc) {
            Err(error) => Err(error),
            Ok(protected) => {
                let first = crate::xlsx::find_named(doc, "f");
                Ok(
                    Scan {
                        protected,
                        overrides: Cells::new(),
                        has_formulas: first < doc.nodes.len(),
                    },
                )
            },
        },
        Format::Ods => {
            let table = find_table(doc, name);
            if table >= doc.nodes.len() {
                Err(Error::MissingOdsSheet)
            } else {
                mark_table(doc, table)
            }
        },
    }
}

} // verus!
