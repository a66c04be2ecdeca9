//! Reading the cells of an ODS sheet: repetition, text, limits and read-only cells.
use crate::error::Error;
use crate::package::{OFFICE, TABLE, TEXT, XML_LIMIT};
use crate::text::parse_unsigned;
use crate::tree::{is_child, is_tag, value_in};
use crate::workbook::{address, check_size, fits, Format, ROW_LIMIT};
use crate::xml::Xml;
use vstd::prelude::*;

verus! {

/// How often an element repeats, by this attribute.
pub open spec fn repeat_of(doc: Xml, i: int, name: Seq<char>) -> Result<u64, Error> {
    match value_in(doc, i, TABLE@, name) {
        None => Ok(1),
        Some(text) => match crate::text::unsigned_of(text) {
            Err(error) => Err(error),
            Ok(n) => if n == 0 || n > ROW_LIMIT {
                Err(Error::Repetition)
            } else {
                Ok(n as u64)
            },
        },
    }
}

/// How often an element repeats, by this attribute.
pub fn repeat(doc: &Xml, i: usize, name: &str) -> (r: Result<u64, Error>)
    requires
        i < doc.attributes@.len(),
    ensures
        r == repeat_of(*doc, i as int, name@),
        r matches Ok(n) ==> 1 <= n <= ROW_LIMIT,
{
    match doc.attribute_in(i, TABLE, name) {
        None => Ok(1),
        Some(a) => match parse_unsigned(a.value.as_str()) {
            Err(error) => Err(error),
            Ok(n) => if n == 0 || n > ROW_LIMIT {
                Err(Error::Repetition)
            } else {
                Ok(n)
            },
        },
    }
}

/// So many spaces.
pub open spec fn spaces(n: nat) -> Seq<char> {
    Seq::new(n, |i: int| ' ')
}

/// How many spaces an element stands for.
pub open spec fn space_count(doc: Xml, i: int) -> Result<nat, Error> {
    match value_in(doc, i, TEXT@, "c"@) {
        None => Ok(1),
        Some(text) => match crate::text::unsigned_of(text) {
            Err(error) => Err(error),
            Ok(n) => if n > XML_LIMIT {
                Err(Error::TextRepetition)
            } else {
                Ok(n)
            },
        },
    }
}

/// The text that a node shows: tabs, line breaks and runs of spaces are elements, and
/// annotations show nothing.
pub open spec fn shown_text(doc: Xml, i: int) -> Result<Seq<char>, Error>
    decreases doc.nodes@.len() - i, 0int,
{
    let node = doc.nodes@[i];
    if i < 0 || i >= doc.nodes@.len() {
        Ok(Seq::empty())
    } else if node.is_text {
        Ok(
            match node.text {
                Some(text) => text@,
                None => Seq::empty(),
            },
        )
    } else if is_tag(node, TEXT@, "tab"@) {
        Ok(seq!['\t'])
    } else if is_tag(node, TEXT@, "line-break"@) {
        Ok(seq!['\n'])
    } else if is_tag(node, TEXT@, "s"@) {
        match space_count(doc, i) {
            Err(error) => Err(error),
            Ok(n) => Ok(spaces(n)),
        }
    } else if is_tag(node, OFFICE@, "annotation"@) {
        Ok(Seq::empty())
    } else {
        children_text(doc, i, i + 1, crate::tree::end_of(doc.nodes@, i))
    }
}

/// The text that the children of node `i` show from node `j` on.
pub open spec fn children_text(doc: Xml, i: int, j: int, end: int) -> Result<Seq<char>, Error>
    decreases doc.nodes@.len() - j, 1int,
{
    if j >= end || j >= doc.nodes@.len() {
        Ok(Seq::empty())
    } else if !is_child(doc.nodes@[j], i) {
        children_text(doc, i, j + 1, end)
    } else {
        match shown_text(doc, j) {
            Err(error) => Err(error),
            Ok(first) => match children_text(doc, i, j + 1, end) {
                Err(error) => Err(error),
                Ok(rest) => Ok(first + rest),
            },
        }
    }
}

fn push_spaces(text: &mut String, n: u64)
    ensures
        final(text)@ == old(text)@ + spaces(n as nat),
{
    let ghost before = text@;
    let mut i: u64 = 0;
    assert(before + spaces(0) =~= before);
    while i < n
        invariant
            i <= n,
            text@ == before + spaces(i as nat),
        decreases n - i,
    {
        text.push(' ');
        i = i + 1;
        assert(text@ =~= before + spaces(i as nat));
    }
}

fn count_spaces(doc: &Xml, i: usize) -> (r: Result<u64, Error>)
    requires
        i < doc.attributes@.len(),
    ensures
        match r {
            Ok(n) => space_count(*doc, i as int) == Ok::<nat, Error>(n as nat),
            Err(error) => space_count(*doc, i as int) == Err::<nat, Error>(error),
        },
{
    match doc.attribute_in(i, TEXT, "c") {
        None => Ok(1),
        Some(a) => match parse_unsigned(a.value.as_str()) {
            Err(error) => Err(error),
            Ok(n) => if n > XML_LIMIT {
                Err(Error::TextRepetition)
            } else {
                Ok(n)
            },
        },
    }
}

/// The text that a node shows.
pub fn ods_text(doc: &Xml, i: usize) -> (r: Result<String, Error>)
    requires
        doc.attributes@.len() == doc.nodes@.len(),
        i < doc.nodes@.len(),
    ensures
        match r {
            Ok(text) => shown_text(*doc, i as int) == Ok::<Seq<char>, Error>(text@),
            Err(error) => shown_text(*doc, i as int) == Err::<Seq<char>, Error>(error),
        },
    decreases doc.nodes@.len() - i,
{
    let mut out = String::new();
    if doc.nodes[i].is_text {
        if let Some(text) = &doc.nodes[i].text {
            out.append(text.as_str());
            assert(out@ =~= text@);
        }
        return Ok(out);
    }
    if doc.has_tag(i, TEXT, "tab") {
        out.push('\t');
        assert(out@ =~= seq!['\t']);
        return Ok(out);
    }
    if doc.has_tag(i, TEXT, "line-break") {
        out.push('\n');
        assert(out@ =~= seq!['\n']);
        return Ok(out);
    }
    if doc.has_tag(i, TEXT, "s") {
        return match count_spaces(doc, i) {
            Err(error) => Err(error),
            Ok(n) => {
                push_spaces(&mut out, n);
                assert(out@ =~= spaces(n as nat));
                Ok(out)
            },
        };
    }
    if doc.has_tag(i, OFFICE, "annotation") {
        return Ok(out);
    }
    let end = doc.end(i);
    let mut j: usize = i + 1;
    let ghost whole = children_text(*doc, i as int, i + 1, end as int);
    proof {
        if let Ok(all) = whole {
            assert(out@ + all =~= all);
        }
    }
    while j < end
        invariant
            doc.attributes@.len() == doc.nodes@.len(),
            i < j <= end <= doc.nodes@.len(),
            whole == shown_text(*doc, i as int),
            match children_text(*doc, i as int, j as int, end as int) {
                Ok(rest) => whole == Ok::<Seq<char>, Error>(out@ + rest),
                Err(error) => whole == Err::<Seq<char>, Error>(error),
            },
        decreases end - j,
    {
        if doc.child_of(j, i) {
            match ods_text(doc, j) {
                Err(error) => {
                    return Err(error);
                },
                Ok(text) => {
                    let ghost before = out@;
                    out.append(text.as_str());
                    proof {
                        if let Ok(rest) = children_text(*doc, i as int, j + 1, end as int) {
                            assert(before + (text@ + rest) =~= out@ + rest);
                        }
                    }
                },
            }
        }
        j = j + 1;
    }
    assert(out@ + Seq::<char>::empty() =~= out@);
    Ok(out)
}

/// The larger of two numbers.
pub open spec fn larger(a: int, b: int) -> int {
    if a > b {
        a
    } else {
        b
    }
}

/// The rows and columns that the cells of an XLSX sheet reach, from node `i` on.
pub open spec fn xlsx_extent(doc: Xml, i: int, rows: int, cols: int) -> Result<(int, int), Error>
    decreases doc.nodes@.len() - i,
{
    if i >= doc.nodes@.len() {
        Ok((rows, cols))
    } else if doc.nodes@[i].name@ != "c"@ {
        xlsx_extent(doc, i + 1, rows, cols)
    } else {
        match crate::tree::value(doc, i, "r"@) {
            None => Err(Error::CellWithoutAddress),
            Some(text) => match crate::workbook::address_of(text) {
                Err(error) => Err(error),
                Ok(at) => xlsx_extent(
                    doc,
                    i + 1,
                    larger(rows, at.0 + 1),
                    larger(cols, at.1 + 1),
                ),
            },
        }
    }
}

/// Node `j` is a cell of a row element.
pub open spec fn is_cell_of(doc: Xml, row: int, j: int) -> bool {
    is_child(doc.nodes@[j], row) && (is_tag(doc.nodes@[j], TABLE@, "table-cell"@) || is_tag(
        doc.nodes@[j],
        TABLE@,
        "covered-table-cell"@,
    ))
}

/// Node `i` has an element child from node `j` on.
pub open spec fn has_element(doc: Xml, i: int, j: int, end: int) -> bool
    decreases end - j,
{
    j < end && (is_child(doc.nodes@[j], i) && doc.nodes@[j].element || has_element(
        doc,
        i,
        j + 1,
        end,
    ))
}

/// A cell holds something.
pub open spec fn is_filled(doc: Xml, j: int) -> bool {
    ||| value_in(doc, j, OFFICE@, "value-type"@) is Some
    ||| value_in(doc, j, TABLE@, "formula"@) is Some
    ||| has_element(doc, j, j + 1, crate::tree::end_of(doc.nodes@, j))
}

/// The rows and columns that filled cells reach after the cells of a row from node `j` on.
pub open spec fn cells_extent(
    doc: Xml,
    row: int,
    j: int,
    end: int,
    rows: int,
    col: int,
    extent: (int, int),
) -> Result<(int, int), Error>
    decreases end - j,
{
    if j >= end {
        Ok(extent)
    } else if !is_cell_of(doc, row, j) {
        cells_extent(doc, row, j + 1, end, rows, col, extent)
    } else {
        match repeat_of(doc, j, "number-columns-repeated"@) {
            Err(error) => Err(error),
            Ok(n) => if col + n > u64::MAX {
                Err(Error::OdsColumnOverflow)
            } else if !is_filled(doc, j) {
                cells_extent(doc, row, j + 1, end, rows, col + n, extent)
            } else {
                let reached = (larger(extent.0, rows), larger(extent.1, col + n));
                if !fits(reached.0, reached.1) {
                    Err(Error::WorkbookCells)
                } else {
                    cells_extent(doc, row, j + 1, end, rows, col + n, reached)
                }
            },
        }
    }
}

/// Why the rows of a table from node `j` on are refused, after `rows` rows.
pub open spec fn rows_extent(
    doc: Xml,
    j: int,
    end: int,
    rows: int,
    extent: (int, int),
) -> Result<(), Error>
    decreases end - j,
{
    if j >= end {
        Ok(())
    } else if !is_tag(doc.nodes@[j], TABLE@, "table-row"@) {
        rows_extent(doc, j + 1, end, rows, extent)
    } else {
        match repeat_of(doc, j, "number-rows-repeated"@) {
            Err(error) => Err(error),
            Ok(n) => if rows + n > u64::MAX {
                Err(Error::OdsRowOverflow)
            } else {
                match cells_extent(
                    doc,
                    j,
                    j + 1,
                    crate::tree::end_of(doc.nodes@, j),
                    rows + n,
                    0,
                    extent,
                ) {
                    Err(error) => Err(error),
                    Ok(reached) => rows_extent(doc, j + 1, end, rows + n, reached),
                }
            },
        }
    }
}

/// Why the tables from node `i` on are refused.
pub open spec fn tables_extent(doc: Xml, i: int) -> Result<(), Error>
    decreases doc.nodes@.len() - i,
{
    if i >= doc.nodes@.len() {
        Ok(())
    } else if !is_tag(doc.nodes@[i], TABLE@, "table"@) {
        tables_extent(doc, i + 1)
    } else {
        match rows_extent(doc, i, crate::tree::end_of(doc.nodes@, i), 0, (0, 0)) {
            Err(error) => Err(error),
            Ok(()) => tables_extent(doc, i + 1),
        }
    }
}

/// Why a sheet part is refused before its values are read.
pub open spec fn preflight_rule(doc: Xml, format: Format) -> Result<(), Error> {
    match format {
        Format::Xlsx => match xlsx_extent(doc, 0, 0, 0) {
            Err(error) => Err(error),
            Ok((rows, cols)) => if fits(rows, cols) {
                Ok(())
            } else {
                Err(Error::WorkbookCells)
            },
        },
        Format::Ods => tables_extent(doc, 0),
    }
}

fn check_xlsx(doc: &Xml) -> (r: Result<(), Error>)
    requires
        doc.attributes@.len() == doc.nodes@.len(),
    ensures
        r == preflight_rule(*doc, Format::Xlsx),
{
    let mut rows: u64 = 0;
    let mut cols: u64 = 0;
    let mut i: usize = 0;
    while i < doc.nodes.len()
        invariant
            doc.attributes@.len() == doc.nodes@.len(),
            i <= doc.nodes@.len(),
            xlsx_extent(*doc, 0, 0, 0) == xlsx_extent(*doc, i as int, rows as int, cols as int),
        decreases doc.nodes@.len() - i,
    {
        if doc.is_named(i, "c") {
            let at = match doc.attribute(i, "r") {
                None => {
                    return Err(Error::CellWithoutAddress);
                },
                Some(a) => match address(a.value.as_str()) {
                    Err(error) => {
                        return Err(error);
                    },
                    Ok(at) => at,
                },
            };
            if at.0 + 1 > rows {
                rows = at.0 + 1;
            }
            if at.1 as u64 + 1 > cols {
                cols = at.1 as u64 + 1;
            }
        }
        i = i + 1;
    }
    check_size(rows, cols)
}

/// Whether node `j` is a cell of a row element.
pub fn row_cell(doc: &Xml, row: usize, j: usize) -> (r: bool)
    requires
        j < doc.nodes@.len(),
    ensures
        r == is_cell_of(*doc, row as int, j as int),
{
    doc.child_of(j, row) && (doc.has_tag(j, TABLE, "table-cell") || doc.has_tag(
        j,
        TABLE,
        "covered-table-cell",
    ))
}

fn filled(doc: &Xml, i: usize) -> (r: bool)
    requires
        doc.attributes@.len() == doc.nodes@.len(),
        i < doc.nodes@.len(),
    ensures
        r == is_filled(*doc, i as int),
{
    if doc.attribute_in(i, OFFICE, "value-type").is_some() || doc.attribute_in(
        i,
        TABLE,
        "formula",
    ).is_some() {
        return true;
    }
    let end = doc.end(i);
    let mut j: usize = i + 1;
    while j < end
        invariant
            i < j <= end <= doc.nodes@.len(),
            has_element(*doc, i as int, i + 1, end as int) == has_element(
                *doc,
                i as int,
                j as int,
                end as int,
            ),
            end == crate::tree::end_of(doc.nodes@, i as int),
        decreases end - j,
    {
        if doc.child_of(j, i) && doc.nodes[j].element {
            return true;
        }
        j = j + 1;
    }
    false
}

/// The new extent, unless it is beyond the import limits.
fn reach_cells(doc: &Xml, row: usize, rows: u64, extent: (u64, u64)) -> (r: Result<
    (u64, u64),
    Error,
>)
    requires
        doc.attributes@.len() == doc.nodes@.len(),
        row < doc.nodes@.len(),
    ensures
        ({
            let expected = cells_extent(
                *doc,
                row as int,
                row + 1,
                crate::tree::end_of(doc.nodes@, row as int),
                rows as int,
                0,
                (extent.0 as int, extent.1 as int),
            );
            match r {
                Ok(reached) => expected == Ok::<(int, int), Error>(
                    (reached.0 as int, reached.1 as int),
                ),
                Err(error) => expected == Err::<(int, int), Error>(error),
            }
        }),
{
    let end = doc.end(row);
    let ghost whole = cells_extent(
        *doc,
        row as int,
        row + 1,
        end as int,
        rows as int,
        0,
        (extent.0 as int, extent.1 as int),
    );
    let mut max_row: u64 = extent.0;
    let mut max_col: u64 = extent.1;
    let mut col: u64 = 0;
    let mut j: usize = row + 1;
    while j < end
        invariant
            doc.attributes@.len() == doc.nodes@.len(),
            row < j <= end <= doc.nodes@.len(),
            end == crate::tree::end_of(doc.nodes@, row as int),
            whole == cells_extent(
                *doc,
                row as int,
                row + 1,
                end as int,
                rows as int,
                0,
                (extent.0 as int, extent.1 as int),
            ),
            whole == cells_extent(
                *doc,
                row as int,
                j as int,
                end as int,
                rows as int,
                col as int,
                (max_row as int, max_col as int),
            ),
        decreases end - j,
    {
        if row_cell(doc, row, j) {
            let n = match repeat(doc, j, "number-columns-repeated") {
                Ok(n) => n,
                Err(error) => {
                    return Err(error);
                },
            };
            col = match col.checked_add(n) {
                Some(next) => next,
                None => {
                    return Err(Error::OdsColumnOverflow);
                },
            };
            if filled(doc, j) {
                if rows > max_row {
                    max_row = rows;
                }
                if col > max_col {
                    max_col = col;
                }
                match check_size(max_row, max_col) {
                    Ok(()) => {},
                    Err(error) => {
                        return Err(error);
                    },
                }
            }
        }
        j = j + 1;
    }
    Ok((max_row, max_col))
}

fn check_table(doc: &Xml, table: usize) -> (r: Result<(), Error>)
    requires
        doc.attributes@.len() == doc.nodes@.len(),
        table < doc.nodes@.len(),
    ensures
        r == rows_extent(
            *doc,
            table as int,
            crate::tree::end_of(doc.nodes@, table as int),
            0,
            (0, 0),
        ),
{
    let end = doc.end(table);
    let mut extent: (u64, u64) = (0, 0);
    let mut rows: u64 = 0;
    let mut j: usize = table;
    while j < end
        invariant
            doc.attributes@.len() == doc.nodes@.len(),
            table <= j <= end <= doc.nodes@.len(),
            end == crate::tree::end_of(doc.nodes@, table as int),
            rows_extent(*doc, table as int, end as int, 0, (0, 0)) == rows_extent(
                *doc,
                j as int,
                end as int,
                rows as int,
                (extent.0 as int, extent.1 as int),
            ),
        decreases end - j,
    {
        if doc.has_tag(j, TABLE, "table-row") {
            let n = match repeat(doc, j, "number-rows-repeated") {
                Ok(n) => n,
                Err(error) => {
                    return Err(error);
                },
            };
            rows = match rows.checked_add(n) {
                Some(next) => next,
                None => {
                    return Err(Error::OdsRowOverflow);
                },
            };
            extent = match reach_cells(doc, j, rows, extent) {
                Ok(reached) => reached,
                Err(error) => {
                    return Err(error);
                },
            };
        }
        j = j + 1;
    }
    Ok(())
}

fn check_ods(doc: &Xml) -> (r: Result<(), Error>)
    requires
        doc.attributes@.len() == doc.nodes@.len(),
    ensures
        r == tables_extent(*doc, 0),
{
    let mut i: usize = 0;
    while i < doc.nodes.len()
        invariant
            doc.attributes@.len() == doc.nodes@.len(),
            i <= doc.nodes@.len(),
            tables_extent(*doc, 0) == tables_extent(*doc, i as int),
        decreases doc.nodes@.len() - i,
    {
        if doc.has_tag(i, TABLE, "table") {
            match check_table(doc, i) {
                Ok(()) => {},
                Err(error) => {
                    return Err(error);
                },
            }
        }
        i = i + 1;
    }
    Ok(())
}

/// Sparse and repeated dimensions are checked before a reader makes dense ranges of them.
pub fn preflight(doc: &Xml, format: Format) -> (r: Result<(), Error>)
    requires
        doc.attributes@.len() == doc.nodes@.len(),
    ensures
        r == preflight_rule(*doc, format),
{
    match format {
        Format::Xlsx => check_xlsx(doc),
        Format::Ods => check_ods(doc),
    }
}

} // verus!
