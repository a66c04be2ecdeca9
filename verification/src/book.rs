//! Opening a sheet of a workbook as a sheet of values.
use crate::a1::Address;
use crate::cells::Cells;
use crate::error::Error;
use crate::ods::{larger, preflight, preflight_rule};
use crate::package::{
    archive, archive_refusal, are_sheets, firsts, format_of, is_document, pair_texts, part_names,
    parts, parts_view, read_document, workbook_format,
};
use crate::reader::{formulas_of, read_formulas, read_values, values_of};
use crate::records::write_line;
use crate::scan::{scan, scan_of, Marks, Scan};
use crate::sheet::Sheet;
use crate::sound::{check_cells, is_sound, sound_without_formulas};
use crate::text::{same, views};
use crate::workbook::{check_size, fits, Format, Workbook};
use crate::xml::{utf8, Xml};
use vstd::prelude::*;

verus! {

/// How a file with this extension opens: as a workbook sheet, or as CSV.
pub open spec fn open_rule(extension: Seq<char>, delimiter: u8, sheet: bool) -> Result<
    Option<Format>,
    Error,
> {
    match format_of(extension) {
        Some(format) => if delimiter != 44 {
            Err(Error::DelimiterNeedsCsv)
        } else {
            Ok(Some(format))
        },
        None => if sheet {
            Err(Error::SheetNeedsWorkbook)
        } else {
            Ok(None)
        },
    }
}

/// How a file with this extension opens: as a workbook sheet, which has no delimiter, or as
/// CSV, which has no sheets.
pub fn open_as(extension: &str, delimiter: u8, sheet: &Option<String>) -> (r: Result<
    Option<Format>,
    Error,
>)
    ensures
        r == open_rule(extension@, delimiter, *sheet is Some),
{
    match workbook_format(extension) {
        Some(format) => if delimiter != 44 {
            Err(Error::DelimiterNeedsCsv)
        } else {
            Ok(Some(format))
        },
        None => if sheet.is_some() {
            Err(Error::SheetNeedsWorkbook)
        } else {
            Ok(None)
        },
    }
}

/// The first sheet with this name from sheet `i` on.
pub open spec fn sheet_named(list: Seq<(Seq<char>, Seq<char>)>, name: Seq<char>, i: int) -> int
    decreases list.len() - i,
{
    if i >= list.len() {
        list.len() as int
    } else if list[i].0 == name {
        i
    } else {
        sheet_named(list, name, i + 1)
    }
}

/// The sheet that is opened: the named one, else the first.
pub open spec fn selected(list: Seq<(Seq<char>, Seq<char>)>, name: Option<Seq<char>>) -> Result<
    int,
    Seq<char>,
> {
    match name {
        Some(name) => {
            let i = sheet_named(list, name, 0);
            if i < list.len() {
                Ok(i)
            } else {
                Err(
                    "No sheet named "@ + crate::a1::debug_text(name) + "; use --sheets"@,
                )
            }
        },
        None => if list.len() == 0 {
            Err(Error::NoSheets.message())
        } else {
            Ok(0)
        },
    }
}

fn find_sheet(list: &Vec<(String, String)>, name: &str) -> (r: usize)
    ensures
        r == sheet_named(pair_texts(list@), name@, 0),
        r <= list@.len(),
{
    let ghost all = pair_texts(list@);
    let mut i: usize = 0;
    while i < list.len() && !same(list[i].0.as_str(), name)
        invariant
            all == pair_texts(list@),
            i <= list@.len(),
            sheet_named(all, name@, 0) == sheet_named(all, name@, i as int),
        decreases list@.len() - i,
    {
        assert(all[i as int].0 == list@[i as int].0@);
        i = i + 1;
    }
    if i < list.len() {
        assert(all[i as int].0 == list@[i as int].0@);
    }
    i
}

/// The sheet that is opened: the named one, else the first.
pub fn select(list: &Vec<(String, String)>, name: &Option<String>) -> (r: Result<usize, Error>)
    ensures
        ({
            let expected = selected(pair_texts(list@), crate::sheet::text_view(*name));
            match r {
                Ok(i) => expected == Ok::<int, Seq<char>>(i as int) && i < list@.len(),
                Err(error) => expected == Err::<int, Seq<char>>(error.message()),
            }
        }),
{
    match name {
        None => if list.len() == 0 {
            Err(Error::NoSheets)
        } else {
            Ok(0)
        },
        Some(text) => {
            let i = find_sheet(list, text.as_str());
            if i < list.len() {
                Ok(i)
            } else {
                Err(Error::NoSheet(text.clone()))
            }
        },
    }
}

/// A sheet that is about to be opened.
#[derive(Debug)]
pub struct Chosen {
    pub name: String,
    pub names: Vec<String>,
    pub format: Format,
    pub part: String,
    pub scan: Scan,
}

/// What is known of a sheet that is about to be opened.
#[verifier::ext_equal]
pub struct ChosenView {
    pub name: Seq<char>,
    pub names: Seq<Seq<char>>,
    pub format: Format,
    pub part: Seq<char>,
    pub marks: Marks,
    pub has_formulas: bool,
}

impl View for Chosen {
    type V = ChosenView;

    open spec fn view(&self) -> ChosenView {
        ChosenView {
            name: self.name@,
            names: views(self.names@),
            format: self.format,
            part: self.part@,
            marks: self.scan.marks(),
            has_formulas: self.scan.has_formulas,
        }
    }
}

/// A sheet by its place in the list of sheets and the document of its part.
pub open spec fn chosen(
    list: Seq<(Seq<char>, Seq<char>)>,
    i: int,
    format: Format,
    doc: Result<Xml, Error>,
) -> Result<ChosenView, Seq<char>> {
    match doc {
        Err(error) => Err(error.message()),
        Ok(xml) => match preflight_rule(xml, format) {
            Err(error) => Err(error.message()),
            Ok(()) => match scan_of(xml, format, list[i].0) {
                Err(error) => Err(error.message()),
                Ok((marks, has_formulas)) => Ok(
                    ChosenView {
                        name: list[i].0,
                        names: firsts(list),
                        format,
                        part: list[i].1,
                        marks,
                        has_formulas,
                    },
                ),
            },
        },
    }
}

/// The outcome of choosing a sheet once the sheets are listed.
pub open spec fn is_choice(
    data: Seq<u8>,
    format: Format,
    name: Option<Seq<char>>,
    list: Result<Seq<(Seq<char>, Seq<char>)>, Seq<char>>,
    r: Result<ChosenView, Seq<char>>,
) -> bool {
    match list {
        Err(reason) => r == Err::<ChosenView, Seq<char>>(reason),
        Ok(all) => match selected(all, name) {
            Err(reason) => r == Err::<ChosenView, Seq<char>>(reason),
            Ok(i) => exists|doc: Result<Xml, Error>| #[trigger]
                is_document(data, all[i].1, doc) && r == chosen(all, i, format, doc),
        },
    }
}

/// The outcome of choosing a sheet of a package.
pub open spec fn is_chosen(
    data: Seq<u8>,
    format: Format,
    name: Option<Seq<char>>,
    r: Result<ChosenView, Seq<char>>,
) -> bool {
    match archive_refusal(data) {
        Some(reason) => r == Err::<ChosenView, Seq<char>>(reason),
        None => exists|list: Result<Seq<(Seq<char>, Seq<char>)>, Seq<char>>| #[trigger]
            are_sheets(data, format, list) && is_choice(data, format, name, list, r),
    }
}

/// What is known of a chosen sheet, with the message of an error.
pub open spec fn choice_view(r: Result<Chosen, Error>) -> Result<ChosenView, Seq<char>> {
    match r {
        Ok(chosen) => Ok(chosen@),
        Err(error) => Err(error.message()),
    }
}

/// The sheet at a place in the list of sheets, unless its part is refused.
pub fn inspect(
    list: &Vec<(String, String)>,
    i: usize,
    format: Format,
    doc: Result<Xml, Error>,
) -> (r: Result<Chosen, Error>)
    requires
        i < list@.len(),
        doc matches Ok(xml) ==> xml.attributes@.len() == xml.nodes@.len(),
    ensures
        choice_view(r) == chosen(pair_texts(list@), i as int, format, doc),
        r matches Ok(chosen) ==> chosen.scan.overrides.wf() && chosen.format == format,
{
    let ghost all = pair_texts(list@);
    assert(all[i as int] == (list@[i as int].0@, list@[i as int].1@));
    match doc {
        Err(error) => Err(error),
        Ok(xml) => match preflight(&xml, format) {
            Err(error) => Err(error),
            Ok(()) => match scan(&xml, format, list[i].0.as_str()) {
                Err(error) => Err(error),
                Ok(scan) => {
                    let found = Chosen {
                        name: list[i].0.clone(),
                        names: part_names(list),
                        format,
                        part: list[i].1.clone(),
                        scan,
                    };
                    Ok(found)
                },
            },
        },
    }
}

/// Choose a sheet of a package: the named one, else the first.
pub fn choose_sheet(data: &[u8], format: Format, name: &Option<String>) -> (r: Result<
    Chosen,
    Error,
>)
    ensures
        is_chosen(data@, format, crate::sheet::text_view(*name), choice_view(r)),
        r matches Ok(chosen) ==> chosen.scan.overrides.wf() && chosen.format == format,
        r is Ok ==> archive_refusal(data@) is None,
{
    match archive(data) {
        Err(error) => Err(error),
        Ok(_) => {
            let found = parts(data, format);
            assert(are_sheets(data@, format, parts_view(found)));
            match found {
                Err(error) => Err(error),
                Ok(list) => match select(&list, name) {
                    Err(error) => Err(error),
                    Ok(i) => {
                        // ODS content holds every sheet, so all of it is checked.
                        let doc = read_document(data, list[i].1.as_str());
                        proof {
                            assert(pair_texts(list@)[i as int].1 == list@[i as int].1@);
                            assert(is_document(data@, pair_texts(list@)[i as int].1, doc));
                        }
                        inspect(&list, i, format, doc)
                    },
                },
            }
        },
    }
}

/// A dense range of a sheet: its first and last cell, and its rows of text.
#[derive(Clone, Debug, PartialEq, Eq)]
pub struct Grid {
    pub start: Option<(u32, u32)>,
    pub end: Option<(u32, u32)>,
    pub rows: Vec<Vec<String>>,
}

/// A dense range of a sheet with its characters.
#[verifier::ext_equal]
pub struct GridView {
    pub start: Option<(u32, u32)>,
    pub end: Option<(u32, u32)>,
    pub rows: Seq<Seq<Seq<char>>>,
}

impl View for Grid {
    type V = GridView;

    open spec fn view(&self) -> GridView {
        GridView {
            start: self.start,
            end: self.end,
            rows: self.rows@.map_values(|row: Vec<String>| views(row@)),
        }
    }
}

/// A range, where there is one, with its characters.
pub open spec fn grid_view(grid: Option<&Grid>) -> Option<GridView> {
    match grid {
        Some(grid) => Some(grid@),
        None => None,
    }
}

impl GridView {
    /// The text of a cell; none outside the range.
    pub open spec fn at(self, row: int, col: int) -> Seq<char> {
        match self.start {
            None => Seq::empty(),
            Some(first) => {
                let (r, c) = (row - first.0, col - first.1);
                if 0 <= r < self.rows.len() && 0 <= c < self.rows[r].len() {
                    self.rows[r][c]
                } else {
                    Seq::empty()
                }
            },
        }
    }
}

impl Grid {
    fn text(&self, row: u64, col: u64) -> (r: String)
        ensures
            r@ == self@.at(row as int, col as int),
    {
        if let Some((first_row, first_col)) = self.start {
            if row >= first_row as u64 && col >= first_col as u64 {
                let r: u64 = row - first_row as u64;
                let c: u64 = col - first_col as u64;
                if r < self.rows.len() as u64 {
                    let line = &self.rows[r as usize];
                    if c < line.len() as u64 {
                        return line[c as usize].clone();
                    }
                }
            }
        }
        let none = String::new();
        assert(none@ =~= Seq::empty());
        none
    }
}

/// The rows and columns of the rectangle from the first cell of the sheet that both ranges
/// reach.
pub open spec fn extent(values: GridView, formulas: Option<GridView>) -> (int, int) {
    let a = corner(Some(values));
    let b = corner(formulas);
    (larger(a.0, b.0), larger(a.1, b.1))
}

/// The rows and columns up to the last cell of a range.
pub open spec fn corner(grid: Option<GridView>) -> (int, int) {
    match grid {
        Some(grid) => match grid.end {
            Some(last) => (last.0 + 1, last.1 + 1),
            None => (0, 0),
        },
        None => (0, 0),
    }
}

fn find_corner(grid: Option<&Grid>) -> (r: (u64, u64))
    ensures
        (r.0 as int, r.1 as int) == corner(grid_view(grid)),
{
    match grid {
        Some(grid) => match grid.end {
            Some((row, col)) => (row as u64 + 1, col as u64 + 1),
            None => (0, 0),
        },
        None => (0, 0),
    }
}

/// The value of an imported cell.
pub open spec fn imported(
    values: GridView,
    overrides: Map<Address, Seq<char>>,
    row: int,
    col: int,
) -> Seq<char> {
    let at = (row as u64, col as usize);
    if overrides.contains_key(at) {
        overrides[at]
    } else {
        values.at(row, col)
    }
}

/// The values of an imported row.
pub open spec fn imported_row(
    values: GridView,
    overrides: Map<Address, Seq<char>>,
    row: int,
    cols: int,
) -> Seq<Seq<char>> {
    Seq::new(cols as nat, |col: int| imported(values, overrides, row, col))
}

/// The values of the first imported rows.
pub open spec fn imported_rows(
    values: GridView,
    overrides: Map<Address, Seq<char>>,
    rows: int,
    cols: int,
) -> Seq<Seq<Seq<char>>> {
    Seq::new(rows as nat, |row: int| imported_row(values, overrides, row, cols))
}

/// The first imported rows as CSV.
pub open spec fn imported_lines(
    values: GridView,
    overrides: Map<Address, Seq<char>>,
    rows: int,
    cols: int,
) -> Seq<u8>
    decreases rows,
{
    if rows <= 0 {
        Seq::empty()
    } else {
        imported_lines(values, overrides, rows - 1, cols) + crate::records::csv_line(
            imported_row(values, overrides, rows - 1, cols),
            44,
        )
    }
}

/// The formulas of the rectangle, by cell.
pub open spec fn imported_formulas(formulas: Option<GridView>, rows: int, cols: int) -> Map<
    Address,
    Seq<char>,
> {
    Map::new(
        |at: Address| at.0 < rows && at.1 < cols && formula_at(formulas, at).len() > 0,
        |at: Address| formula_at(formulas, at),
    )
}

/// The formula of a cell; none where there is none.
pub open spec fn formula_at(formulas: Option<GridView>, at: Address) -> Seq<char> {
    match formulas {
        Some(grid) => grid.at(at.0 as int, at.1 as int),
        None => Seq::empty(),
    }
}

fn import_row(values: &Grid, overrides: &Cells, row: u64, cols: u64) -> (r: Vec<String>)
    requires
        overrides.wf(),
        cols <= usize::MAX,
    ensures
        views(r@) == imported_row(values@, overrides@, row as int, cols as int),
{
    let ghost all = imported_row(values@, overrides@, row as int, cols as int);
    let mut fields: Vec<String> = Vec::new();
    let mut col: u64 = 0;
    assert(views(fields@) =~= all.take(0));
    while col < cols
        invariant
            overrides.wf(),
            cols <= usize::MAX,
            col <= cols,
            all == imported_row(values@, overrides@, row as int, cols as int),
            views(fields@) == all.take(col as int),
        decreases cols - col,
    {
        let ghost before = views(fields@);
        let field = match overrides.get((row, col as usize)) {
            Some(text) => text.clone(),
            None => values.text(row, col),
        };
        let ghost text = field@;
        fields.push(field);
        col = col + 1;
        proof {
            assert(all[col - 1] == imported(values@, overrides@, row as int, col - 1));
            assert(views(fields@) =~= before.push(text));
            assert(views(fields@) =~= all.take(col as int));
        }
    }
    assert(all.take(all.len() as int) =~= all);
    fields
}

/// The imported values read back, where the first does not begin with the character that is
/// also the byte order mark.
pub open spec fn reads_back(
    data: Seq<u8>,
    values: GridView,
    overrides: Map<Address, Seq<char>>,
    rows: int,
    cols: int,
) -> bool {
    rows > 0 && !crate::records::starts_with_mark(imported(values, overrides, 0, 0))
        ==> crate::save::holds_exactly(data, 44, imported_rows(values, overrides, rows, cols))
}

fn import_lines(values: &Grid, overrides: &Cells, rows: u64, cols: u64) -> (r: Vec<u8>)
    requires
        overrides.wf(),
        0 < cols <= usize::MAX,
    ensures
        r@ == imported_lines(values@, overrides@, rows as int, cols as int),
        reads_back(r@, values@, overrides@, rows as int, cols as int),
{
    let ghost cells = overrides@;
    let ghost marked = crate::records::starts_with_mark(imported(values@, cells, 0, 0));
    let mut out: Vec<u8> = Vec::new();
    let mut row: u64 = 0;
    proof {
        crate::save::nothing_read(44);
        assert(out@ =~= Seq::empty());
        assert(imported_rows(values@, cells, 0, cols as int) =~= Seq::empty());
    }
    while row < rows
        invariant
            overrides.wf(),
            cells == overrides@,
            0 < cols <= usize::MAX,
            row <= rows,
            marked == crate::records::starts_with_mark(imported(values@, cells, 0, 0)),
            out@ == imported_lines(values@, cells, row as int, cols as int),
            row > 0 ==> out@.len() > 0 && out@.last() == 10,
            row == 0 ==> out@.len() == 0,
            !marked ==> crate::save::begins_with(
                out@,
                44,
                imported_rows(values@, cells, row as int, cols as int),
            ),
        decreases rows - row,
    {
        let fields = import_row(values, overrides, row, cols);
        let ghost before = out@;
        let ghost known = imported_rows(values@, cells, row as int, cols as int);
        let ghost line_values = imported_row(values@, cells, row as int, cols as int);
        assert(views(fields@).len() == line_values.len());
        let line = write_line(&fields, 44);
        crate::xml::push_bytes(&mut out, line.as_slice());
        row = row + 1;
        proof {
            let content = line@.drop_last();
            assert(line@ =~= content + seq![10u8]);
            assert(imported_rows(values@, cells, row as int, cols as int) =~= known.push(
                line_values,
            ));
            if !marked {
                if before.len() == 0 {
                    assert(views(fields@)[0] == fields@[0]@);
                    assert(line_values[0] == imported(values@, cells, 0, 0));
                    if crate::records::has_mark(content) {
                        assert(crate::records::has_mark(line@));
                    }
                    assert(crate::records::is_lead(Seq::<u8>::empty())) by {
                        assert(Seq::<u8>::empty().skip(0) =~= Seq::empty());
                    }
                }
                crate::save::record_follows(
                    before,
                    44,
                    known,
                    Seq::empty(),
                    content,
                    10u8,
                    line_values,
                );
                assert(out@ =~= before + Seq::<u8>::empty() + content + seq![10u8]);
            }
        }
    }
    proof {
        if rows > 0 && !marked {
            let all = imported_rows(values@, cells, rows as int, cols as int);
            assert(crate::save::rows_read(out@, Seq::empty(), 44, all));
            assert(out@ + Seq::<u8>::empty() =~= out@);
        }
    }
    out
}

fn import_formulas(formulas: Option<&Grid>, rows: u64, cols: u64) -> (r: Cells)
    requires
        cols <= usize::MAX,
    ensures
        r.wf(),
        r@ == imported_formulas(
            grid_view(formulas),
            rows as int,
            cols as int,
        ),
{
    let mut cells = Cells::new();
    let grid = match formulas {
        Some(grid) => grid,
        None => {
            assert(cells@ =~= imported_formulas(None, rows as int, cols as int));
            return cells;
        },
    };
    let mut row: u64 = 0;
    assert(cells@ =~= imported_formulas(Some(grid@), 0, cols as int));
    while row < rows
        invariant
            cells.wf(),
            cols <= usize::MAX,
            row <= rows,
            cells@ == imported_formulas(Some(grid@), row as int, cols as int),
        decreases rows - row,
    {
        let ghost above = cells@;
        let mut col: u64 = 0;
        assert(cells@ =~= with_row(above, grid@, row, 0));
        while col < cols
            invariant
                cells.wf(),
                cols <= usize::MAX,
                row < rows,
                col <= cols,
                above == imported_formulas(Some(grid@), row as int, cols as int),
                cells@ == with_row(above, grid@, row, col as int),
            decreases cols - col,
        {
            let text = grid.text(row, col);
            let ghost before = cells@;
            if text.as_str().as_bytes().len() > 0 {
                proof {
                    text_has_bytes(text@);
                }
                cells.insert((row, col as usize), text);
            } else {
                proof {
                    text_has_bytes(text@);
                }
            }
            col = col + 1;
            assert(cells@ =~= with_row(above, grid@, row, col as int));
        }
        row = row + 1;
        assert(cells@ =~= imported_formulas(Some(grid@), row as int, cols as int));
    }
    cells
}

/// The formulas of the rows above and of the first columns of a row.
spec fn with_row(above: Map<Address, Seq<char>>, grid: GridView, row: u64, cols: int) -> Map<
    Address,
    Seq<char>,
> {
    above.union_prefer_right(
        Map::new(
            |at: Address|
                at.0 == row && at.1 < cols && grid.at(at.0 as int, at.1 as int).len() > 0,
            |at: Address| grid.at(at.0 as int, at.1 as int),
        ),
    )
}

/// A text has bytes where it has characters.
proof fn text_has_bytes(text: Seq<char>)
    ensures
        (utf8(text).len() > 0) == (text.len() > 0),
{
    if text.len() > 0 {
        vstd::utf8::encode_utf8_decode_utf8(text);
        if utf8(text).len() == 0 {
            assert(utf8(text) =~= utf8(Seq::empty()));
            vstd::utf8::encode_utf8_decode_utf8(Seq::empty());
        }
    }
}

/// The sheet is what the chosen one imports: its values as records, its formulas and its
/// read-only cells.
pub open spec fn is_import(
    sheet: Sheet,
    path: Seq<char>,
    chosen: ChosenView,
    values: GridView,
    formulas: Option<GridView>,
) -> bool {
    let (rows, cols) = extent(values, formulas);
    &&& sheet.wf()
    &&& sheet.path@ == path
    &&& sheet.delimiter == 44
    &&& sheet.data@ == imported_lines(values, chosen.marks.overrides, rows, cols)
    &&& reads_back(sheet.data@, values, chosen.marks.overrides, rows, cols)
    &&& sheet.edits@ == Map::<Address, Seq<char>>::empty()
    &&& sheet.undo@.len() == 0
    &&& sheet.order is None
    &&& sheet.revision == 0
    &&& sheet.workbook matches Some(book) && {
        &&& book.name@ == chosen.name
        &&& views(book.names@) == chosen.names
        &&& book.format == chosen.format
        &&& book.part@ == chosen.part
        &&& book.protected@ == chosen.marks.protected
        &&& book.formulas@ == imported_formulas(formulas, rows, cols)
    }
}

/// Open the chosen sheet with the values and formulas that a reader found in it.
pub fn import(path: String, chosen: Chosen, values: &Grid, formulas: Option<&Grid>) -> (r: Result<
    Sheet,
    Error,
>)
    requires
        chosen.scan.overrides.wf(),
    ensures
        is_import_result(path@, chosen@, values@, grid_view(formulas), r),
{
    let (value_rows, value_cols) = find_corner(Some(values));
    let (formula_rows, formula_cols) = find_corner(formulas);
    let rows: u64 = if value_rows > formula_rows {
        value_rows
    } else {
        formula_rows
    };
    let cols: u64 = if value_cols > formula_cols {
        value_cols
    } else {
        formula_cols
    };
    match check_size(rows, cols) {
        Ok(()) => {},
        Err(error) => {
            return Err(error);
        },
    }
    let ghost marks = chosen@.marks;
    let data = if cols > 0 {
        import_lines(values, &chosen.scan.overrides, rows, cols)
    } else {
        Vec::new()
    };
    proof {
        if cols == 0 {
            assert(rows == 0);
            assert(data@ =~= Seq::empty());
        }
    }
    let found = import_formulas(formulas, rows, cols);
    match Sheet::open(path, data, 44) {
        Err(error) => Err(error),
        Ok(mut sheet) => {
            sheet.workbook = Some(
                Workbook {
                    name: chosen.name,
                    names: chosen.names,
                    format: chosen.format,
                    part: chosen.part,
                    formulas: found,
                    protected: chosen.scan.protected,
                },
            );
            Ok(sheet)
        },
    }
}

/// The outcome of importing a chosen sheet with what was read of its cells.
pub open spec fn is_import_result(
    path: Seq<char>,
    chosen: ChosenView,
    values: GridView,
    formulas: Option<GridView>,
    r: Result<Sheet, Error>,
) -> bool {
    let (rows, cols) = extent(values, formulas);
    match r {
        Ok(sheet) => fits(rows, cols) && is_import(sheet, path, chosen, values, formulas),
        Err(error) => !fits(rows, cols) && error == Error::WorkbookCells,
    }
}

/// The outcome fails with this message.
pub open spec fn fails_with(r: Result<Sheet, Error>, reason: Seq<char>) -> bool {
    r matches Err(error) && error.message() == reason
}

/// The outcome of opening a chosen sheet: its values are read, then its formulas where the
/// sheet has any, and both are imported.
pub open spec fn is_chosen_open(
    path: Seq<char>,
    data: Seq<u8>,
    chosen: ChosenView,
    r: Result<Sheet, Error>,
) -> bool {
    match values_of(data, chosen.format, chosen.name) {
        Err(reason) => fails_with(r, reason),
        Ok(values) => if chosen.has_formulas {
            match formulas_of(data, chosen.format, chosen.name) {
                Err(reason) => fails_with(r, reason),
                Ok(formulas) => is_import_result(path, chosen, values, Some(formulas), r),
            }
        } else {
            is_import_result(path, chosen, values, None, r)
        },
    }
}

/// The outcome of opening a sheet of a package once a sheet is chosen, or none could be.
pub open spec fn is_open_of(
    path: Seq<char>,
    data: Seq<u8>,
    choice: Result<ChosenView, Seq<char>>,
    r: Result<Sheet, Error>,
) -> bool {
    match choice {
        Err(reason) => fails_with(r, reason),
        Ok(chosen) => is_chosen_open(path, data, chosen, r),
    }
}

/// The outcome of opening a sheet of a package: the named one, else the first.
pub open spec fn is_open(
    path: Seq<char>,
    data: Seq<u8>,
    format: Format,
    name: Option<Seq<char>>,
    r: Result<Sheet, Error>,
) -> bool {
    exists|choice: Result<ChosenView, Seq<char>>| #[trigger]
        is_chosen(data, format, name, choice) && is_open_of(path, data, choice, r)
}

/// Open a chosen sheet of a package.
pub fn open_chosen(path: String, data: &[u8], chosen: Chosen) -> (r: Result<Sheet, Error>)
    requires
        chosen.scan.overrides.wf(),
        is_sound(data@, chosen.format, chosen.name@, chosen.scan.has_formulas),
    ensures
        is_chosen_open(path@, data@, chosen@, r),
{
    proof {
        if chosen.scan.has_formulas {
            sound_without_formulas(data@, chosen.format, chosen.name@);
        }
    }
    let values = match read_values(data, chosen.format, chosen.name.as_str()) {
        Ok(values) => values,
        Err(error) => {
            return Err(error);
        },
    };
    if chosen.scan.has_formulas {
        match read_formulas(data, chosen.format, chosen.name.as_str()) {
            Ok(formulas) => import(path, chosen, &values, Some(&formulas)),
            Err(error) => Err(error),
        }
    } else {
        import(path, chosen, &values, None)
    }
}

/// Open a sheet of a package: the named one, else the first. None where a sheet is chosen
/// and its cells cannot be read.
pub fn open_sheet(path: String, data: &[u8], format: Format, sheet: &Option<String>) -> (r: Option<
    Result<Sheet, Error>,
>)
    ensures
        match r {
            Some(opened) => is_open(
                path@,
                data@,
                format,
                crate::sheet::text_view(*sheet),
                opened,
            ),
            None => exists|chosen: ChosenView|
                {
                    &&& #[trigger] is_chosen(
                        data@,
                        format,
                        crate::sheet::text_view(*sheet),
                        Ok::<ChosenView, Seq<char>>(chosen),
                    )
                    &&& !is_sound(data@, format, chosen.name, chosen.has_formulas)
                },
        },
{
    let choice = choose_sheet(data, format, sheet);
    let ghost view = choice_view(choice);
    assert(is_chosen(data@, format, crate::sheet::text_view(*sheet), view));
    match choice {
        Err(error) => Some(Err(error)),
        Ok(chosen) => {
            if check_cells(data, format, chosen.name.as_str(), chosen.scan.has_formulas) {
                Some(open_chosen(path, data, chosen))
            } else {
                assert(is_chosen(
                    data@,
                    format,
                    crate::sheet::text_view(*sheet),
                    Ok::<ChosenView, Seq<char>>(chosen@),
                ));
                None
            }
        },
    }
}

} // verus!
