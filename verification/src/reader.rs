//! The cells of a workbook sheet, as a reader shows them.
use crate::book::{Grid, GridView};
use crate::error::Error;
use crate::sound::{is_sound, is_sound_ods, is_sound_xlsx};
use crate::workbook::Format;
use calamine::{Data, Ods, Reader, Xlsx};
use std::io::Cursor;
use vstd::prelude::*;

verus! {

/// The values of a sheet of an XLSX workbook as the `calamine` crate shows them, or why it
/// does not read them.
pub uninterp spec fn xlsx_values(data: Seq<u8>, name: Seq<char>) -> Result<GridView, Seq<char>>;

/// The formulas of a sheet of an XLSX workbook, or why they do not read.
pub uninterp spec fn xlsx_formulas(data: Seq<u8>, name: Seq<char>) -> Result<GridView, Seq<char>>;

/// The values of a sheet of an ODS workbook, or why they do not read.
pub uninterp spec fn ods_values(data: Seq<u8>, name: Seq<char>) -> Result<GridView, Seq<char>>;

/// The formulas of a sheet of an ODS workbook, or why they do not read.
pub uninterp spec fn ods_formulas(data: Seq<u8>, name: Seq<char>) -> Result<GridView, Seq<char>>;

/// What a range that was read holds.
pub open spec fn grid_result(r: Result<Grid, String>) -> Result<GridView, Seq<char>> {
    match r {
        Ok(grid) => Ok(grid@),
        Err(reason) => Err(reason@),
    }
}

/// `Xlsx::new` opens a workbook and `worksheet_range` gives the values of a sheet, each
/// shown by its `Display`, with the corners that `Range::start` and `Range::end` give. The
/// outcome depends on the bytes and the name alone. The reader panics on a cell whose index
/// is past the shared strings, on addresses and ranges that overflow where that is checked,
/// and on number formats with too many brackets; it need not return on a compound file. It
/// finds a sheet through `xl/workbook.xml` and its relationships, and takes names of members
/// in either case and with either slash. Beside the cells, what it allocates is not stated.
#[verifier::external_body]
fn read_xlsx_values(data: &[u8], name: &str) -> (r: Result<Grid, String>)
    requires
        is_sound_xlsx(data@, name@, false),
    ensures
        grid_result(r) == xlsx_values(data@, name@),
{
    let wrap = |error| calamine::Error::Xlsx(error).to_string();
    let mut book: Xlsx<Cursor<&[u8]>> = Xlsx::new(Cursor::new(data)).map_err(wrap)?;
    let range = book.worksheet_range(name).map_err(wrap)?;
    let convert = |row: &[Data]| row.iter().map(ToString::to_string).collect();
    let rows = range.rows().map(convert).collect();
    Ok(Grid { start: range.start(), end: range.end(), rows })
}

/// `Xlsx::new` opens a workbook and `worksheet_formula` gives the formulas of a sheet, with
/// the corners that `Range::start` and `Range::end` give. The outcome depends on the bytes
/// and the name alone. The reader panics as it does for values, and on shared formulas whose
/// range or names overflow where that is checked. What it allocates is not stated.
#[verifier::external_body]
fn read_xlsx_formulas(data: &[u8], name: &str) -> (r: Result<Grid, String>)
    requires
        is_sound_xlsx(data@, name@, true),
    ensures
        grid_result(r) == xlsx_formulas(data@, name@),
{
    let wrap = |error| calamine::Error::Xlsx(error).to_string();
    let mut book: Xlsx<Cursor<&[u8]>> = Xlsx::new(Cursor::new(data)).map_err(wrap)?;
    let range = book.worksheet_formula(name).map_err(wrap)?;
    let rows = range.rows().map(|row: &[String]| row.to_vec()).collect();
    Ok(Grid { start: range.start(), end: range.end(), rows })
}

/// `Ods::new` opens a workbook and `worksheet_range` gives the values of a sheet, each shown
/// by its `Display`, with the corners that `Range::start` and `Range::end` give. The outcome
/// depends on the bytes and the name alone. The reader need not return on content that is
/// not well-formed, and panics on repetitions that overflow where that is checked. What it
/// allocates is not stated.
#[verifier::external_body]
fn read_ods_values(data: &[u8], name: &str) -> (r: Result<Grid, String>)
    requires
        is_sound_ods(data@),
    ensures
        grid_result(r) == ods_values(data@, name@),
{
    let wrap = |error| calamine::Error::Ods(error).to_string();
    let mut book: Ods<Cursor<&[u8]>> = Ods::new(Cursor::new(data)).map_err(wrap)?;
    let range = book.worksheet_range(name).map_err(wrap)?;
    let convert = |row: &[Data]| row.iter().map(ToString::to_string).collect();
    let rows = range.rows().map(convert).collect();
    Ok(Grid { start: range.start(), end: range.end(), rows })
}

/// `Ods::new` opens a workbook and `worksheet_formula` gives the formulas of a sheet, with
/// the corners that `Range::start` and `Range::end` give. The outcome depends on the bytes
/// and the name alone. The reader need not return on content that is not well-formed, and
/// panics on repetitions that overflow where that is checked. What it allocates is not
/// stated.
#[verifier::external_body]
fn read_ods_formulas(data: &[u8], name: &str) -> (r: Result<Grid, String>)
    requires
        is_sound_ods(data@),
    ensures
        grid_result(r) == ods_formulas(data@, name@),
{
    let wrap = |error| calamine::Error::Ods(error).to_string();
    let mut book: Ods<Cursor<&[u8]>> = Ods::new(Cursor::new(data)).map_err(wrap)?;
    let range = book.worksheet_formula(name).map_err(wrap)?;
    let rows = range.rows().map(|row: &[String]| row.to_vec()).collect();
    Ok(Grid { start: range.start(), end: range.end(), rows })
}

/// The values of a sheet as its cells show them, or why they do not read.
pub open spec fn values_of(data: Seq<u8>, format: Format, name: Seq<char>) -> Result<
    GridView,
    Seq<char>,
> {
    match format {
        Format::Ods => ods_values(data, name),
        Format::Xlsx => xlsx_values(data, name),
    }
}

/// The formulas of a sheet, or why they do not read.
pub open spec fn formulas_of(data: Seq<u8>, format: Format, name: Seq<char>) -> Result<
    GridView,
    Seq<char>,
> {
    match format {
        Format::Ods => ods_formulas(data, name),
        Format::Xlsx => xlsx_formulas(data, name),
    }
}

/// What a range that was read holds, with the message of an error.
pub open spec fn grid_message(r: Result<Grid, Error>) -> Result<GridView, Seq<char>> {
    match r {
        Ok(grid) => Ok(grid@),
        Err(error) => Err(error.message()),
    }
}

/// The values of a sheet as its cells show them.
pub fn read_values(data: &[u8], format: Format, name: &str) -> (r: Result<Grid, Error>)
    requires
        is_sound(data@, format, name@, false),
    ensures
        grid_message(r) == values_of(data@, format, name@),
{
    let read = match format {
        Format::Ods => read_ods_values(data, name),
        Format::Xlsx => read_xlsx_values(data, name),
    };
    match read {
        Ok(grid) => Ok(grid),
        Err(reason) => Err(Error::Reader(reason)),
    }
}

/// The formulas of a sheet.
pub fn read_formulas(data: &[u8], format: Format, name: &str) -> (r: Result<Grid, Error>)
    requires
        is_sound(data@, format, name@, true),
    ensures
        grid_message(r) == formulas_of(data@, format, name@),
{
    let read = match format {
        Format::Ods => read_ods_formulas(data, name),
        Format::Xlsx => read_xlsx_formulas(data, name),
    };
    match read {
        Ok(grid) => Ok(grid),
        Err(reason) => Err(Error::Reader(reason)),
    }
}

} // verus!
