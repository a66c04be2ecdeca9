//! Workbook sheets: their addresses, limits and which cells can be edited.
use crate::a1::{parse_cell, split_range, A1Error, Address, Range};
use crate::cells::Cells;
use crate::error::Error;
use crate::text::{chars, same};
use vstd::prelude::*;

verus! {

/// Rows and columns of the largest sheet, and the most cells of an imported rectangle.
pub const ROW_LIMIT: u64 = 1_048_576;

pub const COLUMN_LIMIT: usize = 16_384;

pub const CELL_LIMIT: u64 = 5_000_000;

/// The format of a workbook.
#[derive(Clone, Copy, Debug, PartialEq, Eq, Structural)]
pub enum Format {
    Xlsx,
    Ods,
}

/// A sheet of a workbook, beside its values.
#[derive(Debug)]
pub struct Workbook {
    /// The sheet that is open, and all sheets.
    pub name: String,
    pub names: Vec<String>,
    pub format: Format,
    /// The package member that holds the sheet.
    pub part: String,
    /// Formula text by cell.
    pub formulas: Cells,
    /// Merged and array rectangles.
    pub protected: Vec<(Address, Address)>,
}

/// `s` without its `$` anchors.
pub open spec fn without_anchors(s: Seq<char>) -> Seq<char> {
    s.filter(|c: char| c != '$')
}

fn strip_anchors(text: &str) -> (r: String)
    ensures
        r@ == without_anchors(text@),
{
    let all = chars(text);
    let ghost keep = |c: char| c != '$';
    let mut kept = String::new();
    let mut i: usize = 0;
    proof {
        assert(all@.take(0).filter(keep) =~= Seq::<char>::empty()) by {
            reveal(Seq::filter);
        }
    }
    while i < all.len()
        invariant
            i <= all@.len(),
            keep == (|c: char| c != '$'),
            kept@ == all@.take(i as int).filter(keep),
        decreases all@.len() - i,
    {
        proof {
            reveal(Seq::filter);
            assert(all@.take(i + 1).drop_last() =~= all@.take(i as int));
        }
        if all[i] != '$' {
            kept.push(all[i]);
        }
        i = i + 1;
    }
    assert(all@.take(all@.len() as int) =~= all@);
    kept
}

/// What reading a workbook cell address gives.
pub open spec fn address_of(s: Seq<char>) -> Result<Address, Error> {
    match crate::a1::cell_of(without_anchors(s)) {
        Ok(at) => if at.0 >= ROW_LIMIT || at.1 >= COLUMN_LIMIT {
            Err(Error::WorkbookDimensions)
        } else {
            Ok(at)
        },
        Err(A1Error::ColumnTooLarge) => Err(Error::WorkbookColumnOverflow),
        Err(A1Error::RowTooLarge) => Err(Error::A1(A1Error::RowTooLarge)),
        Err(A1Error::RowZero) => Err(Error::WorkbookRowZero),
        Err(_) => Err(Error::WorkbookAddress),
    }
}

/// A1 cell with optional `$` anchors, within 1,048,576 rows and 16,384 columns.
pub fn address(text: &str) -> (r: Result<Address, Error>)
    ensures
        r == address_of(text@),
{
    let plain = strip_anchors(text);
    match parse_cell(plain.as_str()) {
        Ok(at) => if at.0 >= ROW_LIMIT || at.1 >= COLUMN_LIMIT {
            Err(Error::WorkbookDimensions)
        } else {
            Ok(at)
        },
        Err(A1Error::ColumnTooLarge) => Err(Error::WorkbookColumnOverflow),
        Err(A1Error::RowTooLarge) => Err(Error::A1(A1Error::RowTooLarge)),
        Err(A1Error::RowZero) => Err(Error::WorkbookRowZero),
        Err(_) => Err(Error::WorkbookAddress),
    }
}

/// What reading a workbook range gives.
pub open spec fn cell_range_of(s: Seq<char>) -> Result<(Address, Address), Error> {
    let (first, last) = crate::a1::ends_of(s);
    match address_of(first) {
        Err(error) => Err(error),
        Ok(a) => match address_of(last) {
            Err(error) => Err(error),
            Ok(b) => if a.0 > b.0 || a.1 > b.1 {
                Err(Error::WorkbookRange)
            } else {
                Ok((a, b))
            },
        },
    }
}

/// The corners of a workbook range such as `A1:$D$5`.
pub fn cell_range(text: &str) -> (r: Result<(Address, Address), Error>)
    ensures
        r == cell_range_of(text@),
{
    let (first, last) = split_range(text);
    match address(first.as_str()) {
        Err(error) => Err(error),
        Ok(a) => match address(last.as_str()) {
            Err(error) => Err(error),
            Ok(b) => match Range::new(a, b) {
                Ok(range) => Ok((range.first, range.last)),
                Err(_) => Err(Error::WorkbookRange),
            },
        },
    }
}

/// The rectangle is within the import limits.
pub open spec fn fits(rows: int, cols: int) -> bool {
    rows <= ROW_LIMIT && cols <= COLUMN_LIMIT && rows * cols <= CELL_LIMIT
}

/// Refuse a rectangle beyond the import limits.
pub fn check_size(rows: u64, cols: u64) -> (r: Result<(), Error>)
    ensures
        r == if fits(rows as int, cols as int) {
            Ok::<(), Error>(())
        } else {
            Err(Error::WorkbookCells)
        },
{
    if rows > ROW_LIMIT || cols > COLUMN_LIMIT as u64 {
        return Err(Error::WorkbookCells);
    }
    match rows.checked_mul(cols) {
        Some(n) => if n > CELL_LIMIT {
            Err(Error::WorkbookCells)
        } else {
            Ok(())
        },
        None => Err(Error::WorkbookCells),
    }
}

/// A character that XML 1.0 allows in text.
pub open spec fn is_xml_char(c: char) -> bool {
    c == '\t' || c == '\n' || c == '\r' || '\u{20}' <= c <= '\u{d7ff}' || '\u{e000}' <= c
        <= '\u{fffd}' || '\u{10000}' <= c
}

/// Nothing but characters that XML 1.0 allows.
pub open spec fn all_xml_chars(s: Seq<char>) -> bool {
    forall|i: int| 0 <= i < s.len() ==> is_xml_char(#[trigger] s[i])
}

/// UTF-16 code units: two for a character beyond the basic plane.
pub open spec fn utf16_len(s: Seq<char>) -> nat
    decreases s.len(),
{
    if s.len() == 0 {
        0
    } else {
        utf16_len(s.drop_last()) + if s.last() >= '\u{10000}' {
            2nat
        } else {
            1
        }
    }
}

/// The formula after `=`.
pub open spec fn formula_part(s: Seq<char>) -> Option<Seq<char>> {
    if s.len() > 0 && s[0] == '=' {
        Some(s.skip(1))
    } else {
        None
    }
}

/// The cell is in the rectangle between two corners.
pub open spec fn in_rectangle(at: Address, corners: (Address, Address)) -> bool {
    corners.0.0 <= at.0 <= corners.1.0 && corners.0.1 <= at.1 <= corners.1.1
}

fn xml_chars(all: &Vec<char>) -> (r: bool)
    ensures
        r == all_xml_chars(all@),
{
    let mut i: usize = 0;
    while i < all.len()
        invariant
            i <= all@.len(),
            forall|k: int| 0 <= k < i ==> is_xml_char(#[trigger] all@[k]),
        decreases all@.len() - i,
    {
        let c = all[i];
        if !(c == '\t' || c == '\n' || c == '\r' || '\u{20}' <= c && c <= '\u{d7ff}' || '\u{e000}'
            <= c && c <= '\u{fffd}' || '\u{10000}' <= c) {
            assert(!is_xml_char(all@[i as int]));
            return false;
        }
        i = i + 1;
    }
    true
}

/// Whether the characters from `from` on take more than `limit` UTF-16 code units.
fn longer_than(all: &Vec<char>, from: usize, limit: usize) -> (r: bool)
    requires
        from <= all@.len(),
        limit < 1_000_000,
    ensures
        r == (utf16_len(all@.skip(from as int)) > limit),
{
    let ghost rest = all@.skip(from as int);
    let mut units: usize = 0;
    let mut i: usize = from;
    while i < all.len()
        invariant
            from <= i <= all@.len(),
            rest == all@.skip(from as int),
            units == utf16_len(rest.take(i - from)),
            units <= limit < 1_000_000,
        decreases all@.len() - i,
    {
        proof {
            assert(rest.take(i - from + 1).drop_last() =~= rest.take(i - from));
        }
        units = units + if all[i] >= '\u{10000}' {
            2
        } else {
            1
        };
        i = i + 1;
        if units > limit {
            proof {
                utf16_len_grows(rest, i - from);
            }
            return true;
        }
    }
    assert(rest.take(rest.len() as int) =~= rest);
    false
}

proof fn utf16_len_grows(s: Seq<char>, n: int)
    requires
        0 <= n <= s.len(),
    ensures
        utf16_len(s.take(n)) <= utf16_len(s),
    decreases s.len(),
{
    if n == s.len() {
        assert(s.take(n) =~= s);
    } else {
        assert(s.take(n) =~= s.drop_last().take(n));
        utf16_len_grows(s.drop_last(), n);
    }
}

/// The extension a destination needs for a native save.
pub open spec fn native_extension(format: Format) -> Seq<char> {
    match format {
        Format::Xlsx => "xlsx"@,
        Format::Ods => "ods"@,
    }
}

impl Format {
    /// The format's name.
    pub open spec fn name(self) -> Seq<char> {
        match self {
            Format::Xlsx => "XLSX"@,
            Format::Ods => "ODS"@,
        }
    }

    /// The format's name.
    pub fn as_str(&self) -> (r: &'static str)
        ensures
            r@ == self.name(),
    {
        match self {
            Format::Xlsx => "XLSX",
            Format::Ods => "ODS",
        }
    }
}

impl Workbook {
    pub open spec fn wf(self) -> bool {
        self.formulas.wf()
    }

    /// A formula, merged or array cell.
    pub open spec fn is_read_only(self, at: Address) -> bool {
        self.formulas@.contains_key(at) || exists|i: int|
            0 <= i < self.protected@.len() && in_rectangle(at, #[trigger] self.protected@[i])
    }

    /// Why a new text for a cell is refused, if it is.
    pub open spec fn edit_rule(self, at: Address, value: Seq<char>) -> Result<(), Error> {
        let xlsx = self.format is Xlsx;
        if xlsx && !fits(at.0 + 1, at.1 + 1) {
            Err(Error::WorkbookCells)
        } else if self.is_read_only(at) {
            Err(Error::ReadOnlyCell)
        } else if !all_xml_chars(value) {
            Err(Error::XmlCharacter)
        } else if xlsx && value == seq!['='] {
            Err(Error::EmptyFormula)
        } else if xlsx && formula_part(value) is Some && utf16_len(formula_part(value)->0) > 8_192 {
            Err(Error::FormulaTooLong)
        } else if xlsx && utf16_len(value) > 32_767 {
            Err(Error::TextTooLong)
        } else {
            Ok(())
        }
    }

    /// Refuse a text that a cell cannot take.
    pub fn validate_edit(&self, at: Address, value: &str) -> (r: Result<(), Error>)
        requires
            self.wf(),
            at.0 < u64::MAX,
            at.1 < usize::MAX,
        ensures
            r == self.edit_rule(at, value@),
    {
        let xlsx = matches!(self.format, Format::Xlsx);
        if xlsx {
            match check_size(at.0 + 1, (at.1 + 1) as u64) {
                Ok(()) => {},
                Err(error) => {
                    return Err(error);
                },
            }
        }
        if self.formulas.get(at).is_some() {
            return Err(Error::ReadOnlyCell);
        }
        let mut i: usize = 0;
        while i < self.protected.len()
            invariant
                i <= self.protected@.len(),
                forall|k: int|
                    0 <= k < i ==> !in_rectangle(at, #[trigger] self.protected@[k]),
                !self.formulas@.contains_key(at),
                xlsx == (self.format is Xlsx),
                xlsx ==> fits(at.0 + 1, at.1 + 1),
            decreases self.protected@.len() - i,
        {
            let corners = self.protected[i];
            if corners.0.0 <= at.0 && at.0 <= corners.1.0 && corners.0.1 <= at.1 && at.1
                <= corners.1.1 {
                assert(in_rectangle(at, self.protected@[i as int]));
                return Err(Error::ReadOnlyCell);
            }
            i = i + 1;
        }
        let all = chars(value);
        if !xml_chars(&all) {
            return Err(Error::XmlCharacter);
        }
        if xlsx && all.len() > 0 && all[0] == '=' {
            if all.len() == 1 {
                assert(value@ =~= seq!['=']);
                return Err(Error::EmptyFormula);
            }
            assert(value@ != seq!['=']);
            if longer_than(&all, 1, 8_192) {
                return Err(Error::FormulaTooLong);
            }
        }
        assert(all@.skip(0) =~= all@);
        if xlsx && longer_than(&all, 0, 32_767) {
            return Err(Error::TextTooLong);
        }
        Ok(())
    }

    /// Where a sheet of this workbook can be saved, by the lower-case extension of the
    /// destination.
    pub open spec fn destination_rule(self, extension: Seq<char>, sorted: bool) -> Result<
        (),
        Error,
    > {
        if extension == "csv"@ {
            Ok(())
        } else if extension != native_extension(self.format) {
            match self.format {
                Format::Xlsx => Err(Error::SaveAsXlsx),
                Format::Ods => Err(Error::SaveAsOds),
            }
        } else if sorted {
            Err(Error::SortedNativeSave)
        } else {
            Ok(())
        }
    }

    /// Refuse a destination that the sheet cannot be saved to.
    pub fn validate_destination(&self, extension: &str, sorted: bool) -> (r: Result<(), Error>)
        ensures
            r == self.destination_rule(extension@, sorted),
    {
        if same(extension, "csv") {
            return Ok(());
        }
        match self.format {
            Format::Xlsx => if !same(extension, "xlsx") {
                return Err(Error::SaveAsXlsx);
            },
            Format::Ods => if !same(extension, "ods") {
                return Err(Error::SaveAsOds);
            },
        }
        if sorted {
            return Err(Error::SortedNativeSave);
        }
        Ok(())
    }
}

} // verus!
