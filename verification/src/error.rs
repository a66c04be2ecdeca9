//! Every way an operation is refused, and the message shown for it.
use crate::a1::{quoted, A1Error};
use crate::records::Malformed;
use crate::text::{decimal_text, joined};
use vstd::prelude::*;

verus! {

/// Why an operation was refused.
#[derive(Clone, Debug, PartialEq, Eq)]
pub enum Error {
    /// A package that could not be read, with the reason.
    Archive(String),
    /// A sheet that the workbook does not have.
    NoSheet(String),
    /// XML that does not parse, with the reason.
    Xml(String),
    /// A sheet whose cells could not be read, with the reason.
    Reader(String),
    /// A patch file that could not be read, with the reason.
    Patch(String),
    /// An option without its value.
    MissingValue(String),
    /// An option whose value is not UTF-8.
    NotText(String),
    UnknownOption(String),
    /// An address, range or column list that does not read.
    A1(A1Error),
    /// A record that is not UTF-8.
    Malformed(Malformed),
    /// A one-based sort column that the header does not have.
    OutsideHeader(u64),
    /// A one-based record and column whose value does not sort as a number.
    NotDecimal(u64, u64),
    Delimiter,
    NoCell,
    SourceChanged,
    SourceChangedDuringSave,
    WaitBeforeSaving,
    DestinationExists,
    CsvToWorkbook,
    EditedColumnGone,
    EditedColumnMissing,
    WaitBeforeSorting,
    NoSortColumn,
    TooManySortColumns,
    SortBudget,
    SortBudgetKept,
    EditsChangedWhileSorting,
    SortSyntax,
    SortColumnTooLarge,
    SortColumnTwice,
    EmptySearch,
    ZeroLimit,
    WorkbookColumnOverflow,
    WorkbookRowZero,
    WorkbookAddress,
    WorkbookDimensions,
    WorkbookRange,
    WorkbookCells,
    ReadOnlyCell,
    XmlCharacter,
    EmptyFormula,
    FormulaTooLong,
    TextTooLong,
    SaveAsXlsx,
    SaveAsOds,
    FindLimit,
    PatchArray,
    PatchEntry,
    PatchKeys,
    PatchCell,
    PatchValue,
    ReadLimit,
    BeyondLastRow,
    LimitOption,
    DelimiterOption,
    MissingPatch,
    MissingOutput,
    MissingFile,
    MissingWorkbook,
    OneFile,
    FindOptions,
    FindText,
    FindAlone,
    SheetsAlone,
    EditsNeedTarget,
    HeaderNeedsSort,
    SortNeedsUse,
    DryRunOrOutput,
    CheckAlone,
    OverlappingXml,
    MissingTagEnd,
    NumberEmpty,
    NumberDigit,
    NumberTooLarge,
    MissingSheetData,
    RowWithoutNumber,
    RowNumber,
    CellWithoutAddress,
    MissingCellAddress,
    DuplicateMembers,
    WorkbookTooLarge,
    PackageLimit,
    MemberLimit,
    XmlLimit,
    RelationshipPath,
    UnnamedOdsSheet,
    MissingBookRelationship,
    OutsideBook,
    MissingBookTarget,
    UnnamedXlsxSheet,
    MissingSheetRelationship,
    MissingWorksheetRelationship,
    OutsideWorksheet,
    MissingWorksheetTarget,
    SheetsNeedWorkbook,
    SheetNeedsWorkbook,
    DelimiterNeedsCsv,
    NoSheets,
    Repetition,
    TextRepetition,
    OdsRowOverflow,
    OdsColumnOverflow,
    MissingOdsSheet,
    OdsReadOnly,
    OdsPrefix,
    OdsRowEnd,
    OdsTargets,
    NotUtf8,
    Signed,
    SortedNativeSave,
}

/// The text of a record that is not UTF-8, with its place.
pub open spec fn malformed_message(m: Malformed) -> Seq<char> {
    "CSV parse error: record "@ + crate::text::decimal(m.record as nat) + " (line "@
        + crate::text::decimal(m.line as nat) + ", field: "@ + crate::text::decimal(m.field as nat)
        + ", byte: "@ + crate::text::decimal(m.byte as nat)
        + "): invalid utf-8: invalid UTF-8 in field "@ + crate::text::decimal(m.field as nat)
        + " near byte index "@ + crate::text::decimal(m.valid_up_to as nat)
}

fn malformed_text(m: &Malformed) -> (r: String)
    ensures
        r@ == malformed_message(*m),
{
    let mut text = joined("CSV parse error: record ", decimal_text(m.record).as_str());
    text.append(" (line ");
    text.append(decimal_text(m.line).as_str());
    text.append(", field: ");
    text.append(decimal_text(m.field as u64).as_str());
    text.append(", byte: ");
    text.append(decimal_text(m.byte).as_str());
    text.append("): invalid utf-8: invalid UTF-8 in field ");
    text.append(decimal_text(m.field as u64).as_str());
    text.append(" near byte index ");
    text.append(decimal_text(m.valid_up_to as u64).as_str());
    text
}

impl Error {
    /// The message shown for the error.
    pub open spec fn message(self) -> Seq<char> {
        match self {
            Error::Archive(reason) => reason@,
            Error::NoSheet(name) => "No sheet named "@ + crate::a1::debug_text(name@)
                + "; use --sheets"@,
            Error::Xml(reason) => reason@,
            Error::Reader(reason) => reason@,
            Error::Patch(reason) => reason@,
            Error::MissingValue(option) => "Missing value for "@ + option@,
            Error::NotText(option) => option@ + " requires UTF-8 text"@,
            Error::UnknownOption(option) => "Unknown option: "@ + option@,
            Error::A1(error) => error.message(),
            Error::Malformed(m) => malformed_message(m),
            Error::OutsideHeader(column) => "Sort column "@ + crate::text::decimal(column as nat)
                + " is outside the header"@,
            Error::NotDecimal(record, column) => "Record "@ + crate::text::decimal(record as nat)
                + ", column "@ + crate::text::decimal(column as nat)
                + " is not an exact decimal (maximum scale 28); choose text sorting for mixed values"@,
            Error::Delimiter =>
                "Delimiter must be a single ASCII byte other than a quote, CR, LF or NUL"@,
            Error::NoCell => "No cell at this position"@,
            Error::SourceChanged =>
                "Source file changed outside Quadrille; reopen it before continuing"@,
            Error::SourceChangedDuringSave =>
                "Source changed during save; output was not published"@,
            Error::WaitBeforeSaving => "Wait for indexing to finish before saving"@,
            Error::DestinationExists => "Destination already exists; choose a new filename"@,
            Error::CsvToWorkbook =>
                "CSV to workbook conversion is not supported; use a CSV destination"@,
            Error::EditedColumnGone => "Edited column no longer exists"@,
            Error::EditedColumnMissing => "Missing edited column during save"@,
            Error::WaitBeforeSorting => "Wait for indexing to finish before sorting"@,
            Error::NoSortColumn => "Choose at least one sort column"@,
            Error::TooManySortColumns => "Too many sort columns"@,
            Error::SortBudget =>
                "Sort keys exceed the 512 MiB budget; try fewer columns. Disk-backed sorting is not implemented yet"@,
            Error::SortBudgetKept => "Sort keys exceed the 512 MiB budget; current view was kept"@,
            Error::EditsChangedWhileSorting => "Edits changed while sorting; run the sort again"@,
            Error::SortSyntax =>
                "Use column letters, commas, - for descending and :n for numbers; e.g. B,-D:n"@,
            Error::SortColumnTooLarge => "Column is too large"@,
            Error::SortColumnTwice => "A sort column may only appear once"@,
            Error::EmptySearch => "Search text must not be empty unless the match is exact"@,
            Error::ZeroLimit => "The match limit must be at least 1"@,
            Error::WorkbookColumnOverflow => "Workbook column overflow"@,
            Error::WorkbookRowZero => "Workbook rows start at 1"@,
            Error::WorkbookAddress => "Invalid workbook cell address"@,
            Error::WorkbookDimensions => "Workbook cell exceeds supported sheet dimensions"@,
            Error::WorkbookRange => "Invalid workbook cell range"@,
            Error::WorkbookCells =>
                "Workbook sheet exceeds the 5 million cell import limit (including leading empty cells); use CSV for larger data"@,
            Error::ReadOnlyCell => "Formula and merged/array cells are read-only in this version"@,
            Error::XmlCharacter => "Workbook text contains a character forbidden by XML 1.0"@,
            Error::EmptyFormula => "Enter a formula after ="@,
            Error::FormulaTooLong => "XLSX formulas are limited to 8,192 UTF-16 code units"@,
            Error::TextTooLong => "XLSX cell text is limited to 32,767 UTF-16 code units"@,
            Error::SaveAsXlsx =>
                "Save as .xlsx to preserve the workbook, or .csv to export the selected sheet"@,
            Error::SaveAsOds =>
                "Save as .ods to preserve the workbook, or .csv to export the selected sheet"@,
            Error::FindLimit => "limit must be a whole number from 1 to 10,000"@,
            Error::PatchArray => "Patch must be an array of {cell, value} objects"@,
            Error::PatchEntry => "Each patch entry must be an object"@,
            Error::PatchKeys => "Each patch entry must contain only cell and value"@,
            Error::PatchCell => "Patch cell must be an A1-style string"@,
            Error::PatchValue => "Patch value must be a string; no automatic type conversion"@,
            Error::ReadLimit =>
                "Read at most 100,000 cells and 10,000 rows at a time; request large datasets in chunks"@,
            Error::BeyondLastRow => "Requested range extends beyond the last row"@,
            Error::LimitOption => "--limit must be a whole number from 1 to 10,000"@,
            Error::DelimiterOption => "Delimiter must be one ASCII character or 'tab'"@,
            Error::MissingPatch => "Missing JSON patch filename"@,
            Error::MissingOutput => "Missing output filename"@,
            Error::MissingFile => "Missing filename"@,
            Error::MissingWorkbook => "Missing workbook filename"@,
            Error::OneFile => "Open one file at a time"@,
            Error::FindOptions =>
                "--exact, --ignore-case, --columns, --from and --limit require --find"@,
            Error::FindText => "--find needs text; use --exact --find '' to find empty cells"@,
            Error::FindAlone => "--find cannot be combined with --read, --output or --check"@,
            Error::SheetsAlone => "Use --sheets by itself with a workbook filename"@,
            Error::EditsNeedTarget => "Edits require --dry-run or --output NEW_FILE"@,
            Error::HeaderNeedsSort => "--no-header requires --sort"@,
            Error::SortNeedsUse =>
                "Use --sort with --read, --find, --dry-run or --output; use F6 to sort in the TUI"@,
            Error::DryRunOrOutput => "Choose --dry-run or --output, not both"@,
            Error::CheckAlone => "--check cannot be combined with read/edit/save options"@,
            Error::OverlappingXml => "Overlapping workbook XML edits"@,
            Error::MissingTagEnd => "Missing XML tag end"@,
            Error::NumberEmpty => "cannot parse integer from empty string"@,
            Error::NumberDigit => "invalid digit found in string"@,
            Error::NumberTooLarge => "number too large to fit in target type"@,
            Error::MissingSheetData => "Missing XLSX sheetData"@,
            Error::RowWithoutNumber => "XLSX rows without numbers are unsupported"@,
            Error::RowNumber => "Invalid XLSX row number"@,
            Error::CellWithoutAddress => "XLSX cells without addresses are unsupported"@,
            Error::MissingCellAddress => "Missing cell address"@,
            Error::DuplicateMembers => "Workbook contains duplicate ZIP members"@,
            Error::WorkbookTooLarge => "Workbook is too large"@,
            Error::PackageLimit =>
                "Workbook exceeds the 256 MiB uncompressed import limit; use CSV for larger data"@,
            Error::MemberLimit =>
                "Workbook XML exceeds the 128 MiB import limit; use CSV for larger data"@,
            Error::XmlLimit => "Workbook XML exceeds the 128 MiB limit"@,
            Error::RelationshipPath => "Invalid workbook relationship path"@,
            Error::UnnamedOdsSheet => "Unnamed ODS sheet"@,
            Error::MissingBookRelationship => "Missing workbook relationship"@,
            Error::OutsideBook => "External workbook relationships are unsupported"@,
            Error::MissingBookTarget => "Missing workbook target"@,
            Error::UnnamedXlsxSheet => "Unnamed XLSX sheet"@,
            Error::MissingSheetRelationship => "Missing sheet relationship"@,
            Error::MissingWorksheetRelationship => "Missing worksheet relationship"@,
            Error::OutsideWorksheet => "External worksheet relationships are unsupported"@,
            Error::MissingWorksheetTarget => "Missing worksheet target"@,
            Error::SheetsNeedWorkbook => "--sheets requires an XLSX or ODS workbook"@,
            Error::SheetNeedsWorkbook => "--sheet applies to XLSX and ODS workbooks only"@,
            Error::DelimiterNeedsCsv => "--delimiter applies to CSV files only"@,
            Error::NoSheets => "Workbook has no sheets"@,
            Error::Repetition => "Invalid ODS repetition count"@,
            Error::TextRepetition => "ODS text repetition exceeds the import limit"@,
            Error::OdsRowOverflow => "ODS row overflow"@,
            Error::OdsColumnOverflow => "ODS column overflow"@,
            Error::MissingOdsSheet => "Missing ODS sheet"@,
            Error::OdsReadOnly => "Formula and merged cells are read-only in this version"@,
            Error::OdsPrefix => "ODS table namespace needs a prefix"@,
            Error::OdsRowEnd => "Missing ODS row end"@,
            Error::OdsTargets => "Some ODS target cells were not found; output was not published"@,
            Error::NotUtf8 => "stream did not contain valid UTF-8"@,
            Error::Signed =>
                "Digitally signed workbooks cannot be edited without invalidating their signatures"@,
            Error::SortedNativeSave =>
                "Native workbook saves require source row order: clear the sort, or export the sorted view as .csv"@,
        }
    }

    /// The message shown for the error.
    pub fn to_string(&self) -> (r: String)
        ensures
            r@ == self.message(),
    {
        match self {
            Error::Archive(reason) => reason.clone(),
            Error::NoSheet(name) => {
                let mut text = joined("No sheet named ", quoted(name.as_str()).as_str());
                text.append("; use --sheets");
                text
            },
            Error::Xml(reason) => reason.clone(),
            Error::Reader(reason) => reason.clone(),
            Error::Patch(reason) => reason.clone(),
            Error::MissingValue(option) => joined("Missing value for ", option.as_str()),
            Error::NotText(option) => joined(option.as_str(), " requires UTF-8 text"),
            Error::UnknownOption(option) => joined("Unknown option: ", option.as_str()),
            Error::A1(error) => error.to_string(),
            Error::Malformed(m) => malformed_text(m),
            Error::OutsideHeader(column) => {
                let mut text = joined("Sort column ", decimal_text(*column).as_str());
                text.append(" is outside the header");
                text
            },
            Error::NotDecimal(record, column) => {
                let mut text = joined("Record ", decimal_text(*record).as_str());
                text.append(", column ");
                text.append(decimal_text(*column).as_str());
                text.append(
                    " is not an exact decimal (maximum scale 28); choose text sorting for mixed values",
                );
                text
            },
            Error::Delimiter =>
                "Delimiter must be a single ASCII byte other than a quote, CR, LF or NUL".to_owned(),
            Error::NoCell => "No cell at this position".to_owned(),
            Error::SourceChanged =>
                "Source file changed outside Quadrille; reopen it before continuing".to_owned(),
            Error::SourceChangedDuringSave =>
                "Source changed during save; output was not published".to_owned(),
            Error::WaitBeforeSaving => "Wait for indexing to finish before saving".to_owned(),
            Error::DestinationExists =>
                "Destination already exists; choose a new filename".to_owned(),
            Error::CsvToWorkbook =>
                "CSV to workbook conversion is not supported; use a CSV destination".to_owned(),
            Error::EditedColumnGone => "Edited column no longer exists".to_owned(),
            Error::EditedColumnMissing => "Missing edited column during save".to_owned(),
            Error::WaitBeforeSorting => "Wait for indexing to finish before sorting".to_owned(),
            Error::NoSortColumn => "Choose at least one sort column".to_owned(),
            Error::TooManySortColumns => "Too many sort columns".to_owned(),
            Error::SortBudget =>
                "Sort keys exceed the 512 MiB budget; try fewer columns. Disk-backed sorting is not implemented yet".to_owned(),
            Error::SortBudgetKept =>
                "Sort keys exceed the 512 MiB budget; current view was kept".to_owned(),
            Error::EditsChangedWhileSorting =>
                "Edits changed while sorting; run the sort again".to_owned(),
            Error::SortSyntax =>
                "Use column letters, commas, - for descending and :n for numbers; e.g. B,-D:n".to_owned(),
            Error::SortColumnTooLarge => "Column is too large".to_owned(),
            Error::SortColumnTwice => "A sort column may only appear once".to_owned(),
            Error::EmptySearch =>
                "Search text must not be empty unless the match is exact".to_owned(),
            Error::ZeroLimit => "The match limit must be at least 1".to_owned(),
            Error::WorkbookColumnOverflow => "Workbook column overflow".to_owned(),
            Error::WorkbookRowZero => "Workbook rows start at 1".to_owned(),
            Error::WorkbookAddress => "Invalid workbook cell address".to_owned(),
            Error::WorkbookDimensions =>
                "Workbook cell exceeds supported sheet dimensions".to_owned(),
            Error::WorkbookRange => "Invalid workbook cell range".to_owned(),
            Error::WorkbookCells =>
                "Workbook sheet exceeds the 5 million cell import limit (including leading empty cells); use CSV for larger data".to_owned(),
            Error::ReadOnlyCell =>
                "Formula and merged/array cells are read-only in this version".to_owned(),
            Error::XmlCharacter =>
                "Workbook text contains a character forbidden by XML 1.0".to_owned(),
            Error::EmptyFormula => "Enter a formula after =".to_owned(),
            Error::FormulaTooLong =>
                "XLSX formulas are limited to 8,192 UTF-16 code units".to_owned(),
            Error::TextTooLong =>
                "XLSX cell text is limited to 32,767 UTF-16 code units".to_owned(),
            Error::SaveAsXlsx =>
                "Save as .xlsx to preserve the workbook, or .csv to export the selected sheet".to_owned(),
            Error::SaveAsOds =>
                "Save as .ods to preserve the workbook, or .csv to export the selected sheet".to_owned(),
            Error::FindLimit => "limit must be a whole number from 1 to 10,000".to_owned(),
            Error::PatchArray => "Patch must be an array of {cell, value} objects".to_owned(),
            Error::PatchEntry => "Each patch entry must be an object".to_owned(),
            Error::PatchKeys => "Each patch entry must contain only cell and value".to_owned(),
            Error::PatchCell => "Patch cell must be an A1-style string".to_owned(),
            Error::PatchValue =>
                "Patch value must be a string; no automatic type conversion".to_owned(),
            Error::ReadLimit =>
                "Read at most 100,000 cells and 10,000 rows at a time; request large datasets in chunks".to_owned(),
            Error::BeyondLastRow => "Requested range extends beyond the last row".to_owned(),
            Error::LimitOption => "--limit must be a whole number from 1 to 10,000".to_owned(),
            Error::DelimiterOption => "Delimiter must be one ASCII character or 'tab'".to_owned(),
            Error::MissingPatch => "Missing JSON patch filename".to_owned(),
            Error::MissingOutput => "Missing output filename".to_owned(),
            Error::MissingFile => "Missing filename".to_owned(),
            Error::MissingWorkbook => "Missing workbook filename".to_owned(),
            Error::OneFile => "Open one file at a time".to_owned(),
            Error::FindOptions =>
                "--exact, --ignore-case, --columns, --from and --limit require --find".to_owned(),
            Error::FindText =>
                "--find needs text; use --exact --find '' to find empty cells".to_owned(),
            Error::FindAlone =>
                "--find cannot be combined with --read, --output or --check".to_owned(),
            Error::SheetsAlone => "Use --sheets by itself with a workbook filename".to_owned(),
            Error::EditsNeedTarget => "Edits require --dry-run or --output NEW_FILE".to_owned(),
            Error::HeaderNeedsSort => "--no-header requires --sort".to_owned(),
            Error::SortNeedsUse =>
                "Use --sort with --read, --find, --dry-run or --output; use F6 to sort in the TUI".to_owned(),
            Error::DryRunOrOutput => "Choose --dry-run or --output, not both".to_owned(),
            Error::CheckAlone =>
                "--check cannot be combined with read/edit/save options".to_owned(),
            Error::OverlappingXml => "Overlapping workbook XML edits".to_owned(),
            Error::MissingTagEnd => "Missing XML tag end".to_owned(),
            Error::NumberEmpty => "cannot parse integer from empty string".to_owned(),
            Error::NumberDigit => "invalid digit found in string".to_owned(),
            Error::NumberTooLarge => "number too large to fit in target type".to_owned(),
            Error::MissingSheetData => "Missing XLSX sheetData".to_owned(),
            Error::RowWithoutNumber => "XLSX rows without numbers are unsupported".to_owned(),
            Error::RowNumber => "Invalid XLSX row number".to_owned(),
            Error::CellWithoutAddress => "XLSX cells without addresses are unsupported".to_owned(),
            Error::MissingCellAddress => "Missing cell address".to_owned(),
            Error::DuplicateMembers => "Workbook contains duplicate ZIP members".to_owned(),
            Error::WorkbookTooLarge => "Workbook is too large".to_owned(),
            Error::PackageLimit =>
                "Workbook exceeds the 256 MiB uncompressed import limit; use CSV for larger data".to_owned(),
            Error::MemberLimit =>
                "Workbook XML exceeds the 128 MiB import limit; use CSV for larger data".to_owned(),
            Error::XmlLimit => "Workbook XML exceeds the 128 MiB limit".to_owned(),
            Error::RelationshipPath => "Invalid workbook relationship path".to_owned(),
            Error::UnnamedOdsSheet => "Unnamed ODS sheet".to_owned(),
            Error::MissingBookRelationship => "Missing workbook relationship".to_owned(),
            Error::OutsideBook => "External workbook relationships are unsupported".to_owned(),
            Error::MissingBookTarget => "Missing workbook target".to_owned(),
            Error::UnnamedXlsxSheet => "Unnamed XLSX sheet".to_owned(),
            Error::MissingSheetRelationship => "Missing sheet relationship".to_owned(),
            Error::MissingWorksheetRelationship => "Missing worksheet relationship".to_owned(),
            Error::OutsideWorksheet =>
                "External worksheet relationships are unsupported".to_owned(),
            Error::MissingWorksheetTarget => "Missing worksheet target".to_owned(),
            Error::SheetsNeedWorkbook => "--sheets requires an XLSX or ODS workbook".to_owned(),
            Error::SheetNeedsWorkbook =>
                "--sheet applies to XLSX and ODS workbooks only".to_owned(),
            Error::DelimiterNeedsCsv => "--delimiter applies to CSV files only".to_owned(),
            Error::NoSheets => "Workbook has no sheets".to_owned(),
            Error::Repetition => "Invalid ODS repetition count".to_owned(),
            Error::TextRepetition => "ODS text repetition exceeds the import limit".to_owned(),
            Error::OdsRowOverflow => "ODS row overflow".to_owned(),
            Error::OdsColumnOverflow => "ODS column overflow".to_owned(),
            Error::MissingOdsSheet => "Missing ODS sheet".to_owned(),
            Error::OdsReadOnly =>
                "Formula and merged cells are read-only in this version".to_owned(),
            Error::OdsPrefix => "ODS table namespace needs a prefix".to_owned(),
            Error::OdsRowEnd => "Missing ODS row end".to_owned(),
            Error::OdsTargets =>
                "Some ODS target cells were not found; output was not published".to_owned(),
            Error::NotUtf8 => "stream did not contain valid UTF-8".to_owned(),
            Error::Signed =>
                "Digitally signed workbooks cannot be edited without invalidating their signatures".to_owned(),
            Error::SortedNativeSave =>
                "Native workbook saves require source row order: clear the sort, or export the sorted view as .csv".to_owned(),
        }
    }
}

} // verus!
