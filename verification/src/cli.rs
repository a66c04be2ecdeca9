//! The command line: its options, the rules on combining them, and what each command does
//! with an open sheet.
use crate::a1::{parse_cell, parse_columns, Address, Range};
use crate::error::Error;
use crate::find::FindQuery;
use crate::json::Json;
use crate::ops::{
    apply_edits, check, find, in_bounds, parse_edits, read, read_range, sort, wait_for_index, Check,
    Edit, Found, Read, Report, Sorted, Source, Wait,
};
use crate::save::{Destination, Save};
use crate::sheet::Sheet;
use crate::sort::parse_sort;
use crate::text::{chars, digit_char, parse_number, same};
use vstd::prelude::*;

verus! {

/// An argument: text, or bytes that are not UTF-8 and can only name a file.
#[derive(Clone, Debug, PartialEq, Eq)]
pub enum Arg {
    Text(String),
    Bytes(Vec<u8>),
}

/// What an argument holds.
pub enum ArgView {
    Text(Seq<char>),
    Bytes(Seq<u8>),
}

impl View for Arg {
    type V = ArgView;

    open spec fn view(&self) -> ArgView {
        match self {
            Arg::Text(text) => ArgView::Text(text@),
            Arg::Bytes(bytes) => ArgView::Bytes(bytes@),
        }
    }
}

impl Arg {
    fn copy(&self) -> (r: Self)
        ensures
            r@ == self@,
    {
        match self {
            Arg::Text(text) => Arg::Text(text.clone()),
            Arg::Bytes(bytes) => {
                let copied = vstd::slice::slice_to_vec(bytes.as_slice());
                Arg::Bytes(copied)
            },
        }
    }
}

/// What an argument is.
#[derive(Clone, Copy, Debug, PartialEq, Eq, Structural)]
pub enum Kind {
    Separator,
    Help,
    Check,
    Sheets,
    Sheet,
    Sort,
    NoHeader,
    DryRun,
    Find,
    Exact,
    IgnoreCase,
    Columns,
    From,
    Limit,
    Read,
    SetCell,
    Apply,
    Output,
    Delimiter,
    Unknown,
    File,
}

/// The option that a text is.
pub open spec fn option_of(t: Seq<char>) -> Kind {
    if t == "--"@ {
        Kind::Separator
    } else if t == "-h"@ || t == "--help"@ {
        Kind::Help
    } else if t == "--check"@ {
        Kind::Check
    } else if t == "--sheets"@ {
        Kind::Sheets
    } else if t == "--sheet"@ {
        Kind::Sheet
    } else if t == "--sort"@ {
        Kind::Sort
    } else if t == "--no-header"@ {
        Kind::NoHeader
    } else if t == "--dry-run"@ {
        Kind::DryRun
    } else if t == "--find"@ {
        Kind::Find
    } else if t == "--exact"@ {
        Kind::Exact
    } else if t == "--ignore-case"@ {
        Kind::IgnoreCase
    } else if t == "--columns"@ {
        Kind::Columns
    } else if t == "--from"@ {
        Kind::From
    } else if t == "--limit"@ {
        Kind::Limit
    } else if t == "--read"@ {
        Kind::Read
    } else if t == "--set"@ {
        Kind::SetCell
    } else if t == "--apply"@ {
        Kind::Apply
    } else if t == "-o"@ || t == "--output"@ {
        Kind::Output
    } else if t == "-d"@ || t == "--delimiter"@ {
        Kind::Delimiter
    } else if t.len() > 0 && t[0] == '-' {
        Kind::Unknown
    } else {
        Kind::File
    }
}

/// What an argument is; after `--` everything is a file name.
pub open spec fn kind_of(arg: ArgView, positional: bool) -> Kind {
    match arg {
        ArgView::Text(t) => if positional {
            Kind::File
        } else {
            option_of(t)
        },
        ArgView::Bytes(_) => Kind::File,
    }
}

fn read_option(t: &str) -> (r: Kind)
    ensures
        r == option_of(t@),
{
    if same(t, "--") {
        Kind::Separator
    } else if same(t, "-h") || same(t, "--help") {
        Kind::Help
    } else if same(t, "--check") {
        Kind::Check
    } else if same(t, "--sheets") {
        Kind::Sheets
    } else if same(t, "--sheet") {
        Kind::Sheet
    } else if same(t, "--sort") {
        Kind::Sort
    } else if same(t, "--no-header") {
        Kind::NoHeader
    } else if same(t, "--dry-run") {
        Kind::DryRun
    } else if same(t, "--find") {
        Kind::Find
    } else if same(t, "--exact") {
        Kind::Exact
    } else if same(t, "--ignore-case") {
        Kind::IgnoreCase
    } else if same(t, "--columns") {
        Kind::Columns
    } else if same(t, "--from") {
        Kind::From
    } else if same(t, "--limit") {
        Kind::Limit
    } else if same(t, "--read") {
        Kind::Read
    } else if same(t, "--set") {
        Kind::SetCell
    } else if same(t, "--apply") {
        Kind::Apply
    } else if same(t, "-o") || same(t, "--output") {
        Kind::Output
    } else if same(t, "-d") || same(t, "--delimiter") {
        Kind::Delimiter
    } else {
        let all = chars(t);
        if all.len() > 0 && all[0] == '-' {
            Kind::Unknown
        } else {
            Kind::File
        }
    }
}

fn classify(arg: &Arg, positional: bool) -> (r: Kind)
    ensures
        r == kind_of(arg@, positional),
{
    match arg {
        Arg::Text(t) => if positional {
            Kind::File
        } else {
            read_option(t.as_str())
        },
        Arg::Bytes(_) => Kind::File,
    }
}

/// What the arguments read so far ask for.
pub struct Options {
    pub path: Option<Arg>,
    pub delimiter: u8,
    pub sheet: Option<String>,
    pub sheets: bool,
    pub check: bool,
    pub read: Option<Range>,
    pub edits: Vec<Edit>,
    pub edits_requested: bool,
    pub output: Option<Arg>,
    pub dry_run: bool,
    pub sort: Option<String>,
    pub header: bool,
    pub positional: bool,
    pub find: Option<String>,
    pub exact: bool,
    pub ignore_case: bool,
    pub columns: Option<Vec<usize>>,
    pub from: Option<Address>,
    pub limit: Option<usize>,
    /// Patches taken so far.
    pub applied: usize,
}

/// A read that is asked for is of cells that have names.
pub open spec fn is_asked_read(read: Option<Range>) -> bool {
    read matches Some(range) ==> range.wf() && range.last.0 < u64::MAX && range.last.1 < usize::MAX
}

/// A search that is asked for starts at a cell that has a name.
pub open spec fn is_asked_start(from: Option<Address>) -> bool {
    from matches Some(at) ==> at.0 < u64::MAX
}

/// `Options` with its texts.
#[verifier::ext_equal]
pub struct OptionsView {
    pub path: Option<ArgView>,
    pub delimiter: u8,
    pub sheet: Option<Seq<char>>,
    pub sheets: bool,
    pub check: bool,
    pub read: Option<Range>,
    pub edits: Seq<(Address, Seq<char>)>,
    pub edits_requested: bool,
    pub output: Option<ArgView>,
    pub dry_run: bool,
    pub sort: Option<Seq<char>>,
    pub header: bool,
    pub positional: bool,
    pub find: Option<Seq<char>>,
    pub exact: bool,
    pub ignore_case: bool,
    pub columns: Option<Seq<usize>>,
    pub from: Option<Address>,
    pub limit: Option<usize>,
    pub applied: int,
}

/// What an optional argument holds.
pub open spec fn arg_view(arg: Option<Arg>) -> Option<ArgView> {
    match arg {
        Some(a) => Some(a@),
        None => None,
    }
}

/// The columns of an optional list.
pub open spec fn columns_view(columns: Option<Vec<usize>>) -> Option<Seq<usize>> {
    match columns {
        Some(c) => Some(c@),
        None => None,
    }
}

impl View for Options {
    type V = OptionsView;

    open spec fn view(&self) -> OptionsView {
        OptionsView {
            path: arg_view(self.path),
            delimiter: self.delimiter,
            sheet: crate::sheet::text_view(self.sheet),
            sheets: self.sheets,
            check: self.check,
            read: self.read,
            edits: crate::ops::edits_view(self.edits@),
            edits_requested: self.edits_requested,
            output: arg_view(self.output),
            dry_run: self.dry_run,
            sort: crate::sheet::text_view(self.sort),
            header: self.header,
            positional: self.positional,
            find: crate::sheet::text_view(self.find),
            exact: self.exact,
            ignore_case: self.ignore_case,
            columns: columns_view(self.columns),
            from: self.from,
            limit: self.limit,
            applied: self.applied as int,
        }
    }
}

/// Nothing asked for yet: a comma between fields and a header that stays first.
pub open spec fn no_options() -> OptionsView {
    OptionsView {
        path: None,
        delimiter: 44,
        sheet: None,
        sheets: false,
        check: false,
        read: None,
        edits: Seq::empty(),
        edits_requested: false,
        output: None,
        dry_run: false,
        sort: None,
        header: true,
        positional: false,
        find: None,
        exact: false,
        ignore_case: false,
        columns: None,
        from: None,
        limit: None,
        applied: 0,
    }
}

/// What reading one argument, with the values that belong to it, leads to.
pub enum Step {
    /// On to the next argument.
    Next(OptionsView, int),
    Help,
    /// This patch file is needed first.
    Patch(ArgView),
    /// The arguments are refused with this message.
    Refused(Seq<char>),
}

/// The text of an argument that belongs to an option, or why there is none.
pub open spec fn text_at(args: Seq<Arg>, i: int, option: Seq<char>) -> Result<
    Seq<char>,
    Seq<char>,
> {
    if i >= args.len() {
        Err("Missing value for "@ + option)
    } else {
        match args[i]@ {
            ArgView::Text(t) => Ok(t),
            ArgView::Bytes(_) => Err(option + " requires UTF-8 text"@),
        }
    }
}

/// Digits after an optional plus sign.
pub open spec fn count_digits(t: Seq<char>) -> Seq<char> {
    if t.len() > 0 && t[0] == '+' {
        t.skip(1)
    } else {
        t
    }
}

/// The match limit that a text stands for: a whole number from 1 to 10,000.
pub open spec fn limit_of(t: Seq<char>) -> Option<usize> {
    let digits = count_digits(t);
    let n = crate::text::number(digits);
    if digits.len() > 0 && crate::text::all_digits(digits) && 1 <= n <= 10_000 {
        Some(n as usize)
    } else {
        None
    }
}

/// The delimiter that a text stands for.
pub open spec fn delimiter_of(t: Seq<char>) -> Option<u8> {
    if t == "tab"@ || t == "\\t"@ {
        Some(9u8)
    } else if t.len() == 1 && t[0] as u32 <= 127 {
        Some(t[0] as u8)
    } else {
        None
    }
}

/// What the option at `i` leads to.
pub open spec fn step(
    args: Seq<Arg>,
    patches: Seq<Result<Json, String>>,
    i: int,
    o: OptionsView,
) -> Step {
    let list = |t: Seq<char>| crate::text::parts(t, ',');
    match kind_of(args[i]@, o.positional) {
        Kind::Separator => Step::Next(OptionsView { positional: true, ..o }, i + 1),
        Kind::Help => Step::Help,
        Kind::Check => Step::Next(OptionsView { check: true, ..o }, i + 1),
        Kind::Sheets => Step::Next(OptionsView { sheets: true, ..o }, i + 1),
        Kind::Sheet => match text_at(args, i + 1, "--sheet"@) {
            Ok(t) => Step::Next(OptionsView { sheet: Some(t), ..o }, i + 2),
            Err(message) => Step::Refused(message),
        },
        Kind::Sort => match text_at(args, i + 1, "--sort"@) {
            Ok(t) => Step::Next(OptionsView { sort: Some(t), ..o }, i + 2),
            Err(message) => Step::Refused(message),
        },
        Kind::NoHeader => Step::Next(OptionsView { header: false, ..o }, i + 1),
        Kind::DryRun => Step::Next(OptionsView { dry_run: true, ..o }, i + 1),
        Kind::Find => match text_at(args, i + 1, "--find"@) {
            Ok(t) => Step::Next(OptionsView { find: Some(t), ..o }, i + 2),
            Err(message) => Step::Refused(message),
        },
        Kind::Exact => Step::Next(OptionsView { exact: true, ..o }, i + 1),
        Kind::IgnoreCase => Step::Next(OptionsView { ignore_case: true, ..o }, i + 1),
        Kind::Columns => match text_at(args, i + 1, "--columns"@) {
            Ok(t) => match crate::a1::columns_message(list(t), list(t).len() as int) {
                Some(message) => Step::Refused(message),
                None => Step::Next(
                    OptionsView { columns: Some(crate::a1::column_list(t)), ..o },
                    i + 2,
                ),
            },
            Err(message) => Step::Refused(message),
        },
        Kind::From => match text_at(args, i + 1, "--from"@) {
            Ok(t) => match crate::a1::cell_of(t) {
                Ok(at) => Step::Next(OptionsView { from: Some(at), ..o }, i + 2),
                Err(error) => Step::Refused(error.message()),
            },
            Err(message) => Step::Refused(message),
        },
        Kind::Limit => match text_at(args, i + 1, "--limit"@) {
            Ok(t) => match limit_of(t) {
                Some(n) => Step::Next(OptionsView { limit: Some(n), ..o }, i + 2),
                None => Step::Refused(Error::LimitOption.message()),
            },
            Err(message) => Step::Refused(message),
        },
        Kind::Read => match text_at(args, i + 1, "--read"@) {
            Ok(t) => match crate::a1::range_of(t) {
                Ok(range) => if crate::ops::is_readable(range) {
                    Step::Next(OptionsView { read: Some(range), ..o }, i + 2)
                } else {
                    Step::Refused(Error::ReadLimit.message())
                },
                Err(error) => Step::Refused(error.message()),
            },
            Err(message) => Step::Refused(message),
        },
        Kind::SetCell => match text_at(args, i + 1, "--set CELL"@) {
            Ok(t) => match crate::a1::cell_of(t) {
                Ok(at) => match text_at(args, i + 2, "--set VALUE"@) {
                    Ok(value) => Step::Next(
                        OptionsView {
                            edits_requested: true,
                            edits: o.edits.push((at, value)),
                            ..o
                        },
                        i + 3,
                    ),
                    Err(message) => Step::Refused(message),
                },
                Err(error) => Step::Refused(error.message()),
            },
            Err(message) => Step::Refused(message),
        },
        Kind::Apply => if i + 1 >= args.len() {
            Step::Refused(Error::MissingPatch.message())
        } else if o.applied >= patches.len() {
            Step::Patch(args[i + 1]@)
        } else {
            match patches[o.applied] {
                Err(reason) => Step::Refused(reason@),
                Ok(patch) => match crate::ops::patch_edits(patch) {
                    Err(error) => Step::Refused(error.message()),
                    Ok(edits) => Step::Next(
                        OptionsView {
                            edits_requested: true,
                            edits: o.edits + edits,
                            applied: o.applied + 1,
                            ..o
                        },
                        i + 2,
                    ),
                },
            }
        },
        Kind::Output => if i + 1 >= args.len() {
            Step::Refused(Error::MissingOutput.message())
        } else {
            Step::Next(OptionsView { output: Some(args[i + 1]@), ..o }, i + 2)
        },
        Kind::Delimiter => match text_at(args, i + 1, "--delimiter"@) {
            Ok(t) => match delimiter_of(t) {
                Some(b) => Step::Next(OptionsView { delimiter: b, ..o }, i + 2),
                None => Step::Refused(Error::DelimiterOption.message()),
            },
            Err(message) => Step::Refused(message),
        },
        Kind::Unknown => Step::Refused("Unknown option: "@ + args[i]@->Text_0),
        Kind::File => if o.path is Some {
            Step::Refused(Error::OneFile.message())
        } else {
            Step::Next(OptionsView { path: Some(args[i]@), ..o }, i + 1)
        },
    }
}

/// A search that is asked for.
#[derive(Debug, PartialEq, Eq)]
pub struct Find {
    pub query: FindQuery,
    pub from: Option<Address>,
    pub limit: Option<usize>,
}

/// A file to open, and what to do with it.
#[derive(Debug, PartialEq, Eq)]
pub struct Open {
    pub path: Arg,
    pub delimiter: u8,
    pub sheet: Option<String>,
    pub check: bool,
    pub read: Option<Range>,
    pub edits: Vec<Edit>,
    /// Specification and whether the first record is a header that stays first.
    pub sort: Option<(String, bool)>,
    pub find: Option<Find>,
    pub dry_run: bool,
    pub output: Option<Arg>,
}

/// What the arguments ask for.
#[derive(Debug, PartialEq, Eq)]
pub enum Command {
    Help,
    /// List the sheets of this workbook.
    Sheets(Arg),
    /// Read this patch file, then parse again with what it holds.
    Patch(Arg),
    /// Open a file: the TUI, unless `Open::headless`.
    Open(Box<Open>),
}

/// What the arguments lead to.
pub enum Outcome {
    Help,
    Sheets(ArgView),
    Patch(ArgView),
    /// Open the file that the options name, with what they ask for.
    Open(OptionsView),
    Refused(Seq<char>),
}

/// The rules on combining options, in their order.
pub open spec fn combined(o: OptionsView) -> Outcome {
    let spec = crate::text::parts(o.sort->0, ',');
    if o.find is None && (o.exact || o.ignore_case || o.columns is Some || o.from is Some || o.limit
        is Some) {
        Outcome::Refused(Error::FindOptions.message())
    } else if o.find is Some && o.find->0.len() == 0 && !o.exact {
        Outcome::Refused(Error::FindText.message())
    } else if o.find is Some && (o.read is Some || o.output is Some || o.check) {
        Outcome::Refused(Error::FindAlone.message())
    } else if o.sheets {
        if o.check || o.find is Some || o.read is Some || o.edits_requested || o.dry_run || o.output
            is Some || o.sort is Some || o.sheet is Some || !o.header || o.delimiter != 44 {
            Outcome::Refused(Error::SheetsAlone.message())
        } else {
            match o.path {
                Some(path) => Outcome::Sheets(path),
                None => Outcome::Refused(Error::MissingWorkbook.message()),
            }
        }
    } else if o.edits_requested && !o.dry_run && o.output is None {
        Outcome::Refused(Error::EditsNeedTarget.message())
    } else if !o.header && o.sort is None {
        Outcome::Refused(Error::HeaderNeedsSort.message())
    } else if o.sort is Some && o.read is None && o.find is None && !o.dry_run && o.output is None {
        Outcome::Refused(Error::SortNeedsUse.message())
    } else if o.sort is Some && crate::sort::spec_refusal(spec, spec.len() as int) is Some {
        Outcome::Refused(crate::sort::spec_refusal(spec, spec.len() as int)->0.message())
    } else if o.dry_run && o.output is Some {
        Outcome::Refused(Error::DryRunOrOutput.message())
    } else if o.check && (o.read is Some || o.edits_requested || o.dry_run || o.output is Some
        || o.sort is Some) {
        Outcome::Refused(Error::CheckAlone.message())
    } else if o.path is None {
        Outcome::Refused(Error::MissingFile.message())
    } else {
        Outcome::Open(o)
    }
}

/// What the arguments from `i` on lead to.
pub open spec fn outcome(
    args: Seq<Arg>,
    patches: Seq<Result<Json, String>>,
    i: int,
    o: OptionsView,
) -> Outcome
    decreases args.len() - i,
{
    if i < 0 || i >= args.len() {
        combined(o)
    } else {
        match step(args, patches, i, o) {
            Step::Next(next, j) => if i < j {
                outcome(args, patches, j, next)
            } else {
                combined(next)
            },
            Step::Help => Outcome::Help,
            Step::Patch(path) => Outcome::Patch(path),
            Step::Refused(message) => Outcome::Refused(message),
        }
    }
}

/// What the arguments, without the program name, lead to.
pub open spec fn meaning(args: Seq<Arg>, patches: Seq<Result<Json, String>>) -> Outcome {
    if args.len() == 0 {
        Outcome::Help
    } else {
        outcome(args, patches, 0, no_options())
    }
}

impl Open {
    /// The file and the operations are those that the options ask for.
    pub open spec fn serves(self, o: OptionsView) -> bool {
        &&& o.path == Some(self.path@)
        &&& self.delimiter == o.delimiter
        &&& crate::sheet::text_view(self.sheet) == o.sheet
        &&& self.check == o.check
        &&& self.read == o.read
        &&& crate::ops::edits_view(self.edits@) == o.edits
        &&& match self.sort {
            Some((spec, header)) => o.sort == Some(spec@) && header == o.header,
            None => o.sort is None,
        }
        &&& match self.find {
            Some(find) => {
                &&& o.find == Some(find.query.text@)
                &&& columns_view(find.query.columns) == o.columns
                &&& find.query.exact == o.exact
                &&& find.query.ignore_case == o.ignore_case
                &&& find.from == o.from
                &&& find.limit == o.limit
            },
            None => o.find is None,
        }
        &&& self.dry_run == o.dry_run
        &&& arg_view(self.output) == o.output
    }
}

/// The command or the message is what the outcome says.
pub open spec fn is_outcome(r: Result<Command, Error>, outcome: Outcome) -> bool {
    match r {
        Ok(Command::Help) => outcome is Help,
        Ok(Command::Sheets(path)) => outcome matches Outcome::Sheets(p) && path@ == p,
        Ok(Command::Patch(path)) => outcome matches Outcome::Patch(p) && path@ == p,
        Ok(Command::Open(open)) => outcome matches Outcome::Open(o) && open.serves(o),
        Err(error) => outcome matches Outcome::Refused(message) && error.message() == message,
    }
}

fn next_text<'a>(args: &'a Vec<Arg>, i: usize, option: &str) -> (r: Result<&'a str, Error>)
    ensures
        match r {
            Ok(text) => i < args@.len() && text_at(args@, i as int, option@) == Ok::<
                Seq<char>,
                Seq<char>,
            >(text@),
            Err(error) => text_at(args@, i as int, option@) == Err::<Seq<char>, Seq<char>>(
                error.message(),
            ),
        },
{
    if i >= args.len() {
        return Err(Error::MissingValue(option.to_owned()));
    }
    match &args[i] {
        Arg::Text(text) => Ok(text.as_str()),
        Arg::Bytes(_) => Err(Error::NotText(option.to_owned())),
    }
}

/// The match limit that a text stands for.
fn parse_limit(text: &str) -> (r: Option<usize>)
    ensures
        r == limit_of(text@),
{
    let all = chars(text);
    let from: usize = if all.len() > 0 && all[0] == '+' {
        1
    } else {
        0
    };
    let ghost digits = count_digits(text@);
    assert(digits =~= all@.subrange(from as int, all@.len() as int));
    if from == all.len() {
        return None;
    }
    let mut i: usize = from;
    while i < all.len()
        invariant
            from <= i <= all@.len(),
            digits == all@.subrange(from as int, all@.len() as int),
            digits == count_digits(text@),
            forall|k: int| from <= k < i ==> crate::text::is_digit(all@[k]),
        decreases all@.len() - i,
    {
        if !digit_char(all[i]) {
            assert(digits[i - from] == all@[i as int]);
            return None;
        }
        i = i + 1;
    }
    match parse_number(&all, from, all.len()) {
        Some(n) => if 1 <= n && n <= 10_000 {
            Some(n as usize)
        } else {
            None
        },
        None => None,
    }
}

/// The delimiter that a text stands for.
fn parse_delimiter(text: &str) -> (r: Option<u8>)
    ensures
        r == delimiter_of(text@),
{
    if same(text, "tab") || same(text, "\\t") {
        return Some(9);
    }
    let all = chars(text);
    if all.len() == 1 && all[0] as u32 <= 127 {
        Some(all[0] as u8)
    } else {
        None
    }
}

impl Options {
    /// The values read so far are such as can be asked for.
    pub open spec fn wf(self) -> bool {
        is_asked_read(self.read) && is_asked_start(self.from)
    }

    fn new() -> (r: Self)
        ensures
            r@ == no_options(),
    {
        let r = Self {
            path: None,
            delimiter: 44,
            sheet: None,
            sheets: false,
            check: false,
            read: None,
            edits: Vec::new(),
            edits_requested: false,
            output: None,
            dry_run: false,
            sort: None,
            header: true,
            positional: false,
            find: None,
            exact: false,
            ignore_case: false,
            columns: None,
            from: None,
            limit: None,
            applied: 0,
        };
        assert(crate::ops::edits_view(r.edits@) =~= Seq::empty());
        r
    }

    /// Apply the rules on combining options.
    fn finish(self) -> (r: Result<Command, Error>)
        requires
            self.wf(),
        ensures
            is_outcome(r, combined(self@)),
            r matches Ok(Command::Open(open)) ==> open.wf(),
    {
        if self.find.is_none() && (self.exact || self.ignore_case || self.columns.is_some()
            || self.from.is_some() || self.limit.is_some()) {
            return Err(Error::FindOptions);
        }
        let empty_find = match &self.find {
            Some(text) => text.as_str().is_empty(),
            None => false,
        };
        if empty_find && !self.exact {
            return Err(Error::FindText);
        }
        if self.find.is_some() && (self.read.is_some() || self.output.is_some() || self.check) {
            return Err(Error::FindAlone);
        }
        if self.sheets {
            if self.check || self.find.is_some() || self.read.is_some() || self.edits_requested
                || self.dry_run || self.output.is_some() || self.sort.is_some()
                || self.sheet.is_some() || !self.header || self.delimiter != 44 {
                return Err(Error::SheetsAlone);
            }
            return match self.path {
                Some(path) => Ok(Command::Sheets(path)),
                None => Err(Error::MissingWorkbook),
            };
        }
        if self.edits_requested && !self.dry_run && self.output.is_none() {
            return Err(Error::EditsNeedTarget);
        }
        if !self.header && self.sort.is_none() {
            return Err(Error::HeaderNeedsSort);
        }
        if self.sort.is_some() && self.read.is_none() && self.find.is_none() && !self.dry_run
            && self.output.is_none() {
            return Err(Error::SortNeedsUse);
        }
        if let Some(spec) = &self.sort {
            let keys = parse_sort(spec.as_str());
            proof {
                crate::sort::sort_result_is(spec@, keys);
            }
            if let Err(error) = keys {
                return Err(error);
            }
        }
        if self.dry_run && self.output.is_some() {
            return Err(Error::DryRunOrOutput);
        }
        if self.check && (self.read.is_some() || self.edits_requested || self.dry_run
            || self.output.is_some() || self.sort.is_some()) {
            return Err(Error::CheckAlone);
        }
        let path = match self.path {
            Some(path) => path,
            None => {
                return Err(Error::MissingFile);
            },
        };
        let sort = match self.sort {
            Some(spec) => Some((spec, self.header)),
            None => None,
        };
        let find = match self.find {
            Some(text) => Some(
                Find {
                    query: FindQuery {
                        text,
                        columns: self.columns,
                        exact: self.exact,
                        ignore_case: self.ignore_case,
                    },
                    from: self.from,
                    limit: self.limit,
                },
            ),
            None => None,
        };
        Ok(
            Command::Open(
                Box::new(
                    Open {
                        path,
                        delimiter: self.delimiter,
                        sheet: self.sheet,
                        check: self.check,
                        read: self.read,
                        edits: self.edits,
                        sort,
                        find,
                        dry_run: self.dry_run,
                        output: self.output,
                    },
                ),
            ),
        )
    }
}

/// What reading one argument led to.
enum Progress {
    /// The next argument to read.
    Next(usize),
    Done(Command),
}

/// What reading the argument at `i` led to is what the step says.
spec fn is_progress(
    r: Result<Progress, Error>,
    args: Seq<Arg>,
    patches: Seq<Result<Json, String>>,
    i: int,
    before: OptionsView,
    after: OptionsView,
) -> bool {
    let next = step(args, patches, i, before);
    match r {
        Ok(Progress::Next(j)) => i < j <= args.len() && next == Step::Next(after, j as int),
        Ok(Progress::Done(command)) => match command {
            Command::Help => next is Help,
            Command::Patch(path) => next == Step::Patch(path@),
            _ => false,
        },
        Err(error) => next == Step::Refused(error.message()),
    }
}

/// An option without a value, or a file name.
fn read_flag(
    args: &Vec<Arg>,
    patches: &Vec<Result<Json, String>>,
    i: usize,
    kind: Kind,
    o: &mut Options,
) -> (r: Result<Progress, Error>)
    requires
        i < args@.len(),
        old(o).applied <= patches@.len(),
        old(o).wf(),
        kind == kind_of(args@[i as int]@, old(o).positional),
        kind == Kind::Separator || kind == Kind::Help || kind == Kind::Check || kind == Kind::Sheets
            || kind == Kind::NoHeader || kind == Kind::DryRun || kind == Kind::Exact || kind
            == Kind::IgnoreCase || kind == Kind::Unknown || kind == Kind::File,
    ensures
        final(o).applied <= patches@.len(),
        final(o).wf(),
        is_progress(r, args@, patches@, i as int, old(o)@, final(o)@),
{
    let ghost was = o@;
    let count: usize = args.len();
    match kind {
        Kind::Separator => {
            o.positional = true;
        },
        Kind::Help => {
            return Ok(Progress::Done(Command::Help));
        },
        Kind::Check => {
            o.check = true;
        },
        Kind::Sheets => {
            o.sheets = true;
        },
        Kind::NoHeader => {
            o.header = false;
        },
        Kind::DryRun => {
            o.dry_run = true;
        },
        Kind::Exact => {
            o.exact = true;
        },
        Kind::IgnoreCase => {
            o.ignore_case = true;
        },
        Kind::Unknown => match &args[i] {
            Arg::Text(text) => {
                return Err(Error::UnknownOption(text.clone()));
            },
            Arg::Bytes(_) => {
                assert(false);
            },
        },
        Kind::File => {
            if o.path.is_some() {
                return Err(Error::OneFile);
            }
            o.path = Some(args[i].copy());
        },
        _ => {},
    }
    Ok(Progress::Next(i + 1))
}

/// An option with a text.
fn read_text(
    args: &Vec<Arg>,
    patches: &Vec<Result<Json, String>>,
    i: usize,
    kind: Kind,
    o: &mut Options,
) -> (r: Result<Progress, Error>)
    requires
        i < args@.len(),
        old(o).applied <= patches@.len(),
        old(o).wf(),
        kind == kind_of(args@[i as int]@, old(o).positional),
        kind == Kind::Sheet || kind == Kind::Sort || kind == Kind::Find || kind == Kind::Columns,
    ensures
        final(o).applied <= patches@.len(),
        final(o).wf(),
        is_progress(r, args@, patches@, i as int, old(o)@, final(o)@),
{
    let ghost was = o@;
    let count: usize = args.len();
    match kind {
        Kind::Sheet => match next_text(args, i + 1, "--sheet") {
            Ok(text) => {
                o.sheet = Some(text.to_owned());
                return Ok(Progress::Next(i + 2));
            },
            Err(error) => {
                return Err(error);
            },
        },
        Kind::Sort => match next_text(args, i + 1, "--sort") {
            Ok(text) => {
                o.sort = Some(text.to_owned());
                return Ok(Progress::Next(i + 2));
            },
            Err(error) => {
                return Err(error);
            },
        },
        Kind::Find => match next_text(args, i + 1, "--find") {
            Ok(text) => {
                o.find = Some(text.to_owned());
                return Ok(Progress::Next(i + 2));
            },
            Err(error) => {
                return Err(error);
            },
        },
        Kind::Columns => match next_text(args, i + 1, "--columns") {
            Ok(text) => {
                let columns = parse_columns(text);
                proof {
                    crate::a1::columns_result_is(text@, columns);
                }
                match columns {
                    Ok(columns) => {
                        o.columns = Some(columns);
                        return Ok(Progress::Next(i + 2));
                    },
                    Err(error) => {
                        return Err(Error::A1(error));
                    },
                }
            },
            Err(error) => {
                return Err(error);
            },
        },
        _ => {},
    }
    Ok(Progress::Next(i + 1))
}

/// An option with a text that stands for a value.
fn read_value(
    args: &Vec<Arg>,
    patches: &Vec<Result<Json, String>>,
    i: usize,
    kind: Kind,
    o: &mut Options,
) -> (r: Result<Progress, Error>)
    requires
        i < args@.len(),
        old(o).applied <= patches@.len(),
        old(o).wf(),
        kind == kind_of(args@[i as int]@, old(o).positional),
        kind == Kind::From || kind == Kind::Limit || kind == Kind::Read || kind == Kind::Delimiter,
    ensures
        final(o).applied <= patches@.len(),
        final(o).wf(),
        is_progress(r, args@, patches@, i as int, old(o)@, final(o)@),
{
    let ghost was = o@;
    let count: usize = args.len();
    match kind {
        Kind::From => match next_text(args, i + 1, "--from") {
            Ok(text) => match parse_cell(text) {
                Ok(at) => {
                    o.from = Some(at);
                    return Ok(Progress::Next(i + 2));
                },
                Err(error) => {
                    return Err(Error::A1(error));
                },
            },
            Err(error) => {
                return Err(error);
            },
        },
        Kind::Limit => match next_text(args, i + 1, "--limit") {
            Ok(text) => match parse_limit(text) {
                Some(n) => {
                    o.limit = Some(n);
                    return Ok(Progress::Next(i + 2));
                },
                None => {
                    return Err(Error::LimitOption);
                },
            },
            Err(error) => {
                return Err(error);
            },
        },
        Kind::Read => match next_text(args, i + 1, "--read") {
            Ok(text) => match read_range(text) {
                Ok(range) => {
                    o.read = Some(range);
                    return Ok(Progress::Next(i + 2));
                },
                Err(error) => {
                    return Err(error);
                },
            },
            Err(error) => {
                return Err(error);
            },
        },
        Kind::Delimiter => match next_text(args, i + 1, "--delimiter") {
            Ok(text) => match parse_delimiter(text) {
                Some(b) => {
                    o.delimiter = b;
                    return Ok(Progress::Next(i + 2));
                },
                None => {
                    return Err(Error::DelimiterOption);
                },
            },
            Err(error) => {
                return Err(error);
            },
        },
        _ => {},
    }
    Ok(Progress::Next(i + 1))
}

/// An option that edits or saves.
fn read_edit(
    args: &Vec<Arg>,
    patches: &Vec<Result<Json, String>>,
    i: usize,
    kind: Kind,
    o: &mut Options,
) -> (r: Result<Progress, Error>)
    requires
        i < args@.len(),
        old(o).applied <= patches@.len(),
        old(o).wf(),
        kind == kind_of(args@[i as int]@, old(o).positional),
        kind == Kind::SetCell || kind == Kind::Apply || kind == Kind::Output,
    ensures
        final(o).applied <= patches@.len(),
        final(o).wf(),
        is_progress(r, args@, patches@, i as int, old(o)@, final(o)@),
{
    let ghost was = o@;
    let count: usize = args.len();
    match kind {
        Kind::SetCell => {
            let at = match next_text(args, i + 1, "--set CELL") {
                Ok(text) => match parse_cell(text) {
                    Ok(at) => at,
                    Err(error) => {
                        return Err(Error::A1(error));
                    },
                },
                Err(error) => {
                    return Err(error);
                },
            };
            match next_text(args, i + 2, "--set VALUE") {
                Ok(value) => {
                    o.edits_requested = true;
                    o.edits.push((at, value.to_owned()));
                    assert(crate::ops::edits_view(o.edits@) =~= was.edits.push((at, value@)));
                    return Ok(Progress::Next(i + 3));
                },
                Err(error) => {
                    return Err(error);
                },
            }
        },
        Kind::Apply => {
            if i + 1 >= count {
                return Err(Error::MissingPatch);
            }
            if o.applied >= patches.len() {
                return Ok(Progress::Done(Command::Patch(args[i + 1].copy())));
            }
            match &patches[o.applied] {
                Err(reason) => {
                    return Err(Error::Patch(reason.clone()));
                },
                Ok(patch) => match parse_edits(patch) {
                    Err(error) => {
                        return Err(error);
                    },
                    Ok(edits) => {
                        let mut more = edits;
                        let ghost added = crate::ops::edits_view(more@);
                        o.edits_requested = true;
                        o.edits.append(&mut more);
                        o.applied = o.applied + 1;
                        assert(crate::ops::edits_view(o.edits@) =~= was.edits + added);
                        return Ok(Progress::Next(i + 2));
                    },
                },
            }
        },
        Kind::Output => {
            if i + 1 >= count {
                return Err(Error::MissingOutput);
            }
            o.output = Some(args[i + 1].copy());
            return Ok(Progress::Next(i + 2));
        },
        _ => {},
    }
    Ok(Progress::Next(i + 1))
}

/// Read the argument at `i` with the values that belong to it.
fn read_arg(
    args: &Vec<Arg>,
    patches: &Vec<Result<Json, String>>,
    i: usize,
    o: &mut Options,
) -> (r: Result<Progress, Error>)
    requires
        i < args@.len(),
        old(o).applied <= patches@.len(),
        old(o).wf(),
    ensures
        final(o).applied <= patches@.len(),
        final(o).wf(),
        is_progress(r, args@, patches@, i as int, old(o)@, final(o)@),
{
    let kind = classify(&args[i], o.positional);
    match kind {
        Kind::Sheet | Kind::Sort | Kind::Find | Kind::Columns => read_text(
            args,
            patches,
            i,
            kind,
            o,
        ),
        Kind::From | Kind::Limit | Kind::Read | Kind::Delimiter => read_value(
            args,
            patches,
            i,
            kind,
            o,
        ),
        Kind::SetCell | Kind::Apply | Kind::Output => read_edit(args, patches, i, kind, o),
        _ => read_flag(args, patches, i, kind, o),
    }
}

/// Parse and validate arguments (without the program name). Errors come in argument
/// order, then the combination rules in a fixed order. `patches` are what the files of the
/// first `--apply` options hold, or why they could not be read; a file beyond them is
/// asked for.
pub fn parse(args: &Vec<Arg>, patches: &Vec<Result<Json, String>>) -> (r: Result<Command, Error>)
    ensures
        is_outcome(r, meaning(args@, patches@)),
        r matches Ok(Command::Open(open)) ==> open.wf(),
{
    if args.len() == 0 {
        return Ok(Command::Help);
    }
    let mut o = Options::new();
    let mut i: usize = 0;
    while i < args.len()
        invariant
            i <= args@.len(),
            args@.len() > 0,
            o.applied <= patches@.len(),
            o.wf(),
            meaning(args@, patches@) == outcome(args@, patches@, i as int, o@),
        decreases args@.len() - i,
    {
        match read_arg(args, patches, i, &mut o) {
            Ok(Progress::Next(j)) => {
                i = j;
            },
            Ok(Progress::Done(command)) => {
                return Ok(command);
            },
            Err(error) => {
                return Err(error);
            },
        }
    }
    o.finish()
}

impl Open {
    /// There is something to do without the terminal UI.
    pub open spec fn is_headless(self) -> bool {
        self.check || self.read is Some || self.find is Some || self.edits@.len() > 0
            || self.dry_run || self.output is Some
    }

    /// Whether the command runs without a terminal.
    pub fn headless(&self) -> (r: bool)
        ensures
            r == self.is_headless(),
    {
        self.check || self.read.is_some() || self.find.is_some() || self.edits.len() > 0
            || self.dry_run || self.output.is_some()
    }

    /// What of the index the operations need.
    pub open spec fn needs(self) -> Option<Wait> {
        let changes = self.edits@.len() > 0 || self.sort is Some;
        if self.find is Some && !changes {
            None
        } else if self.read is Some && !changes && self.output is None && !self.check
            && !self.dry_run {
            Some(Wait::Rows((self.read->0.last.0 + 1) as u64))
        } else {
            Some(Wait::All)
        }
    }

    /// Reads can finish as soon as the requested rows are indexed; edits/saves
    /// wait for the complete scan so an encoding error cannot publish a partial result.
    /// Find validates what it scans itself; with edits or a sort it waits like them.
    pub fn wait(&self) -> (r: Option<Wait>)
        requires
            self.read matches Some(range) ==> range.last.0 < u64::MAX,
        ensures
            r == self.needs(),
    {
        let changes = self.edits.len() > 0 || self.sort.is_some();
        if self.find.is_some() && !changes {
            return None;
        }
        match &self.read {
            Some(range) => if !changes && self.output.is_none() && !self.check && !self.dry_run {
                Some(Wait::Rows(range.last.0 + 1))
            } else {
                Some(Wait::All)
            },
            None => Some(Wait::All),
        }
    }
}

/// What an accepted command line promises: edits are previewed or saved, never both; a
/// search neither reads, saves nor checks; a check does nothing else; and a header is
/// only given up for a sort that can be read and is put to use.
pub proof fn accepted_options_agree(o: OptionsView)
    requires
        combined(o) is Open,
    ensures
        combined(o) == Outcome::Open(o),
        o.path is Some,
        o.edits_requested ==> o.dry_run || o.output is Some,
        !(o.dry_run && o.output is Some),
        o.find is Some ==> o.read is None && o.output is None && !o.check,
        o.check ==> o.read is None && o.find is None && !o.edits_requested && !o.dry_run && o.output
            is None && o.sort is None,
        !o.header ==> o.sort is Some,
        o.sort is Some ==> o.read is Some || o.find is Some || o.dry_run || o.output is Some,
        o.exact || o.ignore_case || o.columns is Some || o.from is Some || o.limit is Some
            ==> o.find is Some,
{
}

/// What a headless command comes to.
#[derive(Debug)]
pub enum Done {
    Check(Check),
    Found(Found),
    /// The report, and what is to be written before it is given.
    Report(Report, Option<Save>),
}

/// A file to save to: its name and what is known of it.
#[derive(Debug)]
pub struct Target {
    pub name: String,
    pub place: Destination,
}

impl Open {
    /// A read that is asked for is of cells that have names, and a search starts at one.
    pub open spec fn wf(self) -> bool {
        &&& is_asked_read(self.read)
        &&& (self.find matches Some(find) ==> is_asked_start(find.from))
    }

    /// The sheet with its records indexed as far as the command needs.
    pub open spec fn is_indexed(self, before: Sheet, after: Sheet) -> bool {
        &&& after.same_source(before)
        &&& (self.needs() matches Some(wait) ==> crate::ops::is_enough(after, wait)
            && after.index.malformed is None)
    }

    /// The edits are made and the sort is in effect.
    pub open spec fn is_made(self, before: Sheet, after: Sheet) -> bool {
        let list = crate::ops::edits_view(self.edits@);
        let start = Sheet { index: after.index, ..before };
        &&& crate::ops::all_admitted(start, list, list.len() as int)
        &&& crate::ops::has_made(start, after, list, list.len() as int)
        &&& match self.sort {
            None => after.order == before.order,
            Some((spec, header)) => exists|keys: Vec<crate::sort::SortKey>|
                {
                    &&& #[trigger] crate::sort::sort_result(spec@, Ok(keys))
                    &&& after.is_sort(after.order, keys@, header)
                },
        }
    }

    /// A read that is asked for goes beyond the last record.
    pub open spec fn reads_beyond(self, sheet: Sheet) -> bool {
        self.read matches Some(range) && range.last.0 >= sheet.index.rows
    }

    /// The first edit that is refused is refused with the error, and those before it are
    /// made.
    pub open spec fn edit_refused(self, before: Sheet, after: Sheet, error: Error) -> bool {
        let list = crate::ops::edits_view(self.edits@);
        let start = Sheet { index: after.index, ..before };
        exists|i: int|
            {
                &&& 0 <= i < list.len()
                &&& crate::ops::all_admitted(start, list, i)
                &&& start.set_rule((#[trigger] list[i]).0.0, list[i].0.1, list[i].1) == Err::<
                    (),
                    Error,
                >(error)
                &&& crate::ops::has_made(start, after, list, i)
                &&& after.order == before.order
            }
    }

    /// The command is refused with the error once the records it needs are indexed. The
    /// read is checked first, then come the edits, the sort, the search and the save, each
    /// only where what comes before it is done.
    pub open spec fn refused(
        self,
        before: Sheet,
        after: Sheet,
        target: Option<Target>,
        error: Error,
    ) -> bool {
        let list = crate::ops::edits_view(self.edits@);
        let start = Sheet { index: after.index, ..before };
        if self.reads_beyond(after) {
            &&& error == Error::BeyondLastRow
            &&& after.edits == before.edits
            &&& after.undo == before.undo
            &&& after.order == before.order
            &&& after.revision == before.revision
        } else if !crate::ops::all_admitted(start, list, list.len() as int) {
            self.edit_refused(before, after, error)
        } else {
            &&& crate::ops::has_made(start, after, list, list.len() as int)
            &&& {
                ||| {
                    &&& self.sort matches Some((spec, header)) && sort_refused(
                        after,
                        spec@,
                        header,
                        error,
                    )
                    &&& after.order == before.order
                }
                ||| {
                    &&& self.is_made(before, after)
                    &&& match self.find {
                        Some(find) => find_refused(after, find, error),
                        None => target matches Some(t) && save_refused(after, t.place, error),
                    }
                }
            }
        }
    }

    /// The sort in effect is named as it was given.
    pub open spec fn names_sort(self, sort: Option<Sorted>) -> bool {
        match sort {
            Some(sorted) => self.sort matches Some((spec, header)) && sorted.columns@ == spec@
                && sorted.header == header,
            None => self.sort is None,
        }
    }
}

/// The bytes are those of the saved view, or the workbook is to be patched.
pub open spec fn saves(sheet: Sheet, place: Destination, save: Save) -> bool {
    &&& sheet.save_rule(place) is Ok
    &&& match save {
        Save::Native => sheet.is_native(place),
        Save::Csv(bytes) => {
            &&& !sheet.is_native(place)
            &&& sheet.edits_have_fields()
            &&& bytes@ == match sheet.order {
                Some(order) => sheet.sorted_lines(order.rows@, order.rows@.len() as int),
                None => sheet.plain_save(),
            }
        },
    }
}

/// A sort is refused with the error.
pub open spec fn sort_refused(
    sheet: Sheet,
    spec: Seq<char>,
    header: bool,
    error: Error,
) -> bool {
    crate::sort::sort_result(spec, Err(error)) || exists|keys: Vec<crate::sort::SortKey>|
        {
            &&& #[trigger] crate::sort::sort_result(spec, Ok(keys))
            &&& sheet.sort_outcome(keys@, header) == Err::<int, Error>(error)
        }
}

impl Find {
    /// Where the search starts.
    pub open spec fn start(self) -> Address {
        match self.from {
            Some(at) => at,
            None => (0u64, 0usize),
        }
    }

    /// How many matches it stops after.
    pub open spec fn count(self) -> usize {
        match self.limit {
            Some(n) => n,
            None => crate::ops::FIND_LIMIT,
        }
    }
}

/// A search is refused with the error.
pub open spec fn find_refused(sheet: Sheet, search: Find, error: Error) -> bool {
    let query = search.query;
    match error {
        Error::FindLimit => !(1 <= search.count() <= crate::ops::FIND_LIMIT_MAX),
        Error::EmptySearch => 1 <= search.count() <= crate::ops::FIND_LIMIT_MAX && query.text@.len()
            == 0 && !query.exact,
        Error::Malformed(m) => {
            &&& 1 <= search.count() <= crate::ops::FIND_LIMIT_MAX
            &&& query.text@.len() > 0 || query.exact
            &&& sheet.search_fails(query, search.start(), search.count(), m)
        },
        _ => false,
    }
}

/// A save is refused with the error.
pub open spec fn save_refused(sheet: Sheet, place: Destination, error: Error) -> bool {
    sheet.save_rule(place) == Err::<(), Error>(error) || {
        &&& sheet.save_rule(place) is Ok
        &&& !sheet.is_native(place)
        &&& !sheet.edits_have_fields()
        &&& error == if sheet.order is Some {
            Error::EditedColumnMissing
        } else {
            Error::EditedColumnGone
        }
    }
}

/// Edits of a CSV source that are all admitted are saved over it: once its records are
/// indexed, no error is left that the command could be refused with.
pub proof fn edits_are_saved_over_their_source(
    open: Open,
    before: Sheet,
    after: Sheet,
    target: Target,
    error: Error,
)
    requires
        after.wf(),
        before.workbook is None,
        open.is_indexed(before, after),
        open.edits@.len() > 0,
        open.output is Some,
        open.find is None,
        open.sort is None,
        !open.reads_beyond(after),
        crate::ops::all_admitted(
            Sheet { index: after.index, ..before },
            crate::ops::edits_view(open.edits@),
            open.edits@.len() as int,
        ),
        target.place.is_source,
        target.place.extension@ != "xlsx"@,
        target.place.extension@ != "ods"@,
    ensures
        !open.refused(before, after, Some(target), error),
{
    after.edits_have_their_fields();
    assert(open.needs() == Some(crate::ops::Wait::All));
}

/// The order of records depends on the source and the edits alone.
proof fn sorted_like(
    a: Sheet,
    b: Sheet,
    rows: Seq<crate::sort::RecordRef>,
    keys: Seq<crate::sort::SortKey>,
    header: bool,
)
    requires
        a.data@ == b.data@,
        a.delimiter == b.delimiter,
        a.edits@ == b.edits@,
        a.is_sorted(rows, keys, header),
    ensures
        b.is_sorted(rows, keys, header),
{
    assert forall|row: int| a.sort_keys(row, keys, header) == #[trigger] b.sort_keys(
        row,
        keys,
        header,
    ) by {
        assert(a.sort_keys(row, keys, header) =~= b.sort_keys(row, keys, header));
    }
}

/// Run a headless command on an open sheet. `elapsed_seconds` and `archive_bytes` are for a
/// check; `target` is the output file, where there is one.
pub fn run(
    sheet: &mut Sheet,
    open: Open,
    elapsed_seconds: String,
    archive_bytes: u64,
    target: Option<Target>,
) -> (r: Result<Done, Error>)
    requires
        old(sheet).wf(),
        open.wf(),
        open.output is Some == target is Some,
    ensures
        final(sheet).wf(),
        final(sheet).same_source(*old(sheet)),
        match r {
            Ok(Done::Check(check)) => {
                &&& open.check
                &&& open.is_indexed(*old(sheet), *final(sheet))
                &&& check.source.names(*final(sheet))
                &&& final(sheet).is_progress(check.progress)
                &&& check.elapsed_seconds@ == elapsed_seconds@
                &&& check.source_bytes == if final(sheet).workbook is Some {
                    Some(archive_bytes)
                } else {
                    None
                }
            },
            Ok(Done::Found(found)) => {
                &&& !open.check
                &&& open.is_indexed(*old(sheet), *final(sheet))
                &&& open.is_made(*old(sheet), *final(sheet))
                &&& found.wf()
                &&& open.names_sort(found.sort)
                &&& found.preview is Some == open.dry_run
                &&& (found.preview matches Some(changes) ==> crate::ops::are_net_changes(
                    Sheet { index: final(sheet).index, ..*old(sheet) },
                    crate::ops::edits_view(open.edits@),
                    changes.0@,
                ))
                &&& found.source.names(*final(sheet))
                &&& open.find matches Some(find) && {
                    &&& found.query == find.query
                    &&& found.from == find.start()
                    &&& found.limit == find.count()
                }
                &&& final(sheet).is_page(found.query, found.from, found.limit, found.result)
            },
            Ok(Done::Report(report, save)) => {
                &&& !open.check
                &&& open.find is None
                &&& open.is_indexed(*old(sheet), *final(sheet))
                &&& open.is_made(*old(sheet), *final(sheet))
                &&& crate::ops::are_net_changes(
                    Sheet { index: final(sheet).index, ..*old(sheet) },
                    crate::ops::edits_view(open.edits@),
                    report.changes.0@,
                )
                &&& report.wf()
                &&& open.names_sort(report.sort)
                &&& report.dry_run == open.dry_run
                &&& report.source.names(*final(sheet))
                &&& match report.read {
                    Some(read) => open.read == Some(read.range) && crate::ops::shows(
                        *final(sheet),
                        read,
                    ),
                    None => open.read is None,
                }
                &&& match target {
                    Some(t) => save is Some && saves(*final(sheet), t.place, save->0)
                        && crate::sheet::text_view(report.output) == Some(t.name@),
                    None => save is None && report.output is None,
                }
            },
            Err(error) => if open.needs() is Some && final(sheet).index.malformed is Some {
                &&& error == Error::Malformed(final(sheet).index.malformed->0)
                &&& final(sheet).edits == old(sheet).edits
                &&& final(sheet).undo == old(sheet).undo
                &&& final(sheet).order == old(sheet).order
                &&& final(sheet).revision == old(sheet).revision
            } else {
                &&& !open.check
                &&& open.is_indexed(*old(sheet), *final(sheet))
                &&& open.refused(*old(sheet), *final(sheet), target, error)
            },
        },
{
    if let Some(wait) = open.wait() {
        match wait_for_index(sheet, wait) {
            Ok(()) => {},
            Err(error) => {
                return Err(error);
            },
        }
    }
    let ghost start = *sheet;
    if open.check {
        return Ok(Done::Check(check(sheet, elapsed_seconds, archive_bytes)));
    }
    if let Some(range) = &open.read {
        match in_bounds(sheet, range) {
            Ok(()) => {},
            Err(error) => {
                return Err(error);
            },
        }
    }
    let ghost list = crate::ops::edits_view(open.edits@);
    assert(start == Sheet { index: start.index, ..*old(sheet) });
    let changes = match apply_edits(sheet, open.edits) {
        Ok(changes) => changes,
        Err(error) => {
            return Err(error);
        },
    };
    let ghost edited = *sheet;
    let sorted = match &open.sort {
        Some((spec, header)) => match sort(sheet, spec.as_str(), *header) {
            Ok(sorted) => {
                proof {
                    let keys = choose|keys: Vec<crate::sort::SortKey>|
                        {
                            &&& #[trigger] crate::sort::sort_result(spec@, Ok(keys))
                            &&& edited.sort_outcome(keys@, *header) is Ok
                            &&& edited.is_sort(sheet.order, keys@, *header)
                        };
                    sorted_like(edited, *sheet, sheet.order->0.rows@, keys@, *header);
                    assert(crate::sort::sort_result(spec@, Ok(keys)));
                }
                Some(sorted)
            },
            Err(error) => {
                assert(sort_refused(*sheet, spec@, *header, error));
                return Err(error);
            },
        },
        None => None,
    };
    assert(open.is_made(*old(sheet), *sheet));
    if let Some(search) = open.find {
        let ghost asked = search;
        return match find(sheet, search.query, search.from, search.limit) {
            Ok(found) => {
                let mut found = found;
                found.sort = sorted;
                found.preview = if open.dry_run {
                    Some(changes)
                } else {
                    None
                };
                Ok(Done::Found(found))
            },
            Err(error) => {
                assert(find_refused(*sheet, asked, error));
                Err(error)
            },
        };
    }
    let shown = match open.read {
        Some(range) => match read(sheet, range) {
            Ok(shown) => Some(shown),
            Err(error) => {
                return Err(error);
            },
        },
        None => None,
    };
    let (save, output) = match target {
        Some(target) => match sheet.save_as(&target.place) {
            Ok(save) => (Some(save), Some(target.name)),
            Err(error) => {
                assert(save_refused(*sheet, target.place, error));
                return Err(error);
            },
        },
        None => (None, None),
    };
    let report = Report {
        source: Source::of(sheet),
        changes,
        dry_run: open.dry_run,
        sort: sorted,
        read: shown,
        output,
    };
    Ok(Done::Report(report, save))
}

} // verus!
