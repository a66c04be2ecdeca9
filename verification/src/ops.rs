//! Headless operations: typed arguments in, typed results out. Which operations to run,
//! and in what order, is the caller's.
use crate::a1::{parse_cell, parse_range, Address, Range};
use crate::cells::{before, Cells};
use crate::error::Error;
use crate::find::{FindQuery, FindResult};
use crate::json::Json;
use crate::package::{are_names, sheet_names};
use crate::sheet::{Progress, Sheet};
use crate::sort::parse_sort;
use crate::text::same;
use vstd::prelude::*;

verus! {

/// Largest read, in cells and in records.
pub const READ_CELLS: usize = 100_000;

pub const READ_ROWS: u64 = 10_000;

/// Find matches per call: the default and the maximum.
pub const FIND_LIMIT: usize = 100;

pub const FIND_LIMIT_MAX: usize = 10_000;

/// The effective find limit: the default when absent, an error when out of range.
pub fn find_limit(limit: Option<usize>) -> (r: Result<usize, Error>)
    ensures
        r == match limit {
            None => Ok::<usize, Error>(FIND_LIMIT),
            Some(n) => if 1 <= n <= FIND_LIMIT_MAX {
                Ok(n)
            } else {
                Err(Error::FindLimit)
            },
        },
{
    match limit {
        None => Ok(FIND_LIMIT),
        Some(n) => if 1 <= n && n <= FIND_LIMIT_MAX {
            Ok(n)
        } else {
            Err(Error::FindLimit)
        },
    }
}

/// One cell edit: zero-based address and new text.
pub type Edit = (Address, String);

/// How much of the index an operation needs before it runs.
#[derive(Clone, Copy, Debug, PartialEq, Eq, Structural)]
pub enum Wait {
    /// At least this many records, e.g. `range.last.0 + 1` for a read.
    Rows(u64),
    /// The complete scan, so that an encoding error cannot publish a partial result.
    All,
}

/// The index has what is waited for.
pub open spec fn is_enough(sheet: Sheet, wait: Wait) -> bool {
    sheet.index.done || (wait matches Wait::Rows(rows) && sheet.index.rows >= rows)
}

/// Index records until `wait` is satisfied; an indexing error is returned as soon as it is
/// seen.
pub fn wait_for_index(sheet: &mut Sheet, wait: Wait) -> (r: Result<(), Error>)
    requires
        old(sheet).wf(),
    ensures
        final(sheet).wf(),
        final(sheet).same_source(*old(sheet)),
        final(sheet).edits == old(sheet).edits,
        final(sheet).undo == old(sheet).undo,
        final(sheet).order == old(sheet).order,
        final(sheet).revision == old(sheet).revision,
        is_enough(*old(sheet), wait) ==> *final(sheet) == *old(sheet),
        match r {
            Ok(()) => final(sheet).index.malformed is None && is_enough(*final(sheet), wait),
            Err(error) => final(sheet).index.malformed is Some && error == Error::Malformed(
                final(sheet).index.malformed->0,
            ),
        },
{
    let size: usize = sheet.data.len();
    loop
        invariant
            sheet.wf(),
            size == sheet.data@.len(),
            sheet.same_source(*old(sheet)),
            sheet.edits == old(sheet).edits,
            sheet.undo == old(sheet).undo,
            sheet.order == old(sheet).order,
            sheet.revision == old(sheet).revision,
            is_enough(*old(sheet), wait) ==> *sheet == *old(sheet),
        decreases
            if sheet.index.done {
                0int
            } else {
                size - sheet.index.rows + 1
            },
    {
        if let Some(m) = sheet.index.malformed {
            return Err(Error::Malformed(m));
        }
        let enough = match wait {
            Wait::Rows(rows) => sheet.index.rows >= rows,
            Wait::All => false,
        };
        if sheet.index.done || enough {
            return Ok(());
        }
        sheet.advance();
    }
}

/// What was opened. Every document names it the same way.
#[derive(Clone, Debug, PartialEq, Eq)]
pub struct Source {
    pub path: String,
    /// Workbook sheet name and format (`XLSX` or `ODS`); `None` for CSV.
    pub workbook: Option<(String, String)>,
}

impl Source {
    /// The source names what the sheet was opened from.
    pub open spec fn names(self, sheet: Sheet) -> bool {
        &&& self.path@ == sheet.path@
        &&& match self.workbook {
            Some((name, format)) => sheet.workbook matches Some(book) && name@ == book.name@
                && format@ == book.format.name(),
            None => sheet.workbook is None,
        }
    }

    /// The source of a sheet.
    pub fn of(sheet: &Sheet) -> (r: Self)
        ensures
            r.names(*sheet),
    {
        Self {
            path: sheet.path.clone(),
            workbook: match &sheet.workbook {
                Some(book) => Some((book.name.clone(), book.format.as_str().to_owned())),
                None => None,
            },
        }
    }
}

/// Workbook sheet names.
#[derive(Clone, Debug, PartialEq, Eq)]
pub struct Sheets {
    /// The path as given.
    pub source: String,
    pub names: Vec<String>,
}

/// The sheets of a workbook with this extension.
pub fn sheets(path: String, extension: &str, data: &[u8]) -> (r: Result<Sheets, Error>)
    ensures
        are_names(
            data@,
            extension@,
            match r {
                Ok(sheets) => Ok(crate::text::views(sheets.names@)),
                Err(error) => Err(error.message()),
            },
        ),
        r matches Ok(sheets) ==> sheets.source@ == path@,
{
    match sheet_names(data, extension) {
        Ok(names) => Ok(Sheets { source: path, names }),
        Err(error) => Err(error),
    }
}

/// Scan counts. Run after `wait_for_index` of everything.
#[derive(Clone, Debug, PartialEq, Eq)]
pub struct Check {
    pub progress: Progress,
    /// The time since opening began, in seconds.
    pub elapsed_seconds: String,
    pub source: Source,
    /// Workbook archive size; the counts describe its extracted sheet.
    pub source_bytes: Option<u64>,
}

/// The counts of a sheet, opened from an archive of `archive_bytes` where it is a workbook.
pub fn check(sheet: &Sheet, elapsed_seconds: String, archive_bytes: u64) -> (r: Check)
    requires
        sheet.wf(),
    ensures
        r.source.names(*sheet),
        sheet.is_progress(r.progress),
        r.elapsed_seconds@ == elapsed_seconds@,
        r.source_bytes == if sheet.workbook is Some {
            Some(archive_bytes)
        } else {
            None
        },
{
    Check {
        progress: sheet.progress(),
        elapsed_seconds,
        source: Source::of(sheet),
        source_bytes: if sheet.workbook.is_some() {
            Some(archive_bytes)
        } else {
            None
        },
    }
}

/// The value of a key of an object.
pub open spec fn field_of(fields: Seq<(String, Json)>, key: Seq<char>) -> Option<Json>
    decreases fields.len(),
{
    if fields.len() == 0 {
        None
    } else if fields[0].0@ == key {
        Some(fields[0].1)
    } else {
        field_of(fields.skip(1), key)
    }
}

/// What one entry of a patch gives.
pub open spec fn edit_of(entry: Json) -> Result<(Address, Seq<char>), Error> {
    match entry {
        Json::Object(fields) => if fields@.len() != 2 {
            Err(Error::PatchKeys)
        } else {
            match field_of(fields@, "cell"@) {
                Some(Json::Text(cell)) => match field_of(fields@, "value"@) {
                    Some(Json::Text(value)) => match crate::a1::cell_of(cell@) {
                        Ok(at) => Ok((at, value@)),
                        Err(error) => Err(Error::A1(error)),
                    },
                    _ => Err(Error::PatchValue),
                },
                _ => Err(Error::PatchCell),
            }
        },
        _ => Err(Error::PatchEntry),
    }
}

fn find_field<'a>(fields: &'a Vec<(String, Json)>, key: &str) -> (r: Option<&'a Json>)
    ensures
        match r {
            Some(value) => field_of(fields@, key@) == Some(*value),
            None => field_of(fields@, key@) is None,
        },
{
    let mut i: usize = 0;
    assert(fields@.skip(0) =~= fields@);
    while i < fields.len()
        invariant
            i <= fields@.len(),
            field_of(fields@, key@) == field_of(fields@.skip(i as int), key@),
        decreases fields@.len() - i,
    {
        assert(fields@.skip(i as int).skip(1) =~= fields@.skip(i + 1));
        if same(fields[i].0.as_str(), key) {
            return Some(&fields[i].1);
        }
        i = i + 1;
    }
    None
}

fn parse_edit(entry: &Json) -> (r: Result<Edit, Error>)
    ensures
        match r {
            Ok(edit) => edit_of(*entry) == Ok::<(Address, Seq<char>), Error>((edit.0, edit.1@)),
            Err(error) => edit_of(*entry) == Err::<(Address, Seq<char>), Error>(error),
        },
{
    match entry {
        Json::Object(fields) => {
            if fields.len() != 2 {
                return Err(Error::PatchKeys);
            }
            let cell = match find_field(fields, "cell") {
                Some(Json::Text(cell)) => cell,
                _ => {
                    return Err(Error::PatchCell);
                },
            };
            let value = match find_field(fields, "value") {
                Some(Json::Text(value)) => value,
                _ => {
                    return Err(Error::PatchValue);
                },
            };
            match parse_cell(cell.as_str()) {
                Ok(at) => Ok((at, value.clone())),
                Err(error) => Err(Error::A1(error)),
            }
        },
        _ => Err(Error::PatchEntry),
    }
}

/// The cells and texts of a list of edits.
pub open spec fn edits_view(edits: Seq<Edit>) -> Seq<(Address, Seq<char>)> {
    edits.map_values(|e: Edit| (e.0, e.1@))
}

/// The edits of the first `n` entries of a patch, or the error of the first that has one.
pub open spec fn entries_edits(list: Seq<Json>, n: int) -> Result<Seq<(Address, Seq<char>)>, Error>
    decreases n,
{
    if n <= 0 {
        Ok(Seq::empty())
    } else {
        match entries_edits(list, n - 1) {
            Err(error) => Err(error),
            Ok(edits) => match edit_of(list[n - 1]) {
                Err(error) => Err(error),
                Ok(edit) => Ok(edits.push(edit)),
            },
        }
    }
}

/// The edits of a patch, or why it is refused.
pub open spec fn patch_edits(patch: Json) -> Result<Seq<(Address, Seq<char>)>, Error> {
    match patch {
        Json::List(list) => entries_edits(list@, list@.len() as int),
        _ => Err(Error::PatchArray),
    }
}

/// An entry that is refused refuses the patch.
proof fn entries_stop(list: Seq<Json>, k: int, n: int)
    requires
        0 <= k <= n,
        entries_edits(list, k) is Err,
    ensures
        entries_edits(list, n) == entries_edits(list, k),
    decreases n - k,
{
    if k < n {
        entries_stop(list, k, n - 1);
    }
}

/// `[{"cell": "B7", "value": "text"}, ...]`: the edits, or the error of the first entry
/// that has one.
pub fn parse_edits(patch: &Json) -> (r: Result<Vec<Edit>, Error>)
    ensures
        match r {
            Ok(edits) => patch_edits(*patch) == Ok::<Seq<(Address, Seq<char>)>, Error>(
                edits_view(edits@),
            ),
            Err(error) => patch_edits(*patch) == Err::<Seq<(Address, Seq<char>)>, Error>(error),
        },
{
    let list = match patch {
        Json::List(list) => list,
        _ => {
            return Err(Error::PatchArray);
        },
    };
    let mut edits: Vec<Edit> = Vec::new();
    let mut i: usize = 0;
    assert(edits_view(edits@) =~= Seq::empty());
    while i < list.len()
        invariant
            i <= list@.len(),
            *patch == Json::List(*list),
            entries_edits(list@, i as int) == Ok::<Seq<(Address, Seq<char>)>, Error>(
                edits_view(edits@),
            ),
        decreases list@.len() - i,
    {
        let ghost earlier = edits_view(edits@);
        match parse_edit(&list[i]) {
            Ok(edit) => {
                edits.push(edit);
                assert(edits_view(edits@) =~= earlier.push((edit.0, edit.1@)));
            },
            Err(error) => {
                proof {
                    entries_stop(list@, i + 1, list@.len() as int);
                }
                return Err(error);
            },
        }
        i = i + 1;
    }
    Ok(edits)
}

/// A cell whose text an edit would change, with the stored and the new text.
#[derive(Debug, PartialEq, Eq)]
pub struct Change {
    pub cell: Address,
    pub before: String,
    pub after: String,
}

/// Net changes by cell; edits that restore the stored value are omitted.
#[derive(Debug, Default, PartialEq, Eq)]
pub struct Changes(pub Vec<Change>);

/// The value stored in a cell of the view; nothing where the record has no such field.
pub open spec fn stored_text(sheet: Sheet, at: Address) -> Seq<char> {
    let row = at.0 as int;
    if row < sheet.view_rows() && at.1 < sheet.row(sheet.source_of(row)).len() {
        sheet.row(sheet.source_of(row))[at.1 as int]
    } else {
        Seq::empty()
    }
}

/// The pending texts once the first `n` edits are made.
pub open spec fn edits_made(sheet: Sheet, edits: Seq<(Address, Seq<char>)>, n: int) -> Map<
    Address,
    Seq<char>,
>
    decreases n,
{
    if n <= 0 {
        sheet.edits@
    } else {
        let (at, value) = edits[n - 1];
        let earlier = edits_made(sheet, edits, n - 1);
        let key = sheet.key(at.0, at.1);
        if crate::sheet::held(earlier, key) == Some(value) {
            earlier
        } else if sheet.stored(at.0 as int, at.1 as int) == Some(value) {
            earlier.remove(key)
        } else {
            earlier.insert(key, value)
        }
    }
}

/// Setting a cell after these edits would change what it shows.
pub open spec fn makes_change(
    sheet: Sheet,
    earlier: Map<Address, Seq<char>>,
    at: Address,
    value: Seq<char>,
) -> bool {
    match crate::sheet::held(earlier, sheet.key(at.0, at.1)) {
        Some(text) => text != value,
        None => sheet.stored(at.0 as int, at.1 as int) != Some(value),
    }
}

/// The history once the first `n` edits are made: a step for each that changed a cell, with
/// the edit that the cell had before.
pub open spec fn history_made(sheet: Sheet, edits: Seq<(Address, Seq<char>)>, n: int) -> Seq<
    (Address, Option<Seq<char>>),
>
    decreases n,
{
    if n <= 0 {
        crate::sheet::history(sheet.undo@)
    } else {
        let (at, value) = edits[n - 1];
        let earlier = edits_made(sheet, edits, n - 1);
        let key = sheet.key(at.0, at.1);
        let steps = history_made(sheet, edits, n - 1);
        if makes_change(sheet, earlier, at, value) {
            steps.push((key, crate::sheet::held(earlier, key)))
        } else {
            steps
        }
    }
}

/// The revision once the first `n` edits are made: each that changes a cell makes a new one.
pub open spec fn revision_made(sheet: Sheet, edits: Seq<(Address, Seq<char>)>, n: int) -> u64
    decreases n,
{
    if n <= 0 {
        sheet.revision
    } else {
        let (at, value) = edits[n - 1];
        let before = revision_made(sheet, edits, n - 1);
        if makes_change(sheet, edits_made(sheet, edits, n - 1), at, value) {
            crate::sheet::next_revision(before)
        } else {
            before
        }
    }
}

/// The sheet has the edits, the history and the revision that the first `n` edits leave.
pub open spec fn has_made(
    before: Sheet,
    after: Sheet,
    edits: Seq<(Address, Seq<char>)>,
    n: int,
) -> bool {
    &&& after.edits@ == edits_made(before, edits, n)
    &&& crate::sheet::history(after.undo@) == history_made(before, edits, n)
    &&& after.revision == revision_made(before, edits, n)
}

/// The last text that the first `n` edits give a cell.
pub open spec fn last_text(edits: Seq<(Address, Seq<char>)>, at: Address, n: int) -> Option<
    Seq<char>,
>
    decreases n,
{
    if n <= 0 {
        None
    } else if edits[n - 1].0 == at {
        Some(edits[n - 1].1)
    } else {
        last_text(edits, at, n - 1)
    }
}

/// Every edit is admitted by the sheet.
pub open spec fn all_admitted(sheet: Sheet, edits: Seq<(Address, Seq<char>)>, n: int) -> bool {
    forall|i: int|
        0 <= i < n ==> sheet.set_rule((#[trigger] edits[i]).0.0, edits[i].0.1, edits[i].1) is Ok
}

/// The changes list every cell that ends up with another text than the stored one, once
/// and in order.
pub open spec fn are_net_changes(
    sheet: Sheet,
    edits: Seq<(Address, Seq<char>)>,
    changes: Seq<Change>,
) -> bool {
    &&& forall|i: int, j: int|
        0 <= i < j < changes.len() ==> before(
            (#[trigger] changes[i]).cell,
            (#[trigger] changes[j]).cell,
        )
    &&& forall|i: int|
        0 <= i < changes.len() ==> {
            let change = #[trigger] changes[i];
            &&& change.before@ == stored_text(sheet, change.cell)
            &&& last_text(edits, change.cell, edits.len() as int) == Some(change.after@)
            &&& change.before@ != change.after@
        }
    &&& forall|at: Address| #[trigger]
        is_changed(sheet, edits, at) ==> exists|i: int|
            0 <= i < changes.len() && (#[trigger] changes[i]).cell == at
}

/// A cell that an admitted edit gives a text is in a row of the view.
proof fn changed_cell_has_row(
    sheet: Sheet,
    edits: Seq<(Address, Seq<char>)>,
    at: Address,
    n: int,
)
    requires
        all_admitted(sheet, edits, n),
        last_text(edits, at, n) is Some,
        n <= edits.len(),
    ensures
        at.0 < sheet.view_rows(),
    decreases n,
{
    if n > 0 {
        if edits[n - 1].0 == at {
            assert(sheet.set_rule(edits[n - 1].0.0, edits[n - 1].0.1, edits[n - 1].1) is Ok);
        } else {
            changed_cell_has_row(sheet, edits, at, n - 1);
        }
    }
}

/// The edits leave the cell with another text than the stored one.
pub open spec fn is_changed(sheet: Sheet, edits: Seq<(Address, Seq<char>)>, at: Address) -> bool {
    last_text(edits, at, edits.len() as int) matches Some(text) && text != stored_text(sheet, at)
}

fn stored_value(sheet: &Sheet, at: Address) -> (r: String)
    requires
        sheet.wf(),
    ensures
        r@ == stored_text(*sheet, at),
{
    let records = sheet.window(at.0, 1);
    if records.len() > 0 {
        assert(crate::text::views(records@[0]@) == sheet.row(sheet.source_of(at.0 as int)));
        if at.1 < records[0].len() {
            return records[0][at.1].clone();
        }
    }
    String::new()
}

/// Net changes of edits that are all made.
fn net_changes(sheet: &Sheet, last: &Cells, Ghost(edits): Ghost<Seq<(Address, Seq<char>)>>) -> (r:
    Changes)
    requires
        sheet.wf(),
        last.wf(),
        forall|at: Address| #[trigger]
            last@.contains_key(at) <==> last_text(edits, at, edits.len() as int) is Some,
        forall|at: Address| #[trigger]
            last@.contains_key(at) ==> last_text(edits, at, edits.len() as int) == Some(last@[at]),
    ensures
        are_net_changes(*sheet, edits, r.0@),
{
    let mut changes: Vec<Change> = Vec::new();
    let mut i: usize = 0;
    while i < last.entries.len()
        invariant
            sheet.wf(),
            last.wf(),
            forall|at: Address| #[trigger]
                last@.contains_key(at) ==> last_text(edits, at, edits.len() as int) == Some(
                    last@[at],
                ),
            i <= last.entries@.len(),
            forall|a: int, b: int|
                0 <= a < b < changes@.len() ==> before(
                    (#[trigger] changes@[a]).cell,
                    (#[trigger] changes@[b]).cell,
                ),
            forall|a: int|
                0 <= a < changes@.len() ==> {
                    let change = #[trigger] changes@[a];
                    &&& change.before@ == stored_text(*sheet, change.cell)
                    &&& last_text(edits, change.cell, edits.len() as int) == Some(change.after@)
                    &&& change.before@ != change.after@
                    &&& i < last.entries@.len() ==> before(change.cell, last.entries@[i as int].0)
                },
            forall|k: int|
                0 <= k < i && stored_text(*sheet, (#[trigger] last.entries@[k]).0)
                    != last.entries@[k].1@ ==> exists|a: int|
                    0 <= a < changes@.len() && (#[trigger] changes@[a]).cell == last.entries@[k].0,
        decreases last.entries@.len() - i,
    {
        let at = last.entries[i].0;
        let stored = stored_value(sheet, at);
        proof {
            last.entry_is_held(i as int);
            if i + 1 < last.entries@.len() {
                assert(before(last.entries@[i as int].0, last.entries@[i + 1].0));
            }
        }
        let ghost earlier = changes@;
        if !same(stored.as_str(), last.entries[i].1.as_str()) {
            let text = last.entries[i].1.clone();
            changes.push(Change { cell: at, before: stored, after: text });
            assert(changes@[earlier.len() as int].cell == at);
        }
        proof {
            assert forall|a: int| 0 <= a < changes@.len() && i + 1 < last.entries@.len() implies
                before((#[trigger] changes@[a]).cell, last.entries@[i + 1].0) by {
                if a < earlier.len() {
                    assert(changes@[a] == earlier[a]);
                }
            }
            assert forall|k: int|
                0 <= k < i + 1 && stored_text(*sheet, (#[trigger] last.entries@[k]).0)
                    != last.entries@[k].1@ implies exists|a: int|
                0 <= a < changes@.len() && (#[trigger] changes@[a]).cell == last.entries@[k].0 by {
                if k < i {
                    let a = choose|a: int|
                        0 <= a < earlier.len() && (#[trigger] earlier[a]).cell
                            == last.entries@[k].0;
                    assert(changes@[a].cell == last.entries@[k].0);
                }
            }
        }
        i = i + 1;
    }
    proof {
        assert forall|at: Address| #[trigger] is_changed(*sheet, edits, at) implies exists|a: int|
            0 <= a < changes@.len() && (#[trigger] changes@[a]).cell == at by {
            assert(last@.contains_key(at));
            let k = crate::cells::place(last.entries@, at);
            assert(last.entries@[k].0 == at);
            last.entry_is_held(k);
        }
    }
    Changes(changes)
}

/// Apply edits in order, stopping at the first refused one; those before it stay made.
/// `before` is the stored value.
pub fn apply_edits(sheet: &mut Sheet, edits: Vec<Edit>) -> (r: Result<Changes, Error>)
    requires
        old(sheet).wf(),
    ensures
        final(sheet).wf(),
        final(sheet).same_source(*old(sheet)),
        final(sheet).index == old(sheet).index,
        final(sheet).order == old(sheet).order,
        ({
            let list = edits_view(edits@);
            match r {
                Ok(changes) => {
                    &&& all_admitted(*old(sheet), list, list.len() as int)
                    &&& has_made(*old(sheet), *final(sheet), list, list.len() as int)
                    &&& are_net_changes(*old(sheet), list, changes.0@)
                    &&& changes.wf()
                },
                Err(error) => exists|i: int|
                    {
                        &&& 0 <= i < list.len()
                        &&& all_admitted(*old(sheet), list, i)
                        &&& old(sheet).set_rule(
                            (#[trigger] list[i]).0.0,
                            list[i].0.1,
                            list[i].1,
                        ) == Err::<(), Error>(error)
                        &&& has_made(*old(sheet), *final(sheet), list, i)
                    },
            }
        }),
{
    let ghost list = edits_view(edits@);
    let ghost was = *sheet;
    let mut last = Cells::new();
    let mut i: usize = 0;
    while i < edits.len()
        invariant
            i <= edits@.len(),
            list == edits_view(edits@),
            was == *old(sheet),
            was.wf(),
            sheet.wf(),
            sheet.same_source(was),
            sheet.index == was.index,
            sheet.order == was.order,
            has_made(was, *sheet, list, i as int),
            all_admitted(was, list, i as int),
            last.wf(),
            forall|at: Address| #[trigger]
                last@.contains_key(at) <==> last_text(list, at, i as int) is Some,
            forall|at: Address| #[trigger]
                last@.contains_key(at) ==> last_text(list, at, i as int) == Some(last@[at]),
        decreases edits@.len() - i,
    {
        let at = edits[i].0;
        let value = edits[i].1.clone();
        let ghost now = *sheet;
        assert(list[i as int] == (at, value@));
        proof {
            assert(now.set_rule(at.0, at.1, value@) == was.set_rule(at.0, at.1, value@));
            assert(now.stored(at.0 as int, at.1 as int) == was.stored(at.0 as int, at.1 as int));
        }
        match sheet.set(at.0, at.1, value) {
            Ok(()) => {
                proof {
                    let key = was.key(at.0, at.1);
                    let next = edits_made(was, list, i + 1);
                    assert(sheet.edits@ =~= next);
                    assert(now.changes(at.0, at.1, value@) == makes_change(
                        was,
                        edits_made(was, list, i as int),
                        at,
                        value@,
                    ));
                }
            },
            Err(error) => {
                assert(list[i as int].0 == at);
                return Err(error);
            },
        }
        last.insert(at, edits[i].1.clone());
        i = i + 1;
    }
    let changes = net_changes(sheet, &last, Ghost(list));
    proof {
        assert forall|at: Address| stored_text(*sheet, at) == #[trigger] stored_text(was, at) by {}
        assert(are_net_changes(was, list, changes.0@)) by {
            assert forall|at: Address| #[trigger] is_changed(was, list, at) implies exists|k: int|
                0 <= k < changes.0@.len() && (#[trigger] changes.0@[k]).cell == at by {
                assert(is_changed(*sheet, list, at));
            }
        }
        assert forall|k: int| 0 <= k < changes.0@.len() implies (#[trigger] changes.0@[k]).cell.0
            < u64::MAX by {
            changed_cell_has_row(was, list, changes.0@[k].cell, list.len() as int);
        }
    }
    Ok(changes)
}

/// A sort in effect, as it was given.
#[derive(Clone, Debug, PartialEq, Eq)]
pub struct Sorted {
    /// The specification as given, such as `B,-D:n`.
    pub columns: String,
    pub header: bool,
}

/// Sort the view; later reads and finds use sorted-view coordinates, edits source ones.
/// A refused sort keeps the view.
pub fn sort(sheet: &mut Sheet, spec: &str, header: bool) -> (r: Result<Sorted, Error>)
    requires
        old(sheet).wf(),
    ensures
        final(sheet).wf(),
        match r {
            Ok(sorted) => exists|keys: Vec<crate::sort::SortKey>|
                {
                    &&& sorted.columns@ == spec@
                    &&& sorted.header == header
                    &&& #[trigger] crate::sort::sort_result(spec@, Ok(keys))
                    &&& old(sheet).sort_outcome(keys@, header) is Ok
                    &&& *final(sheet) == (Sheet { order: final(sheet).order, ..*old(sheet) })
                    &&& old(sheet).is_sort(final(sheet).order, keys@, header)
                },
            Err(error) => {
                &&& *final(sheet) == *old(sheet)
                &&& crate::sort::sort_result(spec@, Err(error)) || exists|
                    keys: Vec<crate::sort::SortKey>,
                |
                    {
                        &&& #[trigger] crate::sort::sort_result(spec@, Ok(keys))
                        &&& old(sheet).sort_outcome(keys@, header) == Err::<int, Error>(error)
                    }
            },
        },
{
    let keys = match parse_sort(spec) {
        Ok(keys) => keys,
        Err(error) => {
            return Err(error);
        },
    };
    proof {
        let list = crate::text::parts(spec@, ',');
        assert forall|k: int| 0 <= k < keys@.len() implies (#[trigger] keys@[k]).column
            < usize::MAX by {
            assert(crate::sort::key_at(list, k) == Ok::<crate::sort::SortKey, Error>(keys@[k]));
            crate::a1::column_letters_read_back(crate::sort::key_parts(list[k]).1);
        }
        assert(crate::sort::sort_result(spec@, Ok(keys)));
    }
    let ghost wanted = keys;
    match sheet.start_sort(keys, header) {
        Ok(order) => {
            let ghost was = *sheet;
            match sheet.apply_sort(order) {
                Ok(()) => {
                    assert(crate::sort::sort_result(spec@, Ok(wanted)));
                    Ok(Sorted { columns: spec.to_owned(), header })
                },
                Err(error) => {
                    assert(false);
                    Err(error)
                },
            }
        },
        Err(error) => {
            assert(crate::sort::sort_result(spec@, Ok(wanted)));
            Err(error)
        },
    }
}

/// The range is within the read limits.
pub open spec fn is_readable(range: Range) -> bool {
    let rows = range.last.0 - range.first.0 + 1;
    let columns = range.last.1 - range.first.1 + 1;
    rows <= READ_ROWS && rows * columns <= READ_CELLS
}

/// A read rectangle within the read limits.
pub fn read_range(text: &str) -> (r: Result<Range, Error>)
    ensures
        r == match crate::a1::range_of(text@) {
            Err(error) => Err::<Range, Error>(Error::A1(error)),
            Ok(range) => if is_readable(range) {
                Ok(range)
            } else {
                Err(Error::ReadLimit)
            },
        },
{
    match parse_range(text) {
        Err(error) => Err(Error::A1(error)),
        Ok(range) => {
            let rows = range.rows();
            let columns = range.columns();
            if rows > READ_ROWS {
                return Err(Error::ReadLimit);
            }
            match (rows as usize).checked_mul(columns) {
                Some(n) => if n > READ_CELLS {
                    Err(Error::ReadLimit)
                } else {
                    Ok(range)
                },
                None => Err(Error::ReadLimit),
            }
        },
    }
}

/// Refuse a range below the indexed records. Run after `wait_for_index`.
pub fn in_bounds(sheet: &Sheet, range: &Range) -> (r: Result<(), Error>)
    ensures
        r == if range.last.0 >= sheet.index.rows {
            Err::<(), Error>(Error::BeyondLastRow)
        } else {
            Ok(())
        },
{
    if range.last.0 >= sheet.index.rows {
        Err(Error::BeyondLastRow)
    } else {
        Ok(())
    }
}

/// A rectangle that was read.
#[derive(Debug, PartialEq, Eq)]
pub struct Read {
    pub range: Range,
    /// `None` where a ragged CSV record has no such field.
    pub rows: Vec<Vec<Option<String>>>,
    /// Formula text by cell, for workbooks only.
    pub formulas: Option<Cells>,
}

/// The value that a read gives for a cell of the view.
pub open spec fn read_value(sheet: Sheet, row: int, col: int) -> Option<Seq<char>> {
    let at = sheet.key(row as u64, col as usize);
    if sheet.edits@.contains_key(at) {
        Some(sheet.edits@[at])
    } else {
        sheet.stored(row, col)
    }
}

fn read_row(sheet: &Sheet, row: u64, record: &Vec<String>, first: usize, last: usize) -> (r: Vec<
    Option<String>,
>)
    requires
        sheet.wf(),
        first <= last,
        last < usize::MAX,
        row < sheet.view_rows(),
        crate::text::views(record@) == sheet.row(sheet.source_of(row as int)),
    ensures
        r@.len() == last - first + 1,
        forall|j: int|
            0 <= j < r@.len() ==> crate::sheet::text_view(#[trigger] r@[j]) == read_value(
                *sheet,
                row as int,
                first + j,
            ),
{
    let mut values: Vec<Option<String>> = Vec::new();
    let count: usize = last - first + 1;
    let mut j: usize = 0;
    while j < count
        invariant
            sheet.wf(),
            count == last - first + 1,
            j == values@.len() <= count,
            row < sheet.view_rows(),
            crate::text::views(record@) == sheet.row(sheet.source_of(row as int)),
            forall|k: int|
                0 <= k < j ==> crate::sheet::text_view(#[trigger] values@[k]) == read_value(
                    *sheet,
                    row as int,
                    first + k,
                ),
        decreases count - j,
    {
        let value = match sheet.cell_value(row, first + j, record) {
            Some(text) => Some(text.to_owned()),
            None => None,
        };
        values.push(value);
        j = j + 1;
    }
    values
}

/// The formulas of a rectangle by view cell.
fn read_formulas(sheet: &Sheet, range: &Range) -> (r: Cells)
    requires
        sheet.wf(),
        range.wf(),
        range.last.0 < u64::MAX,
        range.last.1 < usize::MAX,
    ensures
        r.wf(),
        forall|at: Address| #[trigger]
            r@.contains_key(at) <==> crate::workbook::in_rectangle(at, (range.first, range.last))
                && sheet.formula_of(at.0, at.1) is Some,
        forall|at: Address| #[trigger]
            r@.contains_key(at) ==> sheet.formula_of(at.0, at.1) == Some(r@[at]),
{
    let mut formulas = Cells::new();
    let mut row: u64 = range.first.0;
    while row <= range.last.0
        invariant
            sheet.wf(),
            range.wf(),
            range.last.0 < u64::MAX,
            range.last.1 < usize::MAX,
            range.first.0 <= row <= range.last.0 + 1,
            formulas.wf(),
            forall|at: Address| #[trigger]
                formulas@.contains_key(at) <==> crate::workbook::in_rectangle(
                    at,
                    (range.first, range.last),
                ) && at.0 < row && sheet.formula_of(at.0, at.1) is Some,
            forall|at: Address| #[trigger]
                formulas@.contains_key(at) ==> sheet.formula_of(at.0, at.1) == Some(formulas@[at]),
        decreases range.last.0 + 1 - row,
    {
        let mut col: usize = range.first.1;
        while col <= range.last.1
            invariant
                sheet.wf(),
                range.wf(),
                range.last.0 < u64::MAX,
                range.last.1 < usize::MAX,
                range.first.0 <= row <= range.last.0,
                range.first.1 <= col <= range.last.1 + 1,
                formulas.wf(),
                forall|at: Address| #[trigger]
                    formulas@.contains_key(at) <==> crate::workbook::in_rectangle(
                        at,
                        (range.first, range.last),
                    ) && (at.0 < row || at.0 == row && at.1 < col) && sheet.formula_of(
                        at.0,
                        at.1,
                    ) is Some,
                forall|at: Address| #[trigger]
                    formulas@.contains_key(at) ==> sheet.formula_of(at.0, at.1) == Some(
                        formulas@[at],
                    ),
            decreases range.last.1 + 1 - col,
        {
            if let Some(formula) = sheet.formula(row, col) {
                formulas.insert((row, col), formula);
            }
            col = col + 1;
        }
        row = row + 1;
    }
    formulas
}

/// The read shows its rectangle of the sheet: a value or nothing for every cell and, of a
/// workbook, the formulas.
pub open spec fn shows(sheet: Sheet, read: Read) -> bool {
    let range = read.range;
    &&& range.last.0 < sheet.index.rows
    &&& read.rows@.len() == range.last.0 - range.first.0 + 1
    &&& forall|i: int|
        0 <= i < read.rows@.len() ==> (#[trigger] read.rows@[i])@.len() == range.last.1
            - range.first.1 + 1
    &&& forall|i: int, j: int|
        0 <= i < read.rows@.len() && 0 <= j <= range.last.1 - range.first.1
            ==> crate::sheet::text_view(#[trigger] read.rows@[i]@[j]) == read_value(
            sheet,
            range.first.0 + i,
            range.first.1 + j,
        )
    &&& match read.formulas {
        None => sheet.workbook is None,
        Some(formulas) => {
            &&& sheet.workbook is Some
            &&& formulas.wf()
            &&& forall|at: Address| #[trigger]
                formulas@.contains_key(at) <==> crate::workbook::in_rectangle(
                    at,
                    (range.first, range.last),
                ) && sheet.formula_of(at.0, at.1) is Some
            &&& forall|at: Address| #[trigger]
                formulas@.contains_key(at) ==> sheet.formula_of(at.0, at.1) == Some(formulas@[at])
        },
    }
}

/// Values as shown: edits applied, cached formula results. Run after `wait_for_index`.
pub fn read(sheet: &Sheet, range: Range) -> (r: Result<Read, Error>)
    requires
        sheet.wf(),
        range.wf(),
        range.last.1 < usize::MAX,
    ensures
        match r {
            Err(error) => error == Error::BeyondLastRow && range.last.0 >= sheet.index.rows,
            Ok(read) => {
                &&& read.range == range
                &&& shows(*sheet, read)
                &&& read.wf()
            },
        },
{
    match in_bounds(sheet, &range) {
        Ok(()) => {},
        Err(error) => {
            return Err(error);
        },
    }
    let size: usize = sheet.data.len();
    assert(sheet.index.rows <= size);
    let count: usize = range.rows() as usize;
    let records = sheet.window(range.first.0, count);
    let mut rows: Vec<Vec<Option<String>>> = Vec::new();
    let mut i: usize = 0;
    while i < records.len()
        invariant
            sheet.wf(),
            range.wf(),
            range.last.0 < sheet.index.rows,
            range.last.1 < usize::MAX,
            i == rows@.len() <= records@.len(),
            records@.len() == range.last.0 - range.first.0 + 1,
            forall|k: int|
                0 <= k < records@.len() ==> crate::text::views((#[trigger] records@[k])@)
                    == sheet.row(sheet.source_of(range.first.0 + k)),
            forall|k: int|
                0 <= k < i ==> (#[trigger] rows@[k])@.len() == range.last.1 - range.first.1 + 1,
            forall|k: int, j: int|
                0 <= k < i && 0 <= j <= range.last.1 - range.first.1 ==> crate::sheet::text_view(
                    #[trigger] rows@[k]@[j],
                ) == read_value(*sheet, range.first.0 + k, range.first.1 + j),
        decreases records@.len() - i,
    {
        let row = read_row(
            sheet,
            range.first.0 + i as u64,
            &records[i],
            range.first.1,
            range.last.1,
        );
        rows.push(row);
        i = i + 1;
    }
    let formulas = if sheet.workbook.is_some() {
        Some(read_formulas(sheet, &range))
    } else {
        None
    };
    proof {
        if formulas is Some {
            let cells = formulas->0;
            assert forall|k: int| 0 <= k < cells.entries@.len() implies (
            #[trigger] cells.entries@[k]).0.0 < u64::MAX && cells.entries@[k].0.1 < usize::MAX by {
                cells.entry_is_held(k);
            }
        }
    }
    Ok(Read { range, rows, formulas })
}

/// A find page with its query, ready to render.
#[derive(Debug, PartialEq, Eq)]
pub struct Found {
    pub source: Source,
    pub query: FindQuery,
    pub from: Address,
    pub limit: usize,
    pub result: FindResult,
    /// The sort in effect: matches are then sorted-view coordinates.
    pub sort: Option<Sorted>,
    /// Edits previewed with `--dry-run`.
    pub preview: Option<Changes>,
}

/// Find from `from` (default A1), at most `limit` (default 100) matches. Needs no index.
pub fn find(
    sheet: &Sheet,
    query: FindQuery,
    from: Option<Address>,
    limit: Option<usize>,
) -> (r: Result<Found, Error>)
    requires
        sheet.wf(),
    ensures
        ({
            let start: Address = match from {
                Some(at) => at,
                None => (0u64, 0usize),
            };
            let count: usize = match limit {
                Some(n) => n,
                None => FIND_LIMIT,
            };
            match r {
                Ok(found) => {
                    &&& 1 <= count <= FIND_LIMIT_MAX
                    &&& found.source.names(*sheet)
                    &&& found.query == query
                    &&& found.from == start
                    &&& found.limit == count
                    &&& found.sort is None
                    &&& found.preview is None
                    &&& query.text@.len() > 0 || query.exact
                    &&& sheet.is_page(query, start, count, found.result)
                    &&& found.result.is_named()
                },
                Err(Error::FindLimit) => !(1 <= count <= FIND_LIMIT_MAX),
                Err(Error::EmptySearch) => 1 <= count <= FIND_LIMIT_MAX && query.text@.len() == 0
                    && !query.exact,
                Err(Error::Malformed(m)) => 1 <= count <= FIND_LIMIT_MAX && (query.text@.len() > 0
                    || query.exact) && sheet.search_fails(query, start, count, m),
                Err(_) => false,
            }
        }),
{
    let from = match from {
        Some(at) => at,
        None => (0, 0),
    };
    let limit = match find_limit(limit) {
        Ok(limit) => limit,
        Err(error) => {
            return Err(error);
        },
    };
    match sheet.find(&query, from, limit) {
        Ok(result) => Ok(
            Found {
                source: Source::of(sheet),
                query,
                from,
                limit,
                result,
                sort: None,
                preview: None,
            },
        ),
        Err(error) => Err(error),
    }
}

/// The edit / read / save document.
#[derive(Debug, PartialEq, Eq)]
pub struct Report {
    pub source: Source,
    pub changes: Changes,
    pub dry_run: bool,
    pub sort: Option<Sorted>,
    pub read: Option<Read>,
    pub output: Option<String>,
}

} // verus!
