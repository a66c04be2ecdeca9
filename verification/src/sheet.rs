//! A source of records with its index, pending edits, undo history and sort order.
use crate::a1::Address;
use crate::cells::{Cells, Edits};
use crate::error::Error;
use crate::index::{Index, STRIDE};
use crate::records::{read_record, Ahead};
use crate::sort::SortOrder;
use crate::text::{chars, same, string};
use crate::workbook::{Format, Workbook, COLUMN_LIMIT};
use vstd::prelude::*;

verus! {

/// What is known of a source while it is indexed.
#[derive(Clone, Debug, PartialEq, Eq)]
pub struct Progress {
    pub rows: u64,
    pub bytes: u64,
    pub total_bytes: u64,
    pub index_bytes: usize,
    pub done: bool,
    pub error: Option<String>,
}

/// An open sheet: the bytes of a CSV source, or the values of a workbook sheet as CSV.
pub struct Sheet {
    pub path: String,
    pub delimiter: u8,
    pub data: Vec<u8>,
    pub index: Index,
    pub edits: Edits,
    pub undo: Vec<(Address, Option<String>)>,
    pub order: Option<SortOrder>,
    pub revision: u64,
    pub workbook: Option<Workbook>,
}

/// The characters of an optional text.
pub open spec fn text_view(text: Option<String>) -> Option<Seq<char>> {
    match text {
        Some(t) => Some(t@),
        None => None,
    }
}

/// The history with the texts it restores.
pub open spec fn history(undo: Seq<(Address, Option<String>)>) -> Seq<
    (Address, Option<Seq<char>>),
> {
    undo.map_values(|step: (Address, Option<String>)| (step.0, text_view(step.1)))
}

/// The revision that follows another; the last is followed by the first.
pub open spec fn next_revision(revision: u64) -> u64 {
    if revision == u64::MAX {
        0
    } else {
        (revision + 1) as u64
    }
}

/// What the map holds of a cell.
pub open spec fn held(edits: Map<Address, Seq<char>>, at: Address) -> Option<Seq<char>> {
    if edits.contains_key(at) {
        Some(edits[at])
    } else {
        None
    }
}

impl Sheet {
    /// The index, the edits and the sort order are those of the source, and every edit
    /// changes a cell of it.
    pub open spec fn wf(self) -> bool {
        &&& crate::records::is_delimiter(self.delimiter)
        &&& self.index.wf(self.data@, self.delimiter)
        &&& self.edits.wf()
        &&& forall|at: Address| #[trigger]
            self.edits@.contains_key(at) ==> at.0 < self.index.rows && at.1 < usize::MAX
                && self.is_pending(at, self.edits@[at])
        &&& forall|i: int|
            0 <= i < self.undo@.len() ==> (#[trigger] self.undo@[i]).0.0 < self.index.rows
                && self.undo@[i].0.1 < usize::MAX && (self.undo@[i].1 matches Some(text)
                ==> self.is_pending(self.undo@[i].0, text@))
        &&& (self.order matches Some(order) ==> self.fits(order))
        &&& (self.workbook matches Some(book) ==> book.wf())
    }

    /// The text can be an edit of a cell of the source: there is such a cell, and it stores
    /// another text.
    pub open spec fn is_pending(self, at: Address, text: Seq<char>) -> bool {
        self.field_of(self.row(at.0 as int), at.1 as int) matches Some(stored) && stored != text
    }

    /// The values of record `row` of the source.
    pub open spec fn row(self, row: int) -> Seq<Seq<char>> {
        crate::records::row_of(self.data@, self.delimiter, row as nat)
    }

    /// Where record `row` of the source starts.
    pub open spec fn offset(self, row: int) -> int {
        crate::records::offset(self.data@, self.delimiter, row as nat)
    }

    /// Every record of the source is known.
    pub open spec fn indexed(self) -> bool {
        self.index.done && self.index.malformed is None
    }

    /// The order holds every record of the source once, each where it lies.
    pub open spec fn fits(self, order: SortOrder) -> bool {
        &&& self.indexed()
        &&& order.rows@.len() == self.index.rows
        &&& forall|i: int|
            0 <= i < order.rows@.len() ==> {
                let r = #[trigger] order.rows@[i];
                &&& r.row < self.index.rows
                &&& r.start == self.offset(r.row as int)
                &&& r.end == self.offset(r.row + 1)
                &&& crate::records::is_start(self.data@, r.start as int)
                &&& r.row <= r.start < r.end <= self.data@.len()
            }
        &&& forall|i: int, j: int|
            0 <= i < j < order.rows@.len() ==> (#[trigger] order.rows@[i]).row != (
            #[trigger] order.rows@[j]).row
    }

    /// The records the view has so far.
    pub open spec fn view_rows(self) -> int {
        match self.order {
            Some(order) => order.rows@.len() as int,
            None => self.index.rows as int,
        }
    }

    /// The source record shown in row `row` of the view.
    pub open spec fn source_of(self, row: int) -> int {
        match self.order {
            Some(order) => if 0 <= row < order.rows@.len() {
                order.rows@[row].row as int
            } else {
                row
            },
            None => row,
        }
    }

    /// The sheet is of an XLSX workbook.
    pub open spec fn is_xlsx(self) -> bool {
        self.workbook matches Some(book) && book.format is Xlsx
    }

    /// The stored value of a field of a record with the given values. An XLSX row is
    /// empty, not absent, past its values.
    pub open spec fn field_of(self, fields: Seq<Seq<char>>, col: int) -> Option<Seq<char>> {
        if 0 <= col < fields.len() {
            Some(fields[col])
        } else if self.is_xlsx() && col < COLUMN_LIMIT {
            Some(Seq::empty())
        } else {
            None
        }
    }

    /// The stored value of a cell of the view.
    pub open spec fn stored(self, row: int, col: int) -> Option<Seq<char>> {
        if 0 <= row < self.view_rows() {
            self.field_of(self.row(self.source_of(row)), col)
        } else {
            None
        }
    }

    /// The source cell behind a cell of the view.
    pub open spec fn key(self, row: u64, col: usize) -> Address {
        (self.source_of(row as int) as u64, col)
    }

    /// The pending text of a cell of the view, else the given one.
    pub open spec fn edited_or(self, row: u64, col: usize, original: Seq<char>) -> Seq<char> {
        if self.edits@.contains_key(self.key(row, col)) {
            self.edits@[self.key(row, col)]
        } else {
            original
        }
    }

    /// The two sheets are of one source, whatever is indexed, edited or sorted.
    pub open spec fn same_source(self, other: Sheet) -> bool {
        &&& self.path == other.path
        &&& self.delimiter == other.delimiter
        &&& self.data == other.data
        &&& self.workbook == other.workbook
    }

    /// Start on the bytes of a source. Nothing is indexed yet.
    pub fn open(path: String, data: Vec<u8>, delimiter: u8) -> (r: Result<Self, Error>)
        ensures
            match r {
                Ok(sheet) => {
                    &&& crate::records::is_delimiter(delimiter)
                    &&& sheet.wf()
                    &&& sheet.path@ == path@
                    &&& sheet.data@ == data@
                    &&& sheet.delimiter == delimiter
                    &&& sheet.index.rows == 0 && !sheet.index.done
                    &&& sheet.edits@ == Map::<Address, Seq<char>>::empty()
                    &&& sheet.undo@.len() == 0
                    &&& sheet.order is None
                    &&& sheet.workbook is None
                    &&& sheet.revision == 0
                },
                Err(error) => error == Error::Delimiter && !crate::records::is_delimiter(delimiter),
            },
    {
        if delimiter >= 128 || delimiter == 10 || delimiter == 13 || delimiter == 34 || delimiter
            == 0 {
            return Err(Error::Delimiter);
        }
        let index = Index::new(&data, delimiter);
        Ok(
            Self {
                path,
                delimiter,
                data,
                index,
                edits: Cells::new(),
                undo: Vec::new(),
                order: None,
                revision: 0,
                workbook: None,
            },
        )
    }

    /// Index one more stride of records.
    pub fn advance(&mut self)
        requires
            old(self).wf(),
        ensures
            final(self).wf(),
            final(self).same_source(*old(self)),
            final(self).edits == old(self).edits,
            final(self).undo == old(self).undo,
            final(self).order == old(self).order,
            final(self).revision == old(self).revision,
            old(self).index.done ==> *final(self) == *old(self),
            !old(self).index.done ==> final(self).index.done || final(self).index.rows == old(
                self,
            ).index.rows + STRIDE,
    {
        self.index.advance(&self.data, self.delimiter);
    }

    /// How far indexing has come.
    pub open spec fn is_progress(self, p: Progress) -> bool {
        &&& p.rows == self.index.rows
        &&& p.bytes == self.index.bytes
        &&& p.total_bytes == self.data@.len()
        &&& p.index_bytes == 8 * self.index.offsets@.len()
        &&& p.done == self.index.done
        &&& text_view(p.error) == match self.index.malformed {
            Some(m) => Some(Error::Malformed(m).message()),
            None => None,
        }
    }

    /// How far indexing has come.
    pub fn progress(&self) -> (r: Progress)
        requires
            self.wf(),
        ensures
            self.is_progress(r),
    {
        let size: usize = self.data.len();
        proof {
            if self.index.offsets@.len() > 0 {
                let last = self.index.offsets@.len() - 1;
                assert(64 * last <= self.index.offsets@[last]);
            }
        }
        Progress {
            rows: self.index.rows,
            bytes: self.index.bytes,
            total_bytes: size as u64,
            index_bytes: self.index.offsets.len() * 8,
            done: self.index.done,
            error: match self.index.malformed {
                Some(m) => Some(Error::Malformed(m).to_string()),
                None => None,
            },
        }
    }

    /// The source row shown in a row of the view.
    pub fn source_row(&self, view_row: u64) -> (r: u64)
        ensures
            r == self.source_of(view_row as int),
    {
        match &self.order {
            Some(order) => if view_row < order.rows.len() as u64 {
                order.rows[view_row as usize].row
            } else {
                view_row
            },
            None => view_row,
        }
    }

    /// The records of a source from `at`, where record `row` starts.
    fn read_rows(&self, row: u64, at: usize, skip: usize, count: usize) -> (r: Vec<Vec<String>>)
        requires
            self.wf(),
            crate::index::starts_at(self.data@, self.delimiter, row as nat, at as int),
            row + skip + count <= self.index.rows,
        ensures
            r@.len() == count,
            forall|i: int|
                0 <= i < count ==> crate::text::views((#[trigger] r@[i])@) == self.row(
                    row + skip + i,
                ),
    {
        let mut rows: Vec<Vec<String>> = Vec::new();
        let mut at: usize = at;
        let mut n: usize = 0;
        let total: u64 = skip as u64 + count as u64;
        let mut ahead = Ahead::new(STRIDE as usize);
        while (n as u64) < total
            invariant
                self.wf(),
                ahead.wf(self.data@, self.delimiter),
                n <= total == skip + count,
                row + total <= self.index.rows,
                crate::index::starts_at(self.data@, self.delimiter, (row + n) as nat, at as int),
                rows@.len() == if n <= skip {
                    0
                } else {
                    n - skip
                },
                forall|i: int|
                    0 <= i < rows@.len() ==> crate::text::views((#[trigger] rows@[i])@)
                        == self.row(row + skip + i),
            decreases total - n,
        {
            proof {
                assert(crate::records::readable(self.data@, self.delimiter, (row + n) as nat));
                assert(crate::records::offset(self.data@, self.delimiter, (row + n + 1) as nat)
                    == match crate::records::row_at(
                    self.data@,
                    self.delimiter,
                    (row + n) as nat,
                ) {
                    Ok(Some((_, end))) => end,
                    _ => self.data@.len() as int,
                });
            }
            match ahead.read(&self.data, self.delimiter, at) {
                Ok(Some(record)) => {
                    at = record.end;
                    if n >= skip {
                        rows.push(record.fields);
                    }
                },
                _ => {},
            }
            n = n + 1;
        }
        rows
    }

    /// Zero-based CSV records, including any header. Quoted newlines are not rows.
    pub fn window(&self, start: u64, count: usize) -> (r: Vec<Vec<String>>)
        requires
            self.wf(),
        ensures
            r@.len() == if start >= self.view_rows() {
                0
            } else if count <= self.view_rows() - start {
                count as int
            } else {
                self.view_rows() - start
            },
            forall|i: int|
                0 <= i < r@.len() ==> crate::text::views((#[trigger] r@[i])@) == self.row(
                    self.source_of(start + i),
                ),
    {
        let size: usize = self.data.len();
        match &self.order {
            Some(order) => {
                let mut rows: Vec<Vec<String>> = Vec::new();
                let length: usize = order.rows.len();
                if start >= length as u64 {
                    return rows;
                }
                let first: usize = start as usize;
                let end: usize = if count <= length - first {
                    first + count
                } else {
                    length
                };
                let mut i: usize = first;
                while i < end
                    invariant
                        self.wf(),
                        self.order == Some(*order),
                        first == start,
                        first <= i <= end <= order.rows@.len(),
                        size == self.data@.len(),
                        rows@.len() == i - first,
                        forall|k: int|
                            0 <= k < rows@.len() ==> crate::text::views((#[trigger] rows@[k])@)
                                == self.row(self.source_of(start + k)),
                    decreases end - i,
                {
                    let reference = order.rows[i];
                    proof {
                        assert(self.source_of(start + (i - first)) == reference.row);
                        assert(crate::records::readable(
                            self.data@,
                            self.delimiter,
                            reference.row as nat,
                        ));
                    }
                    match read_record(&self.data, self.delimiter, reference.start as usize) {
                        Ok(Some(record)) => {
                            rows.push(record.fields);
                        },
                        _ => {},
                    }
                    i = i + 1;
                }
                rows
            },
            None => {
                if start >= self.index.rows {
                    return Vec::new();
                }
                let stride: usize = (start / STRIDE) as usize;
                let offset: usize = self.index.offsets[stride] as usize;
                let available: u64 = self.index.rows - start;
                let wanted: usize = if count as u64 <= available {
                    count
                } else {
                    available as usize
                };
                let skip: usize = (start % STRIDE) as usize;
                self.read_rows(stride as u64 * STRIDE, offset, skip, wanted)
            },
        }
    }

    /// The text of a cell of the view: its pending text, else the stored one.
    pub fn value<'a>(&'a self, row: u64, col: usize, original: &'a str) -> (r: &'a str)
        requires
            self.wf(),
        ensures
            r@ == self.edited_or(row, col, original@),
    {
        match self.edits.get((self.source_row(row), col)) {
            Some(text) => text.as_str(),
            None => original,
        }
    }

    /// Whether a cell of the view has a pending edit.
    pub fn is_edited(&self, row: u64, col: usize) -> (r: bool)
        requires
            self.wf(),
        ensures
            r == self.edits@.contains_key(self.key(row, col)),
    {
        self.edits.get((self.source_row(row), col)).is_some()
    }

    /// How many cells have pending edits.
    pub fn edit_count(&self) -> (r: usize)
        requires
            self.wf(),
        ensures
            r == self.edits@.dom().len(),
    {
        self.edits.len()
    }

    /// The value a cell of the view shows, given its record; none where the record has no
    /// such field.
    pub fn cell_value<'a>(&'a self, row: u64, col: usize, record: &'a Vec<String>) -> (r: Option<
        &'a str,
    >)
        requires
            self.wf(),
        ensures
            match r {
                Some(text) => if self.edits@.contains_key(self.key(row, col)) {
                    text@ == self.edits@[self.key(row, col)]
                } else {
                    self.field_of(crate::text::views(record@), col as int) == Some(text@)
                },
                None => !self.edits@.contains_key(self.key(row, col)) && self.field_of(
                    crate::text::views(record@),
                    col as int,
                ) is None,
            },
    {
        match self.edits.get((self.source_row(row), col)) {
            Some(text) => Some(text.as_str()),
            None => self.field(record, col),
        }
    }

    /// The stored value of a field.
    fn field<'a>(&'a self, record: &'a Vec<String>, col: usize) -> (r: Option<&'a str>)
        ensures
            match r {
                Some(text) => self.field_of(crate::text::views(record@), col as int) == Some(text@),
                None => self.field_of(crate::text::views(record@), col as int) is None,
            },
    {
        if col < record.len() {
            Some(record[col].as_str())
        } else {
            proof {
                reveal_strlit("");
                assert(""@ =~= Seq::<char>::empty());
            }
            match &self.workbook {
                Some(book) => if matches!(book.format, Format::Xlsx) && col < COLUMN_LIMIT {
                    Some("")
                } else {
                    None
                },
                None => None,
            }
        }
    }

    /// The name of the open workbook sheet.
    pub fn sheet_name(&self) -> (r: Option<&str>)
        ensures
            match r {
                Some(name) => self.workbook matches Some(book) && book.name@ == name@,
                None => self.workbook is None,
            },
    {
        match &self.workbook {
            Some(book) => Some(book.name.as_str()),
            None => None,
        }
    }

    /// `XLSX`, `ODS` or `CSV`.
    pub fn format(&self) -> (r: &str)
        ensures
            r@ == match self.workbook {
                Some(book) => book.format.name(),
                None => "CSV"@,
            },
    {
        match &self.workbook {
            Some(book) => book.format.as_str(),
            None => "CSV",
        }
    }

    /// The formula of a cell of the view: pending in an XLSX cell, or of the workbook.
    pub open spec fn formula_of(self, row: u64, col: usize) -> Option<Seq<char>> {
        let at = self.key(row, col);
        match self.workbook {
            None => None,
            Some(book) => if book.format is Xlsx && self.edits@.contains_key(at)
                && crate::workbook::formula_part(self.edits@[at]) is Some {
                crate::workbook::formula_part(self.edits@[at])
            } else {
                held(book.formulas@, at)
            },
        }
    }

    /// The formula of a cell of the view, pending or stored.
    pub fn formula(&self, row: u64, col: usize) -> (r: Option<String>)
        requires
            self.wf(),
        ensures
            text_view(r) == self.formula_of(row, col),
    {
        let at = (self.source_row(row), col);
        match &self.workbook {
            None => None,
            Some(book) => {
                if matches!(book.format, Format::Xlsx) {
                    match self.edits.get(at) {
                        Some(text) => {
                            let all = chars(text.as_str());
                            if all.len() > 0 && all[0] == '=' {
                                let formula = string(&all, 1, all.len());
                                assert(formula@ =~= text@.skip(1));
                                return Some(formula);
                            }
                        },
                        None => {},
                    }
                }
                match book.formulas.get(at) {
                    Some(formula) => Some(formula.clone()),
                    None => None,
                }
            },
        }
    }

    /// What setting a cell of the view is refused for, if it is.
    pub open spec fn set_rule(self, row: u64, col: usize, value: Seq<char>) -> Result<(), Error> {
        if self.index.malformed is Some {
            Err(Error::Malformed(self.index.malformed->0))
        } else if self.stored(row as int, col as int) is None {
            Err(Error::NoCell)
        } else {
            match self.workbook {
                Some(book) => book.edit_rule(self.key(row, col), value),
                None => Ok(()),
            }
        }
    }

    /// A formula, merged or array cell takes no edit, whatever the order of the view.
    pub proof fn read_only_cells_take_no_edit(self, row: u64, col: usize, value: Seq<char>)
        requires
            self.workbook matches Some(book) && book.is_read_only(self.key(row, col)),
        ensures
            self.set_rule(row, col, value) is Err,
    {
    }

    /// The edits once a cell of the view is set: a stored text needs none.
    pub open spec fn edits_after(self, row: u64, col: usize, value: Seq<char>) -> Map<
        Address,
        Seq<char>,
    > {
        let at = self.key(row, col);
        if self.stored(row as int, col as int) == Some(value) {
            self.edits@.remove(at)
        } else {
            self.edits@.insert(at, value)
        }
    }

    /// Setting the cell would change what it shows.
    pub open spec fn changes(self, row: u64, col: usize, value: Seq<char>) -> bool {
        self.edited_or(row, col, self.stored(row as int, col as int)->0) != value
    }

    /// Set the text of a cell of the view. A refused edit changes nothing; neither does
    /// one that leaves the cell as it shows.
    pub fn set(&mut self, row: u64, col: usize, value: String) -> (r: Result<(), Error>)
        requires
            old(self).wf(),
        ensures
            final(self).wf(),
            r == old(self).set_rule(row, col, value@),
            final(self).same_source(*old(self)),
            final(self).index == old(self).index,
            final(self).order == old(self).order,
            r is Err || !old(self).changes(row, col, value@) ==> *final(self) == *old(self),
            r is Ok && old(self).changes(row, col, value@) ==> {
                &&& final(self).revision == next_revision(old(self).revision)
                &&& final(self).edits@ == old(self).edits_after(row, col, value@)
                &&& history(final(self).undo@) == history(old(self).undo@).push(
                    (old(self).key(row, col), held(old(self).edits@, old(self).key(row, col))),
                )
            },
    {
        if let Some(m) = self.index.malformed {
            return Err(Error::Malformed(m));
        }
        let size: usize = self.data.len();
        let rows = self.window(row, 1);
        if rows.len() == 0 {
            return Err(Error::NoCell);
        }
        proof {
            assert(crate::text::views(rows@[0]@) == self.row(self.source_of(row as int)));
        }
        let width: usize = rows[0].len();
        let original: String = match self.field(&rows[0], col) {
            Some(text) => text.to_owned(),
            None => {
                return Err(Error::NoCell);
            },
        };
        let key = (self.source_row(row), col);
        proof {
            assert(self.stored(row as int, col as int) == Some(original@));
            assert(key.0 < self.index.rows <= size);
            assert(key.1 < width || self.is_xlsx());
        }
        match &self.workbook {
            Some(book) => match book.validate_edit(key, value.as_str()) {
                Ok(()) => {},
                Err(error) => {
                    return Err(error);
                },
            },
            None => {},
        }
        if same(self.value(row, col, original.as_str()), value.as_str()) {
            return Ok(());
        }
        let previous: Option<String> = match self.edits.get(key) {
            Some(text) => Some(text.clone()),
            None => None,
        };
        let ghost steps = self.undo@;
        self.revision = self.revision.wrapping_add(1);
        self.undo.push((key, previous));
        proof {
            assert(history(self.undo@) =~= history(steps).push((key, text_view(previous))));
        }
        if same(value.as_str(), original.as_str()) {
            self.edits.remove(key);
        } else {
            self.edits.insert(key, value);
        }
        Ok(())
    }

    /// The edits once a step of the history is taken back.
    pub open spec fn restored(
        edits: Map<Address, Seq<char>>,
        step: (Address, Option<Seq<char>>),
    ) -> Map<Address, Seq<char>> {
        match step.1 {
            Some(text) => edits.insert(step.0, text),
            None => edits.remove(step.0),
        }
    }

    /// Take back the last edit; false where there is none.
    pub fn undo(&mut self) -> (r: bool)
        requires
            old(self).wf(),
        ensures
            final(self).wf(),
            r == (old(self).undo@.len() > 0),
            final(self).same_source(*old(self)),
            final(self).index == old(self).index,
            final(self).order == old(self).order,
            !r ==> *final(self) == *old(self),
            r ==> {
                let steps = history(old(self).undo@);
                &&& final(self).revision == next_revision(old(self).revision)
                &&& final(self).edits@ == Self::restored(old(self).edits@, steps.last())
                &&& history(final(self).undo@) == steps.drop_last()
            },
    {
        if self.undo.len() == 0 {
            return false;
        }
        let ghost steps = self.undo@;
        match self.undo.pop() {
            None => false,
            Some((key, previous)) => {
                proof {
                    assert(history(self.undo@) =~= history(steps).drop_last());
                    assert(history(steps).last() == (key, text_view(previous)));
                }
                self.revision = self.revision.wrapping_add(1);
                match previous {
                    Some(value) => {
                        self.edits.insert(key, value);
                    },
                    None => {
                        self.edits.remove(key);
                    },
                }
                true
            },
        }
    }

    /// Undoing an edit that changed a cell restores the edits and the history before it.
    pub proof fn undo_takes_back_set(self, row: u64, col: usize, value: Seq<char>)
        requires
            self.set_rule(row, col, value) is Ok,
            self.changes(row, col, value),
        ensures
            ({
                let step = (self.key(row, col), held(self.edits@, self.key(row, col)));
                Self::restored(self.edits_after(row, col, value), step) == self.edits@
            }),
    {
        let at = self.key(row, col);
        let step = (at, held(self.edits@, at));
        assert(Self::restored(self.edits_after(row, col, value), step) =~= self.edits@);
    }

    /// The second sheet is the first with one cell set to another text, or with the same
    /// edits and history, be it that the order of its view changed.
    pub open spec fn is_set_or_sort(self, after: Sheet) -> bool {
        ||| after.edits@ == self.edits@ && history(after.undo@) == history(self.undo@)
        ||| exists|row: u64, col: usize, value: Seq<char>|
            {
                let key = self.key(row, col);
                &&& self.set_rule(row, col, value) is Ok
                &&& #[trigger] self.changes(row, col, value)
                &&& after.edits@ == self.edits_after(row, col, value)
                &&& history(after.undo@) == history(self.undo@).push((key, held(self.edits@, key)))
            }
    }

    /// The second sheet is the first with its last edit taken back, whatever the order of
    /// its view.
    pub open spec fn is_undo(self, after: Sheet) -> bool {
        let steps = history(self.undo@);
        &&& steps.len() > 0
        &&& after.edits@ == Self::restored(self.edits@, steps.last())
        &&& history(after.undo@) == steps.drop_last()
    }

    /// Each sheet is the one before it with a cell set, or with another order.
    pub open spec fn are_sets(sheets: Seq<Sheet>) -> bool {
        forall|i: int|
            0 < i < sheets.len() ==> (#[trigger] sheets[i - 1]).is_set_or_sort(sheets[i])
    }

    /// Each sheet is the one before it with an edit taken back.
    pub open spec fn are_undos(sheets: Seq<Sheet>) -> bool {
        forall|i: int| 0 < i < sheets.len() ==> (#[trigger] sheets[i - 1]).is_undo(sheets[i])
    }

    /// Taking back as many edits as were made restores the edits and the history from
    /// before them, whatever was sorted meanwhile.
    pub proof fn undos_take_back_sets(sets: Seq<Sheet>, undos: Seq<Sheet>)
        requires
            sets.len() > 0,
            undos.len() > 0,
            Self::are_sets(sets),
            Self::are_undos(undos),
            undos[0].edits@ == sets.last().edits@,
            history(undos[0].undo@) == history(sets.last().undo@),
            history(undos[0].undo@).len() == history(sets[0].undo@).len() + undos.len() - 1,
        ensures
            undos.last().edits@ == sets[0].edits@,
            history(undos.last().undo@) == history(sets[0].undo@),
        decreases sets.len(), undos.len(),
    {
        if sets.len() == 1 {
            assert(undos.len() == 1);
        } else {
            let before = sets[sets.len() - 2];
            let after = sets[sets.len() - 1];
            let front = sets.drop_last();
            assert(before.is_set_or_sort(after));
            assert forall|i: int| 0 < i < front.len() implies (
            #[trigger] front[i - 1]).is_set_or_sort(front[i]) by {
                assert(sets[i - 1].is_set_or_sort(sets[i]));
            }
            assert(front.last() == before);
            if after.edits@ == before.edits@ && history(after.undo@) == history(before.undo@) {
                Self::undos_take_back_sets(front, undos);
            } else {
                let (row, col, value) = choose|row: u64, col: usize, value: Seq<char>|
                    {
                        let key = before.key(row, col);
                        &&& before.set_rule(row, col, value) is Ok
                        &&& #[trigger] before.changes(row, col, value)
                        &&& after.edits@ == before.edits_after(row, col, value)
                        &&& history(after.undo@) == history(before.undo@).push(
                            (key, held(before.edits@, key)),
                        )
                    };
                before.undo_takes_back_set(row, col, value);
                Self::history_grows(front);
                let rest = undos.skip(1);
                assert(undos[0].is_undo(undos[1])) by {
                    assert(undos[1 - 1].is_undo(undos[1]));
                }
                assert(history(after.undo@).drop_last() =~= history(before.undo@));
                assert forall|i: int| 0 < i < rest.len() implies (#[trigger] rest[i - 1]).is_undo(
                    rest[i],
                ) by {
                    assert(undos[(i + 1) - 1].is_undo(undos[i + 1]));
                }
                assert(rest.last() == undos.last());
                Self::undos_take_back_sets(front, rest);
            }
        }
    }

    /// Setting cells never shortens the history.
    proof fn history_grows(sheets: Seq<Sheet>)
        requires
            sheets.len() > 0,
            Self::are_sets(sheets),
        ensures
            history(sheets.last().undo@).len() >= history(sheets[0].undo@).len(),
        decreases sheets.len(),
    {
        if sheets.len() > 1 {
            let front = sheets.drop_last();
            assert(sheets[(sheets.len() - 1) - 1].is_set_or_sort(sheets[sheets.len() - 1]));
            assert forall|i: int| 0 < i < front.len() implies (
            #[trigger] front[i - 1]).is_set_or_sort(front[i]) by {
                assert(sheets[i - 1].is_set_or_sort(sheets[i]));
            }
            Self::history_grows(front);
        }
    }

    /// A cell that was set shows the new text, and every other cell what it showed.
    pub proof fn set_is_read_back(
        self,
        after: Sheet,
        row: u64,
        col: usize,
        value: Seq<char>,
        other: u64,
        other_col: usize,
    )
        requires
            self.wf(),
            self.set_rule(row, col, value) is Ok,
            after.same_source(self),
            after.index == self.index,
            after.order == self.order,
            after.edits@ == self.edits_set(row, col, value),
            self.stored(other as int, other_col as int) is Some,
        ensures
            after.stored(row as int, col as int) == self.stored(row as int, col as int),
            after.edited_or(row, col, after.stored(row as int, col as int)->0) == value,
            (other, other_col) != (row, col) ==> after.edited_or(
                other,
                other_col,
                self.stored(other as int, other_col as int)->0,
            ) == self.edited_or(
                other,
                other_col,
                self.stored(other as int, other_col as int)->0,
            ),
    {
        if other != row && self.order is Some {
            let order = self.order->0;
            if other < row {
                assert(order.rows@[other as int].row != order.rows@[row as int].row);
            } else {
                assert(order.rows@[row as int].row != order.rows@[other as int].row);
            }
        }
    }

    /// The edits once a cell of the view is set, be it to what it shows.
    pub open spec fn edits_set(self, row: u64, col: usize, value: Seq<char>) -> Map<
        Address,
        Seq<char>,
    > {
        if self.changes(row, col, value) {
            self.edits_after(row, col, value)
        } else {
            self.edits@
        }
    }

    /// Setting a cell to its stored text leaves no edit of it.
    pub proof fn stored_text_is_no_edit(self, row: u64, col: usize)
        requires
            self.wf(),
            self.stored(row as int, col as int) is Some,
        ensures
            !self.edits_set(row, col, self.stored(row as int, col as int)->0).contains_key(
                self.key(row, col),
            ),
    {
    }

    /// Keep the sorted order, unless the edits changed since it was made.
    pub fn apply_sort(&mut self, order: SortOrder) -> (r: Result<(), Error>)
        requires
            old(self).wf(),
            old(self).fits(order),
        ensures
            final(self).wf(),
            r == if order.revision == old(self).revision {
                Ok::<(), Error>(())
            } else {
                Err(Error::EditsChangedWhileSorting)
            },
            r is Err ==> *final(self) == *old(self),
            r is Ok ==> *final(self) == (Sheet { order: Some(order), ..*old(self) }),
    {
        if order.revision != self.revision {
            return Err(Error::EditsChangedWhileSorting);
        }
        self.order = Some(order);
        Ok(())
    }

    /// Back to source order; the edits stay.
    pub fn clear_sort(&mut self)
        requires
            old(self).wf(),
        ensures
            final(self).wf(),
            *final(self) == (Sheet { order: None, ..*old(self) }),
    {
        self.order = None;
    }

    /// The order of the view, where it is sorted.
    pub fn sort_order(&self) -> (r: Option<&SortOrder>)
        ensures
            match r {
                Some(order) => self.order == Some(*order),
                None => self.order is None,
            },
    {
        match &self.order {
            Some(order) => Some(order),
            None => None,
        }
    }
}

} // verus!
