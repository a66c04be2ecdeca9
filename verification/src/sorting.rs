//! Sorting the records of a sheet by its current texts, edits applied.
use crate::error::Error;
use crate::records::Ahead;
use crate::sheet::Sheet;
use crate::sort::{read_number, sort_entries, Entry, RecordRef, SortKey, SortOrder, SortValue};
use crate::text::{chars, string, trim};
use vstd::prelude::*;

verus! {

/// The most bytes that sort keys may take.
pub const SORT_BUDGET: usize = 536_870_912;

/// Bytes counted for each record, for each of its keys and beside each text.
pub const ENTRY_BYTES: usize = 48;

pub const VALUE_BYTES: usize = 24;

pub const TEXT_BYTES: usize = 32;

/// The records read so far and the bytes counted for them.
pub struct SortScan {
    pub keys: Vec<SortKey>,
    pub header: bool,
    pub revision: u64,
    pub entries: Vec<Entry>,
    /// Where the next record starts.
    pub at: usize,
    pub used: usize,
}

/// The bytes counted for the records before any text is read.
pub open spec fn base_cost(rows: int, keys: int) -> int {
    rows * (ENTRY_BYTES + keys * VALUE_BYTES)
}

impl Sheet {
    /// The current text of a source cell, where the record has it.
    pub open spec fn current(self, row: int, column: usize) -> Option<Seq<char>> {
        let at = (row as u64, column);
        if self.edits@.contains_key(at) {
            Some(self.edits@[at])
        } else if column < self.row(row).len() {
            Some(self.row(row)[column as int])
        } else {
            None
        }
    }

    /// What source record `row` sorts by in one column. A header must have the column,
    /// and sorts by nothing.
    pub open spec fn sort_key(self, row: int, key: SortKey, header: bool) -> Result<
        crate::sort::KeyView,
        Error,
    > {
        let text = self.current(row, key.column);
        if header && row == 0 {
            if text is None {
                Err(Error::OutsideHeader((key.column + 1) as u64))
            } else {
                Ok(crate::sort::KeyView::Empty)
            }
        } else if text is None || text->0.len() == 0 {
            Ok(crate::sort::KeyView::Empty)
        } else if key.numeric {
            match crate::sort::sort_number(crate::text::trimmed(text->0)) {
                Some(number) => Ok(crate::sort::KeyView::Number(number)),
                None => Err(Error::NotDecimal((row + 1) as u64, (key.column + 1) as u64)),
            }
        } else {
            Ok(crate::sort::KeyView::Text(text->0))
        }
    }

    /// What source record `row` sorts by.
    pub open spec fn sort_keys(self, row: int, keys: Seq<SortKey>, header: bool) -> Seq<
        crate::sort::KeyView,
    > {
        Seq::new(keys.len(), |k: int| self.sort_key(row, keys[k], header)->Ok_0)
    }

    /// The bytes counted once the first `k` keys of record `row` are read, from `used`
    /// before it, or the first reason to stop.
    pub open spec fn row_cost(
        self,
        row: int,
        keys: Seq<SortKey>,
        header: bool,
        k: int,
        used: int,
    ) -> Result<int, Error>
        decreases k,
    {
        if k <= 0 {
            Ok(used)
        } else {
            match self.row_cost(row, keys, header, k - 1, used) {
                Err(error) => Err(error),
                Ok(before) => match self.sort_key(row, keys[k - 1], header) {
                    Err(error) => Err(error),
                    Ok(crate::sort::KeyView::Text(text)) => {
                        let after = before + vstd::utf8::encode_utf8(text).len() + TEXT_BYTES;
                        if after > SORT_BUDGET {
                            Err(Error::SortBudgetKept)
                        } else {
                            Ok(after)
                        }
                    },
                    Ok(_) => Ok(before),
                },
            }
        }
    }

    /// The bytes counted once the records before `row` are read, or the first reason to
    /// stop.
    pub open spec fn sort_cost(self, keys: Seq<SortKey>, header: bool, row: int) -> Result<
        int,
        Error,
    >
        decreases row,
    {
        if row <= 0 {
            Ok(base_cost(self.index.rows as int, keys.len() as int))
        } else {
            match self.sort_cost(keys, header, row - 1) {
                Err(error) => Err(error),
                Ok(used) => self.row_cost(row - 1, keys, header, keys.len() as int, used),
            }
        }
    }

    /// Why a sort is refused before it starts.
    pub open spec fn sort_refusal(self, keys: int) -> Option<Error> {
        if self.index.malformed is Some {
            Some(Error::Malformed(self.index.malformed->0))
        } else if !self.index.done {
            Some(Error::WaitBeforeSorting)
        } else if keys == 0 {
            Some(Error::NoSortColumn)
        } else if keys * VALUE_BYTES + ENTRY_BYTES > usize::MAX {
            Some(Error::TooManySortColumns)
        } else if base_cost(self.index.rows as int, keys) > SORT_BUDGET {
            Some(Error::SortBudget)
        } else {
            None
        }
    }

    /// Whether a sort succeeds, and else what it is refused for.
    pub open spec fn sort_outcome(self, keys: Seq<SortKey>, header: bool) -> Result<int, Error> {
        match self.sort_refusal(keys.len() as int) {
            Some(error) => Err(error),
            None => self.sort_cost(keys, header, self.index.rows as int),
        }
    }

    /// The records are in sorted order: a header first, then each before the next by its
    /// keys, and by the source order where they are the same.
    pub open spec fn is_sorted(
        self,
        rows: Seq<RecordRef>,
        keys: Seq<SortKey>,
        header: bool,
    ) -> bool {
        let first = if header {
            1int
        } else {
            0
        };
        &&& header && rows.len() > 0 ==> rows[0].row == 0
        &&& forall|i: int, j: int|
            first <= i < j < rows.len() ==> crate::sort::goes_before(
                self.sort_keys((#[trigger] rows[i]).row as int, keys, header),
                rows[i].row as int,
                self.sort_keys((#[trigger] rows[j]).row as int, keys, header),
                rows[j].row as int,
                keys,
            )
    }

    /// The order is the sorted one of these keys, made from the edits as they are.
    pub open spec fn is_sort(
        self,
        order: Option<SortOrder>,
        keys: Seq<SortKey>,
        header: bool,
    ) -> bool {
        order matches Some(order) && {
            &&& order.keys@ == keys
            &&& order.header == header
            &&& order.revision == self.revision
            &&& self.is_sorted(order.rows@, keys, header)
        }
    }

    /// The scan holds what the records read so far sort by.
    pub open spec fn scanned(self, scan: SortScan) -> bool {
        let n = scan.entries@.len() as int;
        let keys = scan.keys@;
        &&& self.indexed()
        &&& n <= self.index.rows
        &&& crate::index::starts_at(self.data@, self.delimiter, n as nat, scan.at as int)
        &&& scan.revision == self.revision
        &&& self.sort_refusal(keys.len() as int) is None
        &&& self.sort_cost(keys, scan.header, n) == Ok::<int, Error>(scan.used as int)
        &&& forall|k: int| 0 <= k < keys.len() ==> (#[trigger] keys[k]).column < usize::MAX
        &&& forall|i: int|
            0 <= i < n ==> {
                let entry = #[trigger] scan.entries@[i];
                &&& entry.wf(keys)
                &&& entry.record.row == i
                &&& entry.record.start == self.offset(i)
                &&& entry.record.end == self.offset(i + 1)
                &&& crate::records::is_start(self.data@, entry.record.start as int)
                &&& i <= entry.record.start < entry.record.end <= self.data@.len()
                &&& crate::sort::key_views(entry.values@) == self.sort_keys(i, keys, scan.header)
            }
    }

    /// Admit a sort: every record is known, and its keys fit the budget as far as that
    /// shows before they are read.
    pub fn begin_sort(&self, keys: Vec<SortKey>, header: bool) -> (r: Result<SortScan, Error>)
        requires
            self.wf(),
            forall|k: int| 0 <= k < keys@.len() ==> (#[trigger] keys@[k]).column < usize::MAX,
        ensures
            match r {
                Ok(scan) => self.sort_refusal(keys@.len() as int) is None && self.scanned(scan)
                    && scan.entries@.len() == 0 && scan.keys@ == keys@ && scan.header == header,
                Err(error) => self.sort_refusal(keys@.len() as int) == Some(error),
            },
    {
        if let Some(m) = self.index.malformed {
            return Err(Error::Malformed(m));
        }
        if !self.index.done {
            return Err(Error::WaitBeforeSorting);
        }
        if keys.len() == 0 {
            return Err(Error::NoSortColumn);
        }
        let values: usize = match keys.len().checked_mul(VALUE_BYTES) {
            Some(values) => values,
            None => {
                return Err(Error::TooManySortColumns);
            },
        };
        let minimum: usize = match values.checked_add(ENTRY_BYTES) {
            Some(minimum) => minimum,
            None => {
                return Err(Error::TooManySortColumns);
            },
        };
        let size: usize = self.data.len();
        let count: usize = self.index.rows as usize;
        assert(base_cost(count as int, keys@.len() as int) == count * minimum) by {
            assert(ENTRY_BYTES + keys@.len() * VALUE_BYTES == minimum);
        }
        let used: usize = match count.checked_mul(minimum) {
            Some(used) => used,
            None => {
                return Err(Error::SortBudget);
            },
        };
        if used > SORT_BUDGET {
            return Err(Error::SortBudget);
        }
        Ok(
            SortScan {
                keys,
                header,
                revision: self.revision,
                entries: Vec::new(),
                at: 0,
                used,
            },
        )
    }

    /// What a record sorts by in one column.
    fn read_key(&self, row: u64, fields: &Vec<String>, key: SortKey, header: bool) -> (r: Result<
        (SortValue, usize),
        Error,
    >)
        requires
            self.wf(),
            row < self.index.rows,
            row < u64::MAX,
            key.column < usize::MAX,
            crate::text::views(fields@) == self.row(row as int),
        ensures
            match r {
                Ok((value, bytes)) => {
                    &&& self.sort_key(row as int, key, header) == Ok::<
                        crate::sort::KeyView,
                        Error,
                    >(value@)
                    &&& (value matches SortValue::Number(number) ==> number.wf())
                    &&& (value matches SortValue::Text(text) ==> bytes == vstd::utf8::encode_utf8(
                        text@,
                    ).len())
                },
                Err(error) => self.sort_key(row as int, key, header) == Err::<
                    crate::sort::KeyView,
                    Error,
                >(error),
            },
    {
        let text: Option<&str> = match self.edits.get((row, key.column)) {
            Some(text) => Some(text.as_str()),
            None => if key.column < fields.len() {
                Some(fields[key.column].as_str())
            } else {
                None
            },
        };
        proof {
            assert(match text {
                Some(t) => self.current(row as int, key.column) == Some(t@),
                None => self.current(row as int, key.column) is None,
            });
        }
        if header && row == 0 {
            return match text {
                Some(_) => Ok((SortValue::Empty, 0)),
                None => Err(Error::OutsideHeader((key.column + 1) as u64)),
            };
        }
        match text {
            None => Ok((SortValue::Empty, 0)),
            Some(text) => {
                let all = chars(text);
                if all.len() == 0 {
                    return Ok((SortValue::Empty, 0));
                }
                if key.numeric {
                    let (from, to) = trim(&all, 0, all.len());
                    assert(all@.subrange(0, all@.len() as int) =~= text@);
                    let digits = string(&all, from, to);
                    match read_number(digits.as_str()) {
                        Some(number) => Ok((SortValue::Number(number), 0)),
                        None => Err(Error::NotDecimal(row + 1, (key.column + 1) as u64)),
                    }
                } else {
                    let bytes: usize = text.as_bytes().len();
                    Ok((SortValue::Text(all), bytes))
                }
            },
        }
    }

    /// A refused key refuses the record and the sort.
    proof fn cost_stops(
        self,
        row: int,
        keys: Seq<SortKey>,
        header: bool,
        k: int,
        n: int,
        used: int,
    )
        requires
            0 <= k <= n,
            self.row_cost(row, keys, header, k, used) is Err,
        ensures
            self.row_cost(row, keys, header, n, used) == self.row_cost(row, keys, header, k, used),
        decreases n - k,
    {
        if k < n {
            self.cost_stops(row, keys, header, k, n - 1, used);
        }
    }

    /// Read what the next record sorts by, with records read ahead. The scan is of no use
    /// once that is refused.
    pub fn sort_record(&self, scan: &mut SortScan, ahead: &mut Ahead) -> (r: Result<(), Error>)
        requires
            self.wf(),
            old(ahead).wf(self.data@, self.delimiter),
            self.scanned(*old(scan)),
            old(scan).entries@.len() < self.index.rows,
        ensures
            final(ahead).wf(self.data@, self.delimiter),
            final(scan).keys == old(scan).keys,
            final(scan).header == old(scan).header,
            match r {
                Ok(()) => self.scanned(*final(scan)) && final(scan).entries@.len() == old(
                    scan,
                ).entries@.len() + 1,
                Err(error) => self.sort_cost(
                    old(scan).keys@,
                    old(scan).header,
                    old(scan).entries@.len() as int + 1,
                ) == Err::<int, Error>(error),
            },
    {
        let size: usize = self.data.len();
        let row: u64 = scan.entries.len() as u64;
        let ghost keys = scan.keys@;
        let ghost header = scan.header;
        let ghost before = scan.used as int;
        let ghost n = row as int;
        proof {
            assert(crate::records::readable(self.data@, self.delimiter, row as nat));
            assert(self.sort_cost(keys, header, n + 1) == self.row_cost(
                n,
                keys,
                header,
                keys.len() as int,
                before,
            ));
            assert(before <= SORT_BUDGET) by {
                self.cost_within_budget(keys, header, n);
            }
        }
        let record = match ahead.read(&self.data, self.delimiter, scan.at) {
            Ok(Some(record)) => record,
            _ => {
                assert(false);
                return Ok(());
            },
        };
        let mut values: Vec<SortValue> = Vec::new();
        let mut used: usize = scan.used;
        let mut k: usize = 0;
        while k < scan.keys.len()
            invariant
                self.wf(),
                ahead.wf(self.data@, self.delimiter),
                self.scanned(*old(scan)),
                *scan == *old(scan),
                keys == scan.keys@,
                header == scan.header,
                n == row == scan.entries@.len(),
                row < self.index.rows,
                row < u64::MAX,
                k == values@.len() <= keys.len(),
                crate::text::views(record.fields@) == self.row(n),
                self.sort_cost(keys, header, n + 1) == self.row_cost(
                    n,
                    keys,
                    header,
                    keys.len() as int,
                    before,
                ),
                self.row_cost(n, keys, header, k as int, before) == Ok::<int, Error>(used as int),
                used <= SORT_BUDGET,
                forall|i: int|
                    0 <= i < k ==> {
                        &&& self.sort_key(n, keys[i], header) == Ok::<
                            crate::sort::KeyView,
                            Error,
                        >((#[trigger] values@[i])@)
                        &&& (values@[i] matches SortValue::Number(number) ==> number.wf())
                    },
            decreases keys.len() - k,
        {
            assert(keys[k as int].column < usize::MAX);
            match self.read_key(row, &record.fields, scan.keys[k], scan.header) {
                Ok((value, bytes)) => {
                    if let SortValue::Text(_) = &value {
                        let next: usize = used.saturating_add(bytes.saturating_add(TEXT_BYTES));
                        if next > SORT_BUDGET {
                            proof {
                                self.cost_stops(
                                    n,
                                    keys,
                                    header,
                                    k + 1,
                                    keys.len() as int,
                                    before,
                                );
                            }
                            return Err(Error::SortBudgetKept);
                        }
                        used = next;
                    }
                    values.push(value);
                },
                Err(error) => {
                    proof {
                        self.cost_stops(n, keys, header, k + 1, keys.len() as int, before);
                    }
                    return Err(error);
                },
            }
            k = k + 1;
        }
        let reference = RecordRef { row, start: scan.at as u64, end: record.end as u64 };
        proof {
            assert(self.offset(n + 1) == record.end);
            assert(crate::sort::key_views(values@) =~= self.sort_keys(n, keys, header));
        }
        scan.entries.push(Entry { record: reference, values });
        scan.used = used;
        scan.at = record.end;
        Ok(())
    }

    /// What is counted stays within the budget.
    proof fn cost_within_budget(self, keys: Seq<SortKey>, header: bool, row: int)
        requires
            self.sort_refusal(keys.len() as int) is None,
        ensures
            self.sort_cost(keys, header, row) matches Ok(used) ==> used <= SORT_BUDGET,
        decreases row,
    {
        if row > 0 {
            self.cost_within_budget(keys, header, row - 1);
            match self.sort_cost(keys, header, row - 1) {
                Ok(used) => {
                    self.row_within_budget(row - 1, keys, header, keys.len() as int, used);
                },
                Err(_) => {},
            }
        }
    }

    proof fn row_within_budget(
        self,
        row: int,
        keys: Seq<SortKey>,
        header: bool,
        k: int,
        used: int,
    )
        requires
            used <= SORT_BUDGET,
        ensures
            self.row_cost(row, keys, header, k, used) matches Ok(after) ==> after <= SORT_BUDGET,
        decreases k,
    {
        if k > 0 {
            self.row_within_budget(row, keys, header, k - 1, used);
        }
    }

    /// A refused record refuses the sort.
    proof fn sort_stops(self, keys: Seq<SortKey>, header: bool, row: int, rows: int)
        requires
            0 <= row <= rows,
            self.sort_cost(keys, header, row) is Err,
        ensures
            self.sort_cost(keys, header, rows) == self.sort_cost(keys, header, row),
        decreases rows - row,
    {
        if row < rows {
            self.sort_stops(keys, header, row, rows - 1);
        }
    }

    /// The order of the records once all of them are read.
    pub fn finish_sort(&self, scan: SortScan) -> (r: SortOrder)
        requires
            self.wf(),
            self.scanned(scan),
            scan.entries@.len() == self.index.rows,
        ensures
            self.fits(r),
            r.keys@ == scan.keys@,
            r.header == scan.header,
            r.revision == self.revision,
            self.is_sorted(r.rows@, scan.keys@, scan.header),
    {
        let list = sort_entries(&scan.entries, &scan.keys, scan.header);
        let ghost entries = scan.entries@;
        let ghost keys = scan.keys@;
        let mut rows: Vec<RecordRef> = Vec::new();
        let mut i: usize = 0;
        while i < list.len()
            invariant
                i == rows@.len() <= list@.len(),
                entries == scan.entries@,
                crate::sort::positions(list@, entries),
                forall|k: int|
                    0 <= k < i ==> #[trigger] rows@[k] == entries[list@[k] as int].record,
            decreases list@.len() - i,
        {
            rows.push(scan.entries[list[i]].record);
            i = i + 1;
        }
        let order = SortOrder {
            rows,
            keys: scan.keys,
            header: scan.header,
            revision: scan.revision,
        };
        proof {
            assert forall|a: int, b: int| 0 <= a < b < order.rows@.len() implies (
            #[trigger] order.rows@[a]).row != (#[trigger] order.rows@[b]).row by {
                assert(list@[a] != list@[b]);
                assert(entries[list@[a] as int].record.row == list@[a]);
                assert(entries[list@[b] as int].record.row == list@[b]);
            }
            let first = if scan.header && entries.len() > 0 {
                1int
            } else {
                0
            };
            let tail = list@.skip(first);
            assert forall|a: int, b: int| first <= a < b < order.rows@.len() implies
                crate::sort::goes_before(
                self.sort_keys((#[trigger] order.rows@[a]).row as int, keys, scan.header),
                order.rows@[a].row as int,
                self.sort_keys((#[trigger] order.rows@[b]).row as int, keys, scan.header),
                order.rows@[b].row as int,
                keys,
            ) by {
                assert(tail[a - first] == list@[a]);
                assert(tail[b - first] == list@[b]);
                assert(crate::sort::entry_before(
                    entries[tail[a - first] as int],
                    entries[tail[b - first] as int],
                    keys,
                ));
            }
        }
        order
    }

    /// Sort the records by the current texts. The view stays as it is.
    pub fn start_sort(&self, keys: Vec<SortKey>, header: bool) -> (r: Result<SortOrder, Error>)
        requires
            self.wf(),
            forall|k: int| 0 <= k < keys@.len() ==> (#[trigger] keys@[k]).column < usize::MAX,
        ensures
            match r {
                Ok(order) => {
                    &&& self.sort_outcome(keys@, header) is Ok
                    &&& self.fits(order)
                    &&& order.keys@ == keys@
                    &&& order.header == header
                    &&& order.revision == self.revision
                    &&& self.is_sorted(order.rows@, keys@, header)
                },
                Err(error) => self.sort_outcome(keys@, header) == Err::<int, Error>(error),
            },
    {
        let ghost wanted = keys@;
        let mut scan = match self.begin_sort(keys, header) {
            Ok(scan) => scan,
            Err(error) => {
                return Err(error);
            },
        };
        let mut ahead = Ahead::new(64);
        while (scan.entries.len() as u64) < self.index.rows
            invariant
                ahead.wf(self.data@, self.delimiter),
                self.wf(),
                self.scanned(scan),
                wanted == keys@,
                scan.keys@ == wanted,
                scan.header == header,
                self.sort_refusal(wanted.len() as int) is None,
            decreases self.index.rows - scan.entries@.len(),
        {
            let ghost n = scan.entries@.len() as int;
            match self.sort_record(&mut scan, &mut ahead) {
                Ok(()) => {},
                Err(error) => {
                    proof {
                        self.sort_stops(wanted, header, n + 1, self.index.rows as int);
                    }
                    return Err(error);
                },
            }
        }
        Ok(self.finish_sort(scan))
    }

    /// Records with equal keys stay in source order.
    pub proof fn equal_keys_keep_source_order(
        self,
        rows: Seq<RecordRef>,
        keys: Seq<SortKey>,
        header: bool,
        i: int,
        j: int,
    )
        requires
            self.is_sorted(rows, keys, header),
            0 <= i < j < rows.len(),
            header ==> i > 0,
            self.sort_keys(rows[i].row as int, keys, header) == self.sort_keys(
                rows[j].row as int,
                keys,
                header,
            ),
        ensures
            rows[i].row < rows[j].row,
    {
        let a = self.sort_keys(rows[i].row as int, keys, header);
        crate::sort::same_keys_rank_same(a, keys, 0);
        assert(crate::sort::goes_before(
            a,
            rows[i].row as int,
            self.sort_keys(rows[j].row as int, keys, header),
            rows[j].row as int,
            keys,
        ));
    }

    /// Records without a value in the first sort column come last in either direction.
    pub proof fn empty_keys_come_last(
        self,
        rows: Seq<RecordRef>,
        keys: Seq<SortKey>,
        header: bool,
        i: int,
        j: int,
    )
        requires
            self.is_sorted(rows, keys, header),
            0 <= i < j < rows.len(),
            header ==> i > 0,
            keys.len() > 0,
            self.sort_keys(rows[i].row as int, keys, header)[0] is Empty,
        ensures
            self.sort_keys(rows[j].row as int, keys, header)[0] is Empty,
    {
        assert(crate::sort::goes_before(
            self.sort_keys(rows[i].row as int, keys, header),
            rows[i].row as int,
            self.sort_keys(rows[j].row as int, keys, header),
            rows[j].row as int,
            keys,
        ));
    }

    /// Sorting the view or clearing the sort takes no text from its record: a row shows the
    /// same, edits and all, wherever its record stands.
    pub proof fn edits_stay_with_their_record(
        self,
        other: Sheet,
        row: u64,
        other_row: u64,
        col: usize,
    )
        requires
            self.same_source(other),
            self.edits@ == other.edits@,
            self.source_of(row as int) == other.source_of(other_row as int),
        ensures
            self.shown((row, col)) == other.shown((other_row, col)),
    {
    }

    /// A sort rearranges the records and loses none: every record of the source is shown
    /// in some row of the view.
    pub proof fn sort_keeps_every_record(self, order: SortOrder, row: int)
        requires
            self.fits(order),
            0 <= row < self.index.rows,
        ensures
            exists|i: int| 0 <= i < order.rows@.len() && (#[trigger] order.rows@[i]).row == row,
    {
        let list = order.rows@.map_values(|r: RecordRef| r.row as int);
        let n = self.index.rows as int;
        assert(list.no_duplicates()) by {
            assert forall|i: int, j: int|
                0 <= i < list.len() && 0 <= j < list.len() && i != j implies list[i] != list[j] by {
                if i < j {
                    assert(order.rows@[i].row != order.rows@[j].row);
                } else {
                    assert(order.rows@[j].row != order.rows@[i].row);
                }
            }
        }
        list.unique_seq_to_set();
        let all = vstd::set_lib::set_int_range(0, n);
        vstd::set_lib::lemma_int_range(0, n);
        assert(list.to_set().subset_of(all)) by {
            assert forall|x: int| list.to_set().contains(x) implies all.contains(x) by {
                let i = choose|i: int| 0 <= i < list.len() && list[i] == x;
                assert(order.rows@[i].row == x);
            }
        }
        vstd::set_lib::lemma_subset_equality(list.to_set(), all);
        assert(list.to_set().contains(row));
        let i = choose|i: int| 0 <= i < list.len() && list[i] == row;
        assert(order.rows@[i].row == row);
    }
}

} // verus!
