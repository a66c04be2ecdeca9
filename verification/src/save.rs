//! Saving the view of a sheet as CSV.
use crate::cells::before;
use crate::error::Error;
use crate::index::STRIDE;
use crate::records::{is_blank, write_line, Ahead, Record};
use crate::sheet::Sheet;
use crate::text::same;
use vstd::prelude::*;
use vstd::slice::slice_subrange;

verus! {

/// How many line ends `bytes` ends with.
pub open spec fn closing_run(bytes: Seq<u8>) -> nat
    decreases bytes.len(),
{
    if bytes.len() > 0 && crate::records::is_newline(bytes.last()) {
        1 + closing_run(bytes.drop_last())
    } else {
        0
    }
}

proof fn closing_run_len(bytes: Seq<u8>)
    ensures
        closing_run(bytes) <= bytes.len(),
        forall|i: int|
            bytes.len() - closing_run(bytes) <= i < bytes.len() ==> crate::records::is_newline(
                #[trigger] bytes[i],
            ),
    decreases bytes.len(),
{
    if bytes.len() > 0 && crate::records::is_newline(bytes.last()) {
        closing_run_len(bytes.drop_last());
        assert forall|i: int|
            bytes.len() - closing_run(bytes) <= i < bytes.len() implies crate::records::is_newline(
            #[trigger] bytes[i],
        ) by {
            if i < bytes.len() - 1 {
                assert(bytes[i] == bytes.drop_last()[i]);
            }
        }
    }
}

/// `bytes` starts with records of these values, whatever follows it.
pub open spec fn begins_with(
    bytes: Seq<u8>,
    delimiter: u8,
    rows: Seq<Seq<Seq<char>>>,
) -> bool {
    forall|rest: Seq<u8>| #[trigger] rows_read(bytes, rest, delimiter, rows)
}

/// With `rest` after it, `bytes` holds records of these values and the next comes after it.
pub open spec fn rows_read(
    bytes: Seq<u8>,
    rest: Seq<u8>,
    delimiter: u8,
    rows: Seq<Seq<Seq<char>>>,
) -> bool {
    &&& has_values(bytes + rest, delimiter, rows)
    &&& crate::records::offset(bytes + rest, delimiter, rows.len()) == bytes.len()
}

/// The first records of `data` have these values.
pub open spec fn has_values(data: Seq<u8>, delimiter: u8, rows: Seq<Seq<Seq<char>>>) -> bool {
    &&& crate::records::has_rows(data, delimiter, rows.len())
    &&& forall|i: int|
        0 <= i < rows.len() ==> crate::records::row_of(data, delimiter, i as nat)
            == #[trigger] rows[i]
}

/// The records of `data` have these values, and there are no others.
pub open spec fn holds_exactly(data: Seq<u8>, delimiter: u8, rows: Seq<Seq<Seq<char>>>) -> bool {
    &&& has_values(data, delimiter, rows)
    &&& crate::index::has_exactly(data, delimiter, rows.len())
}

/// Line ends, or a byte order mark and line ends, are a lead.
proof fn newlines_are_lead(bytes: Seq<u8>)
    requires
        crate::records::all_newlines(bytes),
    ensures
        crate::records::is_lead(bytes),
        crate::records::newline_run(bytes) == bytes.len(),
    decreases bytes.len(),
{
    assert(bytes.skip(0) =~= bytes);
    if bytes.len() > 0 {
        assert forall|i: int| 0 <= i < bytes.skip(1).len() implies crate::records::is_newline(
            #[trigger] bytes.skip(1)[i],
        ) by {
            assert(bytes.skip(1)[i] == bytes[i + 1]);
        }
        newlines_are_lead(bytes.skip(1));
        assert(crate::records::is_newline(bytes[0]));
    }
}

/// What comes before the content of the first record is a lead.
proof fn opening_is_lead(bytes: Seq<u8>)
    ensures
        0 <= crate::records::opening(bytes) <= bytes.len(),
        crate::records::is_lead(bytes.take(crate::records::opening(bytes))),
{
    let mark: int = if crate::records::has_mark(bytes) {
        3
    } else {
        0
    };
    let n = crate::records::opening(bytes);
    crate::records::newline_run_len(bytes.skip(mark));
    let lead = bytes.take(n);
    assert forall|i: int| 0 <= i < lead.skip(mark).len() implies crate::records::is_newline(
        #[trigger] lead.skip(mark)[i],
    ) by {
        assert(lead.skip(mark)[i] == bytes.skip(mark)[i]);
    }
    newlines_are_lead(lead.skip(mark));
    if mark == 0 {
        assert(lead.skip(0) =~= lead);
    }
}

/// One more record, closed by a line end.
pub proof fn record_follows(
    out: Seq<u8>,
    delimiter: u8,
    rows: Seq<Seq<Seq<char>>>,
    lead: Seq<u8>,
    content: Seq<u8>,
    end: u8,
    values: Seq<Seq<char>>,
)
    requires
        begins_with(out, delimiter, rows),
        crate::records::reads_as(content, delimiter, values),
        crate::records::is_newline(end),
        out.len() > 0 ==> crate::records::is_newline(out.last()) && crate::records::all_newlines(
            lead,
        ),
        out.len() == 0 ==> crate::records::is_lead(lead) && (lead.len() > 0
            || !crate::records::has_mark(content)),
    ensures
        begins_with(out + lead + content + seq![end], delimiter, rows.push(values)),
{
    let piece = lead + content + seq![end];
    let after = out + lead + content + seq![end];
    let longer = rows.push(values);
    assert forall|rest: Seq<u8>| #[trigger] rows_read(after, rest, delimiter, longer) by {
        let data = after + rest;
        assert(data =~= out + (piece + rest));
        assert(rows_read(out, piece + rest, delimiter, rows));
        let k = rows.len();
        if out.len() == 0 {
            assert(data.skip(0) =~= lead + content + seq![end] + rest);
        } else {
            let from = out.len() - 1;
            let full = seq![out.last()] + lead;
            assert(crate::records::all_newlines(full)) by {
                assert forall|i: int| 0 <= i < full.len() implies crate::records::is_newline(
                    #[trigger] full[i],
                ) by {
                    if i > 0 {
                        assert(full[i] == lead[i - 1]);
                    }
                }
            }
            newlines_are_lead(full);
            assert(data.skip(from) =~= full + content + seq![end] + rest);
        }
        assert(crate::records::row_at(data, delimiter, k) == Ok::<
            Option<(Seq<Seq<char>>, int)>,
            Option<(usize, usize)>,
        >(Some((values, after.len() as int))));
        assert(crate::records::readable(data, delimiter, k));
        assert(crate::records::offset(data, delimiter, k + 1) == after.len());
        assert forall|i: nat| i < longer.len() implies #[trigger] crate::records::readable(
            data,
            delimiter,
            i,
        ) by {}
        assert forall|i: int| 0 <= i < longer.len() implies crate::records::row_of(
            data,
            delimiter,
            i as nat,
        ) == #[trigger] longer[i] by {
            if i < k {
                assert(longer[i] == rows[i]);
            }
        }
    }
}

/// No records yet.
pub proof fn nothing_read(delimiter: u8)
    ensures
        begins_with(Seq::empty(), delimiter, Seq::empty()),
{
}

/// Append the bytes from `from` up to `to`.
fn append_range(out: &mut Vec<u8>, data: &Vec<u8>, from: usize, to: usize)
    requires
        from <= to <= data@.len(),
    ensures
        final(out)@ == old(out)@ + data@.subrange(from as int, to as int),
{
    let ghost start = out@;
    let mut i: usize = from;
    while i < to
        invariant
            from <= i <= to <= data@.len(),
            out@ == start + data@.subrange(from as int, i as int),
        decreases to - i,
    {
        out.push(data[i]);
        i = i + 1;
        assert(out@ =~= start + data@.subrange(from as int, i as int));
    }
    assert(out@ =~= start + data@.subrange(from as int, to as int));
}

impl Sheet {
    /// The source record has a pending edit.
    pub open spec fn row_edited(self, row: int) -> bool {
        exists|col: usize| #[trigger] self.edits@.contains_key((row as u64, col))
    }

    /// Every edit is of a field that its record has.
    pub open spec fn edits_have_fields(self) -> bool {
        forall|at: crate::a1::Address| #[trigger]
            self.edits@.contains_key(at) ==> at.1 < self.row(at.0 as int).len()
    }

    /// Every edit is of a field that its record has, where past its fields a record has no
    /// cells: only in an XLSX sheet are there any.
    pub proof fn edits_have_their_fields(self)
        requires
            self.wf(),
            !self.is_xlsx(),
        ensures
            self.edits_have_fields(),
    {
        assert forall|at: crate::a1::Address| #[trigger]
            self.edits@.contains_key(at) implies at.1 < self.row(at.0 as int).len() by {
            assert(self.is_pending(at, self.edits@[at]));
        }
    }

    /// The values of a source record with its edits.
    pub open spec fn new_row(self, row: int) -> Seq<Seq<char>> {
        Seq::new(
            self.row(row).len(),
            |col: int|
                {
                    let at = (row as u64, col as usize);
                    if self.edits@.contains_key(at) {
                        self.edits@[at]
                    } else {
                        self.row(row)[col]
                    }
                },
        )
    }

    /// The bytes of a source record with the blank lines before it.
    pub open spec fn raw(self, row: int) -> Seq<u8> {
        self.data@.subrange(self.offset(row), self.offset(row + 1))
    }

    /// How many bytes of a record come before its content: a byte order mark at the very
    /// start, and blank lines.
    pub open spec fn prefix(self, row: int) -> int {
        crate::records::content_start(self.data@, self.offset(row)) - self.offset(row)
    }

    /// How many line ends a record closes with.
    pub open spec fn suffix(self, row: int) -> int {
        closing_run(self.raw(row).skip(self.prefix(row))) as int
    }

    /// A record as it is written: as it was, or with its values written anew between what
    /// came before its content and its line ends.
    pub open spec fn piece(self, row: int) -> Seq<u8> {
        let raw = self.raw(row);
        if self.row_edited(row) {
            raw.take(self.prefix(row)) + crate::records::csv_line(
                self.new_row(row),
                self.delimiter,
            ).drop_last() + raw.skip(raw.len() - self.suffix(row))
        } else {
            raw
        }
    }

    /// The first `rows` records as they are written in source order.
    pub open spec fn written(self, rows: int) -> Seq<u8>
        decreases rows,
    {
        if rows <= 0 {
            Seq::empty()
        } else {
            self.written(rows - 1) + self.piece(rows - 1)
        }
    }

    /// The source with its edits: every byte outside the content of edited records is as
    /// it was.
    pub open spec fn plain_save(self) -> Seq<u8> {
        self.written(self.index.rows as int) + self.data@.skip(
            self.offset(self.index.rows as int),
        )
    }

    /// The values of every record with the edits.
    pub open spec fn new_rows(self, rows: int) -> Seq<Seq<Seq<char>>> {
        Seq::new(rows as nat, |i: int| self.new_row(i))
    }

    /// A first value that begins like a byte order mark would come to stand at the very
    /// start, where it is taken for one.
    pub open spec fn mark_at_start(self) -> bool {
        &&& self.row_edited(0)
        &&& crate::records::content_start(self.data@, 0) == 0
        &&& crate::records::starts_with_mark(self.new_row(0)[0])
    }

    /// The line of an edited record reads back as its values.
    spec fn line_is_good(self, row: int) -> bool {
        let line = crate::records::csv_line(self.new_row(row), self.delimiter);
        &&& line.len() > 1
        &&& line.last() == 10
        &&& crate::records::has_mark(line) ==> crate::records::starts_with_mark(
            self.new_row(row)[0],
        )
        &&& crate::records::reads_as(line.drop_last(), self.delimiter, self.new_row(row))
    }

    spec fn lines_are_good(self, rows: int) -> bool {
        forall|row: int| 0 <= row < rows && #[trigger] self.row_edited(row) ==> self.line_is_good(
            row,
        )
    }

    /// Where records lie.
    proof fn row_bounds(self, row: int)
        requires
            self.wf(),
            0 <= row < self.index.rows,
        ensures
            0 <= self.offset(row) <= crate::records::content_start(self.data@, self.offset(row))
                < self.offset(row + 1) <= self.data@.len(),
            crate::records::is_start(self.data@, self.offset(row)),
            crate::index::row_settled(self.data@, self.delimiter, row as nat),
    {
        assert(crate::index::row_settled(self.data@, self.delimiter, row as nat));
    }

    proof fn offset_bounds(self, row: int)
        requires
            self.wf(),
            0 <= row <= self.index.rows,
        ensures
            0 <= self.offset(row) <= self.data@.len(),
    {
        if row < self.index.rows {
            self.row_bounds(row);
        }
    }

    /// Unedited records are copied as they are.
    proof fn unedited_rows_are_copied(self, from: int, to: int)
        requires
            self.wf(),
            0 <= from <= to <= self.index.rows,
            forall|row: int| from <= row < to ==> !#[trigger] self.row_edited(row),
        ensures
            self.offset(from) <= self.offset(to),
            self.written(to) == self.written(from) + self.data@.subrange(
                self.offset(from),
                self.offset(to),
            ),
        decreases to - from,
    {
        self.offset_bounds(from);
        self.offset_bounds(to);
        if from == to {
            assert(self.written(to) =~= self.written(from) + self.data@.subrange(
                self.offset(from),
                self.offset(to),
            ));
        } else {
            self.unedited_rows_are_copied(from, to - 1);
            self.row_bounds(to - 1);
            assert(!self.row_edited(to - 1));
            let (a, b, c) = (self.offset(from), self.offset(to - 1), self.offset(to));
            assert(self.data@.subrange(a, b) + self.data@.subrange(b, c) =~= self.data@.subrange(
                a,
                c,
            ));
            assert(self.written(to) =~= self.written(from) + self.data@.subrange(a, c));
        }
    }

    /// A source without edits is saved byte for byte.
    pub proof fn unchanged_save_is_a_copy(self)
        requires
            self.wf(),
            self.edits@ == Map::<crate::a1::Address, Seq<char>>::empty(),
        ensures
            self.plain_save() == self.data@,
    {
        let n = self.index.rows as int;
        assert forall|row: int| 0 <= row < n implies !#[trigger] self.row_edited(row) by {}
        self.unedited_rows_are_copied(0, n);
        self.offset_bounds(n);
        assert(self.plain_save() =~= self.data@);
    }

    /// What a record that is followed by another is made of: a lead, content and one line
    /// end; edits change the content alone.
    proof fn piece_parts(self, row: int)
        requires
            self.wf(),
            0 <= row < self.index.rows,
            self.offset(row + 1) < self.data@.len(),
        ensures
            ({
                let (start, end) = (self.offset(row), self.offset(row + 1));
                let from = crate::records::content_start(self.data@, start);
                let content = if self.row_edited(row) {
                    crate::records::csv_line(self.new_row(row), self.delimiter).drop_last()
                } else {
                    self.data@.subrange(from, end - 1)
                };
                &&& from < end - 1
                &&& crate::records::is_newline(self.data@[end - 1])
                &&& self.piece(row) == self.data@.subrange(start, from) + content + seq![
                    self.data@[end - 1],
                ]
            }),
    {
        self.row_bounds(row);
        let (start, end) = (self.offset(row), self.offset(row + 1));
        let from = crate::records::content_start(self.data@, start);
        let raw = self.raw(row);
        let tail = raw.skip(from - start);
        assert(tail.last() == self.data@[end - 1]);
        assert(tail.drop_last().last() == self.data@[end - 2]);
        assert(closing_run(tail.drop_last()) == 0);
        assert(self.suffix(row) == 1);
        assert(raw.take(from - start) =~= self.data@.subrange(start, from));
        assert(raw.skip(raw.len() - 1) =~= seq![self.data@[end - 1]]);
        assert(raw =~= self.data@.subrange(start, from) + self.data@.subrange(from, end - 1) + seq![
            self.data@[end - 1],
        ]);
    }

    /// What comes before the content of a record is a lead.
    proof fn lead_of(self, row: int)
        requires
            self.wf(),
            0 <= row < self.index.rows,
        ensures
            ({
                let lead = self.data@.subrange(
                    self.offset(row),
                    crate::records::content_start(self.data@, self.offset(row)),
                );
                &&& self.offset(row) == 0 ==> crate::records::is_lead(lead)
                &&& self.offset(row) > 0 ==> crate::records::all_newlines(lead)
            }),
    {
        self.row_bounds(row);
        let start = self.offset(row);
        let from = crate::records::content_start(self.data@, start);
        let lead = self.data@.subrange(start, from);
        if start == 0 {
            opening_is_lead(self.data@);
            assert(lead =~= self.data@.take(from));
        } else {
            let rest = self.data@.skip(start);
            crate::records::newline_run_len(rest);
            assert forall|i: int| 0 <= i < lead.len() implies crate::records::is_newline(
                #[trigger] lead[i],
            ) by {
                assert(lead[i] == rest[i]);
            }
        }
    }

    /// Only the first record starts at the first byte.
    proof fn first_row_starts_first(self, row: int)
        requires
            self.wf(),
            0 <= row < self.index.rows,
        ensures
            self.offset(row) == 0 <==> row == 0,
    {
        if row > 0 {
            self.row_bounds(row - 1);
        }
    }

    /// Written in source order, the records before the last read back with their edits.
    proof fn written_reads_back(self, rows: int)
        requires
            self.wf(),
            0 <= rows <= self.index.rows,
            rows > 0 ==> self.offset(rows) < self.data@.len(),
            self.lines_are_good(rows),
            !self.mark_at_start(),
        ensures
            begins_with(self.written(rows), self.delimiter, self.new_rows(rows)),
            rows > 0 ==> self.written(rows).len() > 0 && self.written(rows).last()
                == self.data@[self.offset(rows) - 1] && crate::records::is_newline(
                self.written(rows).last(),
            ),
            self.written(0) == Seq::<u8>::empty(),
        decreases rows,
    {
        if rows == 0 {
            nothing_read(self.delimiter);
            assert(self.new_rows(0) =~= Seq::empty());
        } else {
            let row = rows - 1;
            self.row_bounds(row);
            self.first_row_starts_first(row);
            self.written_reads_back(row);
            self.piece_parts(row);
            self.lead_of(row);
            let (start, end) = (self.offset(row), self.offset(rows));
            let from = crate::records::content_start(self.data@, start);
            let lead = self.data@.subrange(start, from);
            let edited = self.row_edited(row);
            let content = if edited {
                crate::records::csv_line(self.new_row(row), self.delimiter).drop_last()
            } else {
                self.data@.subrange(from, end - 1)
            };
            let out = self.written(row);
            assert(crate::index::row_settled(self.data@, self.delimiter, row as nat));
            if edited {
                assert(self.line_is_good(row));
            } else {
                assert(self.new_row(row) =~= self.row(row));
            }
            if row == 0 && lead.len() == 0 {
                if edited {
                    let line = crate::records::csv_line(self.new_row(0), self.delimiter);
                    if crate::records::has_mark(content) {
                        assert(crate::records::has_mark(line));
                        assert(false);
                    }
                } else if crate::records::has_mark(content) {
                    assert(crate::records::has_mark(self.data@));
                    assert(false);
                }
            }
            record_follows(
                out,
                self.delimiter,
                self.new_rows(row),
                lead,
                content,
                self.data@[end - 1],
                self.new_row(row),
            );
            assert(self.written(rows) =~= out + lead + content + seq![self.data@[end - 1]]);
            assert(self.new_rows(rows) =~= self.new_rows(row).push(self.new_row(row)));
        }
    }

    /// The line ends that close the last record hold no record.
    spec fn closes_blank(self) -> bool {
        let row = self.index.rows - 1;
        let raw = self.raw(row);
        row >= 0 && self.offset(row + 1) == self.data@.len() ==> crate::records::csv_first(
            raw.skip(raw.len() - self.suffix(row)),
            self.delimiter,
        ) == Ok::<Option<(Seq<Seq<char>>, nat)>, Option<(usize, usize)>>(None)
    }

    /// Saved in source order, every record reads back with its edits.
    proof fn plain_save_reads_back(self)
        requires
            self.wf(),
            self.indexed(),
            self.lines_are_good(self.index.rows as int),
            self.closes_blank(),
            !self.mark_at_start(),
        ensures
            holds_exactly(
                self.plain_save(),
                self.delimiter,
                self.new_rows(self.index.rows as int),
            ),
    {
        let n = self.index.rows as int;
        let d = self.delimiter;
        let saved = self.plain_save();
        self.offset_bounds(n);
        if n == 0 {
            assert(saved =~= self.data@);
        } else if self.offset(n) < self.data@.len() {
            let tail = self.data@.skip(self.offset(n));
            self.written_reads_back(n);
            assert(rows_read(self.written(n), tail, d, self.new_rows(n)));
            let from = self.written(n).len() - 1;
            assert(saved.skip(from) =~= self.data@.skip(self.offset(n) - 1));
            assert(crate::records::row_at(saved, d, n as nat) == crate::records::row_at(
                self.data@,
                d,
                n as nat,
            ));
        } else {
            let row = n - 1;
            self.row_bounds(row);
            self.first_row_starts_first(row);
            let rows = self.new_rows(row);
            let out = self.written(row);
            let piece = self.piece(row);
            let start = self.offset(row);
            self.written_reads_back(row);
            assert(rows_read(out, piece, d, rows));
            assert(saved =~= out + piece);
            if self.row_edited(row) {
                self.edited_last_row(row);
                if self.suffix(row) > 1 {
                    let raw = self.raw(row);
                    closing_run_len(raw.skip(self.prefix(row)));
                    assert(saved.skip(saved.len() - self.suffix(row)) =~= raw.skip(
                        raw.len() - self.suffix(row),
                    ));
                }
            } else {
                assert(self.new_row(row) =~= self.row(row));
                assert(crate::records::readable(self.data@, d, row as nat));
                assert(crate::records::offset(saved, d, row as nat) == out.len());
                if row == 0 {
                    assert(saved =~= self.data@);
                } else {
                    assert(saved.skip(out.len() - 1) =~= self.data@.skip(start - 1));
                    assert(out.len() < saved.len());
                }
            }
            let r = crate::records::row_at(saved, d, row as nat);
            assert(crate::records::readable(saved, d, row as nat));
            assert(crate::records::offset(saved, d, n as nat) == match r {
                Ok(Some((_, end))) => end,
                _ => saved.len() as int,
            });
            assert forall|i: nat| i < n implies #[trigger] crate::records::readable(
                saved,
                d,
                i,
            ) by {}
            assert forall|i: int| 0 <= i < n implies crate::records::row_of(saved, d, i as nat)
                == #[trigger] self.new_rows(n)[i] by {
                if i < row {
                    assert(rows[i] == self.new_rows(n)[i]);
                }
            }
        }
    }

    /// An edited last record, closed by line ends or by the end of the source, reads back
    /// with its edits.
    proof fn edited_last_row(self, row: int)
        requires
            self.wf(),
            0 <= row,
            row + 1 == self.index.rows,
            self.row_edited(row),
            self.line_is_good(row),
            !self.mark_at_start(),
            self.offset(row + 1) == self.data@.len(),
            rows_read(self.written(row), self.piece(row), self.delimiter, self.new_rows(row)),
            row == 0 ==> self.written(row).len() == 0,
            row > 0 ==> self.written(row).len() > 0 && crate::records::is_newline(
                self.written(row).last(),
            ),
        ensures
            ({
                let saved = self.written(row) + self.piece(row);
                let r = crate::records::row_at(saved, self.delimiter, row as nat);
                &&& r matches Ok(Some((values, end))) && {
                    &&& values == self.new_row(row)
                    &&& self.suffix(row) <= 1 ==> end == saved.len()
                    &&& self.suffix(row) > 1 ==> end == saved.len() - self.suffix(row) + 1
                }
            }),
    {
        let d = self.delimiter;
        let out = self.written(row);
        let saved = out + self.piece(row);
        let start = self.offset(row);
        let raw = self.raw(row);
        let line = crate::records::csv_line(self.new_row(row), d);
        let content = line.drop_last();
        self.row_bounds(row);
        self.first_row_starts_first(row);
        self.lead_of(row);
        closing_run_len(raw.skip(self.prefix(row)));
        let lead = raw.take(self.prefix(row));
        assert(lead =~= self.data@.subrange(
            start,
            crate::records::content_start(self.data@, start),
        ));
        let tail = raw.skip(raw.len() - self.suffix(row));
        let full = if row == 0 {
            lead
        } else {
            seq![out.last()] + lead
        };
        if row > 0 {
            assert forall|i: int| 0 <= i < full.len() implies crate::records::is_newline(
                #[trigger] full[i],
            ) by {
                if i > 0 {
                    assert(full[i] == lead[i - 1]);
                }
            }
            newlines_are_lead(full);
        } else if full.len() == 0 && crate::records::has_mark(content) {
            assert(crate::records::has_mark(line));
            assert(false);
        }
        let from = if row == 0 {
            0int
        } else {
            out.len() - 1
        };
        if self.suffix(row) == 0 {
            assert(saved.skip(from) =~= full + content);
        } else {
            let skipped = raw.skip(self.prefix(row));
            assert(tail[0] == skipped[skipped.len() - self.suffix(row)]);
            assert(crate::records::is_newline(tail[0]));
            assert(tail =~= seq![tail[0]] + tail.skip(1));
            assert(saved.skip(from) =~= full + content + seq![tail[0]] + tail.skip(1));
        }
    }

    /// A record of the source, found through the index.
    fn record_of(&self, row: u64) -> (r: Record)
        requires
            self.wf(),
            row < self.index.rows,
        ensures
            crate::text::views(r.fields@) == self.row(row as int),
            r.start == self.offset(row as int),
            r.end == self.offset(row + 1),
            r.start < r.end <= self.data@.len(),
            r.fields@.len() > 0,
    {
        let size: usize = self.data.len();
        let stride: usize = (row / STRIDE) as usize;
        let mut at: usize = self.index.offsets[stride] as usize;
        let mut n: u64 = stride as u64 * STRIDE;
        let mut ahead = Ahead::new(STRIDE as usize);
        while n < row
            invariant
                self.wf(),
                ahead.wf(self.data@, self.delimiter),
                n <= row < self.index.rows,
                crate::index::starts_at(self.data@, self.delimiter, n as nat, at as int),
            decreases row - n,
        {
            assert(crate::records::readable(self.data@, self.delimiter, n as nat));
            if let Ok(Some(record)) = ahead.read(&self.data, self.delimiter, at) {
                assert(crate::records::offset(self.data@, self.delimiter, (n + 1) as nat)
                    == record.end);
                at = record.end;
            }
            n = n + 1;
        }
        assert(crate::records::readable(self.data@, self.delimiter, row as nat));
        match ahead.read(&self.data, self.delimiter, at) {
            Ok(Some(record)) => {
                assert(crate::records::offset(self.data@, self.delimiter, (row + 1) as nat)
                    == record.end);
                record
            },
            _ => {
                assert(false);
                Record { fields: Vec::new(), start: at, end: at }
            },
        }
    }

    /// The values of a record with its edits, which start at entry `first`, and the entry
    /// after them; none where an edit is of a field that the record does not have.
    fn edited_values(&self, row: u64, fields: Vec<String>, first: usize) -> (r: Option<
        (Vec<String>, usize),
    >)
        requires
            self.wf(),
            crate::text::views(fields@) == self.row(row as int),
            first <= self.edits.entries@.len(),
            forall|k: int|
                0 <= k < first ==> (#[trigger] self.edits.entries@[k]).0.0 < row,
            forall|k: int|
                first <= k < self.edits.entries@.len() ==> (#[trigger] self.edits.entries@[k]).0.0
                    >= row,
        ensures
            match r {
                Some((values, next)) => {
                    &&& crate::text::views(values@) == self.new_row(row as int)
                    &&& values@.len() == fields@.len()
                    &&& first <= next <= self.edits.entries@.len()
                    &&& forall|k: int|
                        0 <= k < next ==> (#[trigger] self.edits.entries@[k]).0.0 <= row
                    &&& forall|k: int|
                        next <= k < self.edits.entries@.len() ==> (
                        #[trigger] self.edits.entries@[k]).0.0 > row
                    &&& forall|at: crate::a1::Address| #[trigger]
                        self.edits@.contains_key(at) && at.0 == row ==> at.1 < self.row(
                            row as int,
                        ).len()
                },
                None => !self.edits_have_fields(),
            },
    {
        let ghost old_values = crate::text::views(fields@);
        let mut values = fields;
        let width: usize = values.len();
        let mut e: usize = first;
        while e < self.edits.entries.len() && self.edits.entries[e].0.0 == row
            invariant
                self.wf(),
                first <= e <= self.edits.entries@.len(),
                values@.len() == width == self.row(row as int).len(),
                old_values == self.row(row as int),
                forall|k: int|
                    0 <= k < first ==> (#[trigger] self.edits.entries@[k]).0.0 < row,
                forall|k: int|
                    first <= k < e ==> (#[trigger] self.edits.entries@[k]).0.0 == row
                        && self.edits.entries@[k].0.1 < width
                        && values@[self.edits.entries@[k].0.1 as int]@
                        == self.edits.entries@[k].1@,
                forall|c: int|
                    0 <= c < width && (forall|k: int|
                        first <= k < e ==> (#[trigger] self.edits.entries@[k]).0.1 != c)
                        ==> (#[trigger] values@[c])@ == old_values[c],
                forall|k: int|
                    first <= k < self.edits.entries@.len() ==> (
                    #[trigger] self.edits.entries@[k]).0.0 >= row,
            decreases self.edits.entries@.len() - e,
        {
            let col = self.edits.entries[e].0.1;
            if col >= width {
                proof {
                    self.edits.entry_is_held(e as int);
                    assert(self.edits@.contains_key(self.edits.entries@[e as int].0));
                }
                return None;
            }
            let ghost before_set = values@;
            let text: String = self.edits.entries[e].1.clone();
            values[col] = text;
            proof {
                assert forall|k: int| first <= k < e implies values@[(
                #[trigger] self.edits.entries@[k]).0.1 as int]@ == self.edits.entries@[k].1@ by {
                    assert(before(self.edits.entries@[k].0, self.edits.entries@[e as int].0));
                }
                assert forall|c: int|
                    0 <= c < width && (forall|k: int|
                        first <= k < e + 1 ==> (#[trigger] self.edits.entries@[k]).0.1 != c)
                    implies (#[trigger] values@[c])@ == old_values[c] by {
                    assert(self.edits.entries@[e as int].0.1 != c);
                    assert(values@[c] == before_set[c]);
                    assert(forall|k: int|
                        first <= k < e ==> (#[trigger] self.edits.entries@[k]).0.1 != c);
                }
            }
            e = e + 1;
        }
        proof {
            assert forall|k: int| e <= k < self.edits.entries@.len() implies (
            #[trigger] self.edits.entries@[k]).0.0 > row by {
                if k > e {
                    assert(before(self.edits.entries@[e as int].0, self.edits.entries@[k].0));
                }
            }
            assert forall|at: crate::a1::Address| #[trigger]
                self.edits@.contains_key(at) && at.0 == row implies at.1 < width by {
                let k = crate::cells::place(self.edits.entries@, at);
                assert(self.edits.entries@[k].0 == at);
            }
            assert(crate::text::views(values@) =~= self.new_row(row as int)) by {
                assert forall|c: int| 0 <= c < width implies values@[c]@ == self.new_row(
                    row as int,
                )[c] by {
                    let at = (row, c as usize);
                    if self.edits@.contains_key(at) {
                        let k = crate::cells::place(self.edits.entries@, at);
                        assert(self.edits.entries@[k].0 == at);
                        self.edits.entry_is_held(k);
                        assert(first <= k < e);
                    } else {
                        assert forall|k: int| first <= k < e implies (
                        #[trigger] self.edits.entries@[k]).0.1 != c by {
                            self.edits.entry_is_held(k);
                        }
                    }
                }
            }
        }
        Some((values, e))
    }

    /// Where the content of a record begins.
    fn content_from(&self, record: &Record) -> (r: usize)
        requires
            record.start < record.end <= self.data@.len(),
            crate::records::content_start(self.data@, record.start as int) < record.end,
        ensures
            r == crate::records::content_start(self.data@, record.start as int),
    {
        let mut from: usize = record.start;
        if record.start == 0 && record.end >= 3 && self.data[0] == 0xef && self.data[1] == 0xbb
            && self.data[2] == 0xbf {
            from = 3;
        }
        let ghost first: int = from as int;
        proof {
            opening_is_lead(self.data@);
            if record.start == 0 {
                if crate::records::has_mark(self.data@) {
                    assert(record.end > 3);
                }
            }
            assert(crate::records::content_start(self.data@, record.start as int) == first
                + crate::records::newline_run(self.data@.skip(first)));
        }
        while from < record.end && (self.data[from] == 10 || self.data[from] == 13)
            invariant
                first <= from <= record.end <= self.data@.len(),
                first + crate::records::newline_run(self.data@.skip(first)) == from
                    + crate::records::newline_run(self.data@.skip(from as int)),
                first + crate::records::newline_run(self.data@.skip(first)) < record.end,
            decreases record.end - from,
        {
            assert(self.data@.skip(from as int).skip(1) =~= self.data@.skip(from + 1));
            from = from + 1;
        }
        from
    }

    /// Where the line ends that close a record begin.
    fn content_to(&self, from: usize, end: usize) -> (r: usize)
        requires
            from <= end <= self.data@.len(),
        ensures
            from <= r <= end,
            r == end - closing_run(self.data@.subrange(from as int, end as int)),
    {
        let mut to: usize = end;
        while to > from && (self.data[to - 1] == 10 || self.data[to - 1] == 13)
            invariant
                from <= to <= end <= self.data@.len(),
                end - closing_run(self.data@.subrange(from as int, end as int)) == to - closing_run(
                    self.data@.subrange(from as int, to as int),
                ),
            decreases to - from,
        {
            assert(self.data@.subrange(from as int, to as int).drop_last() =~= self.data@.subrange(
                from as int,
                to - 1,
            ));
            to = to - 1;
        }
        to
    }

    /// The source with its edits, in source order. Bytes outside the content of edited
    /// records are copied.
    pub fn save_plain(&self) -> (r: Result<Vec<u8>, Error>)
        requires
            self.wf(),
            self.indexed(),
        ensures
            match r {
                Ok(bytes) => {
                    &&& self.edits_have_fields()
                    &&& bytes@ == self.plain_save()
                    &&& !self.mark_at_start() ==> holds_exactly(
                        bytes@,
                        self.delimiter,
                        self.new_rows(self.index.rows as int),
                    )
                },
                Err(error) => error == Error::EditedColumnGone && !self.edits_have_fields(),
            },
    {
        let mut out: Vec<u8> = Vec::new();
        let mut cursor: usize = 0;
        let mut e: usize = 0;
        let ghost mut done: int = 0;
        while e < self.edits.entries.len()
            invariant
                self.wf(),
                self.indexed(),
                0 <= done <= self.index.rows,
                cursor == self.offset(done) <= self.data@.len(),
                out@ == self.written(done),
                e <= self.edits.entries@.len(),
                forall|k: int| 0 <= k < e ==> (#[trigger] self.edits.entries@[k]).0.0 < done,
                forall|k: int|
                    e <= k < self.edits.entries@.len() ==> (#[trigger] self.edits.entries@[k]).0.0
                        >= done,
                self.lines_are_good(done),
                forall|at: crate::a1::Address| #[trigger]
                    self.edits@.contains_key(at) && at.0 < done ==> at.1 < self.row(
                        at.0 as int,
                    ).len(),
            decreases self.edits.entries@.len() - e,
        {
            let row: u64 = self.edits.entries[e].0.0;
            proof {
                self.edits.entry_is_held(e as int);
                let col = self.edits.entries@[e as int].0.1;
                assert(self.edits@.contains_key(((row as int) as u64, col)));
                assert(self.row_edited(row as int));
                assert forall|k: int| e <= k < self.edits.entries@.len() implies (
                #[trigger] self.edits.entries@[k]).0.0 >= row by {
                    if k > e {
                        assert(before(self.edits.entries@[e as int].0, self.edits.entries@[k].0));
                    }
                }
                assert forall|i: int| done <= i < row implies !#[trigger] self.row_edited(i) by {
                    if self.row_edited(i) {
                        let col = choose|col: usize| #[trigger]
                            self.edits@.contains_key((i as u64, col));
                        let k = crate::cells::place(self.edits.entries@, (i as u64, col));
                        assert(self.edits.entries@[k].0 == (i as u64, col));
                    }
                }
                self.unedited_rows_are_copied(done, row as int);
                self.row_bounds(row as int);
            }
            let record = self.record_of(row);
            let from = self.content_from(&record);
            let to = self.content_to(from, record.end);
            let (start, end): (usize, usize) = (record.start, record.end);
            let ghost raw = self.raw(row as int);
            let (values, next) = match self.edited_values(row, record.fields, e) {
                Some(pair) => pair,
                None => {
                    return Err(Error::EditedColumnGone);
                },
            };
            append_range(&mut out, &self.data, cursor, start);
            append_range(&mut out, &self.data, start, from);
            let mut line = write_line(&values, self.delimiter);
            let ghost full = line@;
            line.pop();
            let ghost before_line = out@;
            out.append(&mut line);
            append_range(&mut out, &self.data, to, end);
            proof {
                assert(raw.skip(from - start) =~= self.data@.subrange(from as int, end as int));
                assert(raw.take(from - start) =~= self.data@.subrange(start as int, from as int));
                assert(raw.skip(raw.len() - self.suffix(row as int)) =~= self.data@.subrange(
                    to as int,
                    end as int,
                ));
                assert(values@[0]@ == crate::text::views(values@)[0]);
                assert(self.line_is_good(row as int));
                assert(out@ =~= self.written(row as int) + self.piece(row as int));
                assert forall|i: int| 0 <= i < row + 1 && #[trigger] self.row_edited(i) implies
                    self.line_is_good(i) by {
                    if i < row {
                        assert(i < done);
                    }
                }
                assert forall|at: crate::a1::Address| #[trigger]
                    self.edits@.contains_key(at) && at.0 < row + 1 implies at.1 < self.row(
                    at.0 as int,
                ).len() by {
                    if at.0 < row && at.0 >= done {
                        assert(self.edits@.contains_key(((at.0 as int) as u64, at.1)));
                        assert(self.row_edited(at.0 as int));
                    }
                }
                done = row + 1;
            }
            cursor = end;
            e = next;
        }
        proof {
            let n = self.index.rows as int;
            assert forall|i: int| done <= i < n implies !#[trigger] self.row_edited(i) by {
                if self.row_edited(i) {
                    let col = choose|col: usize| #[trigger]
                        self.edits@.contains_key((i as u64, col));
                    let k = crate::cells::place(self.edits.entries@, (i as u64, col));
                    assert(self.edits.entries@[k].0 == (i as u64, col));
                }
            }
            self.unedited_rows_are_copied(done, n);
            self.offset_bounds(n);
            assert forall|at: crate::a1::Address| #[trigger] self.edits@.contains_key(at) implies
                at.1 < self.row(at.0 as int).len() by {
                assert(self.edits@.contains_key(((at.0 as int) as u64, at.1)));
                assert(self.row_edited(at.0 as int));
            }
            assert(self.lines_are_good(n));
        }
        let size: usize = self.data.len();
        append_range(&mut out, &self.data, cursor, size);
        if self.index.rows > 0 {
            let record = self.record_of(self.index.rows - 1);
            if record.end == size {
                proof {
                    self.row_bounds(self.index.rows - 1);
                }
                let from = self.content_from(&record);
                let to = self.content_to(from, size);
                let tail = slice_subrange(self.data.as_slice(), to, size);
                proof {
                    let raw = self.raw(self.index.rows - 1);
                    closing_run_len(raw.skip(self.prefix(self.index.rows - 1)));
                    assert(raw.skip(from - record.start) =~= self.data@.subrange(
                        from as int,
                        size as int,
                    ));
                    assert(tail@ =~= raw.skip(raw.len() - self.suffix(self.index.rows - 1)));
                    assert forall|i: int| 0 <= i < tail@.len() implies crate::records::is_newline(
                        #[trigger] tail@[i],
                    ) by {
                        assert(tail@[i] == raw.skip(from - record.start)[to - from + i]);
                    }
                    newlines_are_lead(tail@);
                }
                let blank = is_blank(tail, self.delimiter);
                assert(blank);
            }
        }
        proof {
            let n = self.index.rows as int;
            assert(out@ =~= self.plain_save());
            if !self.mark_at_start() {
                self.plain_save_reads_back();
            }
        }
        Ok(out)
    }

    /// The content of a record: its bytes without what comes before it and its line ends.
    pub open spec fn content(self, row: int) -> Seq<u8> {
        let raw = self.raw(row);
        raw.subrange(self.prefix(row), raw.len() - self.suffix(row))
    }

    /// A record as it is written in sorted order: on a line of its own, closed by a line
    /// feed, its content as it was unless it is edited.
    pub open spec fn sorted_line(self, row: int) -> Seq<u8> {
        if self.row_edited(row) {
            crate::records::csv_line(self.new_row(row), self.delimiter)
        } else {
            self.content(row).push(10)
        }
    }

    /// The byte order mark of the source, where it has one.
    pub open spec fn mark(self) -> Seq<u8> {
        if crate::records::has_mark(self.data@) {
            self.data@.take(3)
        } else {
            Seq::empty()
        }
    }

    /// The byte order mark and the lines of the first `rows` records of the order.
    pub open spec fn sorted_lines(self, order: Seq<crate::sort::RecordRef>, rows: int) -> Seq<u8>
        decreases rows,
    {
        if rows <= 0 {
            self.mark()
        } else {
            self.sorted_lines(order, rows - 1) + self.sorted_line(order[rows - 1].row as int)
        }
    }

    /// The values of the first `rows` records of the order with the edits.
    pub open spec fn sorted_rows(self, order: Seq<crate::sort::RecordRef>, rows: int) -> Seq<
        Seq<Seq<char>>,
    > {
        Seq::new(rows as nat, |i: int| self.new_row(order[i].row as int))
    }

    /// The last record of the source, where nothing follows it, has no open quote: its
    /// content is that record wherever it stands.
    pub open spec fn last_is_closed(self) -> bool {
        let row = self.index.rows - 1;
        row >= 0 && !self.row_edited(row) && self.offset(row + 1) == self.data@.len()
            ==> crate::records::reads_as(self.content(row), self.delimiter, self.row(row))
    }

    /// A first value of the order that begins like a byte order mark comes to stand at the
    /// very start, where it is taken for one.
    pub open spec fn sorted_mark_at_start(self, order: Seq<crate::sort::RecordRef>) -> bool {
        !crate::records::has_mark(self.data@) && order.len() > 0 && crate::records::has_mark(
            self.sorted_line(order[0].row as int),
        )
    }

    /// Written in sorted order, the records read back in that order with their edits.
    proof fn sorted_lines_read_back(self, order: crate::sort::SortOrder, rows: int)
        requires
            self.wf(),
            self.fits(order),
            0 <= rows <= order.rows@.len(),
            self.last_is_closed(),
            !self.sorted_mark_at_start(order.rows@),
            forall|i: int|
                0 <= i < rows && self.row_edited((#[trigger] order.rows@[i]).row as int)
                    ==> self.line_is_good(order.rows@[i].row as int),
        ensures
            rows > 0 ==> begins_with(
                self.sorted_lines(order.rows@, rows),
                self.delimiter,
                self.sorted_rows(order.rows@, rows),
            ) && self.sorted_lines(order.rows@, rows).len() > 0 && self.sorted_lines(
                order.rows@,
                rows,
            ).last() == 10,
        decreases rows,
    {
        if rows > 0 {
            self.sorted_lines_read_back(order, rows - 1);
            let row = order.rows@[rows - 1].row as int;
            let before_rows = self.sorted_rows(order.rows@, rows - 1);
            let line = self.sorted_line(row);
            let content = line.drop_last();
            let values = self.new_row(row);
            self.row_bounds(row);
            if self.row_edited(row) {
                assert(self.line_is_good(row));
            } else {
                assert(values =~= self.row(row));
                assert(content =~= self.content(row));
                if self.offset(row + 1) < self.data@.len() {
                    self.content_of_closed(row);
                } else {
                    self.last_row_ends_source(row);
                }
            }
            assert(line =~= content + seq![10u8]);
            let out = if rows == 1 {
                Seq::empty()
            } else {
                self.sorted_lines(order.rows@, rows - 1)
            };
            let lead = if rows == 1 {
                self.mark()
            } else {
                Seq::empty()
            };
            if rows == 1 {
                nothing_read(self.delimiter);
                assert(before_rows =~= Seq::empty());
                assert(crate::records::is_lead(lead)) by {
                    assert(lead.skip(lead.len() as int) =~= Seq::empty());
                    assert(lead.skip(0) =~= lead);
                }
                if lead.len() == 0 && crate::records::has_mark(content) {
                    assert(crate::records::has_mark(line));
                }
            }
            record_follows(out, self.delimiter, before_rows, lead, content, 10u8, values);
            assert(self.sorted_lines(order.rows@, rows) =~= out + lead + content + seq![10u8]);
            assert(self.sorted_rows(order.rows@, rows) =~= before_rows.push(values));
        }
    }

    /// Only the last record ends where the source does.
    proof fn last_row_ends_source(self, row: int)
        requires
            self.wf(),
            0 <= row < self.index.rows,
            self.offset(row + 1) == self.data@.len(),
        ensures
            row + 1 == self.index.rows,
    {
        if row + 1 < self.index.rows {
            self.row_bounds(row + 1);
        }
    }

    /// The content of a record that another follows is that record wherever it stands.
    proof fn content_of_closed(self, row: int)
        requires
            self.wf(),
            0 <= row < self.index.rows,
            self.offset(row + 1) < self.data@.len(),
        ensures
            crate::records::reads_as(self.content(row), self.delimiter, self.row(row)),
    {
        self.row_bounds(row);
        let (start, end) = (self.offset(row), self.offset(row + 1));
        let from = crate::records::content_start(self.data@, start);
        let raw = self.raw(row);
        let tail = raw.skip(from - start);
        assert(tail.last() == self.data@[end - 1]);
        assert(tail.drop_last().last() == self.data@[end - 2]);
        assert(closing_run(tail.drop_last()) == 0);
        assert(self.content(row) =~= self.data@.subrange(from, end - 1));
    }

    /// The view in its sorted order: a byte order mark stays first, blank lines go, records
    /// close with a line feed, and the content of unedited records is copied.
    pub fn save_sorted(&self) -> (r: Result<Vec<u8>, Error>)
        requires
            self.wf(),
            self.order is Some,
        ensures
            match r {
                Ok(bytes) => {
                    let rows = self.order->0.rows@;
                    &&& self.edits_have_fields()
                    &&& bytes@ == self.sorted_lines(rows, rows.len() as int)
                    &&& rows.len() > 0 && self.last_is_closed() && !self.sorted_mark_at_start(rows)
                        ==> holds_exactly(
                        bytes@,
                        self.delimiter,
                        self.sorted_rows(rows, rows.len() as int),
                    )
                },
                Err(error) => error == Error::EditedColumnMissing && !self.edits_have_fields(),
            },
    {
        let order = match &self.order {
            Some(order) => order,
            None => {
                return Ok(Vec::new());
            },
        };
        let ghost rows = order.rows@;
        let mut out: Vec<u8> = Vec::new();
        if self.data.len() >= 3 && self.data[0] == 0xef && self.data[1] == 0xbb && self.data[2]
            == 0xbf {
            append_range(&mut out, &self.data, 0, 3);
        }
        assert(out@ =~= self.mark());
        let mut i: usize = 0;
        while i < order.rows.len()
            invariant
                self.wf(),
                self.order == Some(*order),
                rows == order.rows@,
                i <= rows.len(),
                out@ == self.sorted_lines(rows, i as int),
                forall|k: int|
                    0 <= k < i && self.row_edited((#[trigger] rows[k]).row as int)
                        ==> self.line_is_good(rows[k].row as int),
                forall|k: int, col: usize|
                    0 <= k < i && self.edits@.contains_key(((#[trigger] rows[k]).row, col))
                        ==> #[trigger] in_width(col, self.row(rows[k].row as int).len()),
            decreases rows.len() - i,
        {
            let reference = order.rows[i];
            let row: u64 = reference.row;
            proof {
                self.row_bounds(row as int);
                assert(crate::records::readable(self.data@, self.delimiter, row as nat));
            }
            let record = self.record_of(row);
            let first: usize = self.edits.seek((row, 0));
            let edited = first < self.edits.entries.len() && self.edits.entries[first].0.0 == row;
            proof {
                self.edited_by_entry(row, first as int);
            }
            let ghost so_far = out@;
            if edited {
                let (values, _) = match self.edited_values(row, record.fields, first) {
                    Some(pair) => pair,
                    None => {
                        return Err(Error::EditedColumnMissing);
                    },
                };
                let mut line = write_line(&values, self.delimiter);
                proof {
                    assert(values@[0]@ == crate::text::views(values@)[0]);
                    assert(self.line_is_good(row as int));
                }
                out.append(&mut line);
            } else {
                let from = self.content_from(&record);
                let to = self.content_to(from, record.end);
                append_range(&mut out, &self.data, from, to);
                out.push(10);
                proof {
                    let raw = self.raw(row as int);
                    assert(raw.skip(from - record.start) =~= self.data@.subrange(
                        from as int,
                        record.end as int,
                    ));
                    assert(self.content(row as int) =~= self.data@.subrange(
                        from as int,
                        to as int,
                    ));
                }
            }
            proof {
                assert(out@ =~= so_far + self.sorted_line(row as int));
                assert forall|k: int, col: usize|
                    0 <= k < i + 1 && self.edits@.contains_key(
                        ((#[trigger] rows[k]).row, col),
                    ) implies #[trigger] in_width(col, self.row(rows[k].row as int).len()) by {
                    if k == i {
                        assert(self.edits@.contains_key(((row as int) as u64, col)));
                        assert(self.row_edited(row as int));
                    }
                }
            }
            i = i + 1;
        }
        proof {
            assert forall|at: crate::a1::Address| #[trigger] self.edits@.contains_key(at) implies
                at.1 < self.row(at.0 as int).len() by {
                self.sort_keeps_every_record(*order, at.0 as int);
                let k = choose|k: int| 0 <= k < rows.len() && (#[trigger] rows[k]).row == at.0;
                assert(self.edits@.contains_key((rows[k].row, at.1)));
                assert(in_width(at.1, self.row(rows[k].row as int).len()));
            }
            let n = rows.len() as int;
            if n > 0 && self.last_is_closed() && !self.sorted_mark_at_start(rows) {
                self.sorted_lines_read_back(*order, n);
                let saved = self.sorted_lines(rows, n);
                assert(rows_read(saved, Seq::empty(), self.delimiter, self.sorted_rows(rows, n)));
                assert(saved + Seq::<u8>::empty() =~= saved);
            }
        }
        Ok(out)
    }

    /// A record is edited where the first entry at or after its first column is its own.
    proof fn edited_by_entry(self, row: u64, first: int)
        requires
            self.wf(),
            0 <= first <= self.edits.entries@.len(),
            forall|k: int|
                0 <= k < first ==> before((#[trigger] self.edits.entries@[k]).0, (row, 0usize)),
            forall|k: int|
                first <= k < self.edits.entries@.len() ==> !before(
                    (#[trigger] self.edits.entries@[k]).0,
                    (row, 0usize),
                ),
        ensures
            self.row_edited(row as int) <==> first < self.edits.entries@.len()
                && self.edits.entries@[first].0.0 == row,
    {
        if first < self.edits.entries@.len() && self.edits.entries@[first].0.0 == row {
            self.edits.entry_is_held(first);
            let col = self.edits.entries@[first].0.1;
            assert(self.edits@.contains_key(((row as int) as u64, col)));
        }
        if self.row_edited(row as int) {
            let col = choose|col: usize| #[trigger]
                self.edits@.contains_key(((row as int) as u64, col));
            let k = crate::cells::place(self.edits.entries@, (row, col));
            assert(self.edits.entries@[k].0 == (row, col));
            if k > first {
                assert(before(self.edits.entries@[first].0, self.edits.entries@[k].0));
            }
        }
    }

    /// What saving to a destination is refused for, if it is.
    pub open spec fn save_rule(self, to: Destination) -> Result<(), Error> {
        if self.index.malformed is Some {
            Err(Error::Malformed(self.index.malformed->0))
        } else if !self.index.done {
            Err(Error::WaitBeforeSaving)
        } else {
            let place: Result<(), Error> = match self.workbook {
                Some(book) => book.destination_rule(to.extension@, self.order is Some),
                None => if to.extension@ == "xlsx"@ || to.extension@ == "ods"@ {
                    Err(Error::CsvToWorkbook)
                } else {
                    Ok(())
                },
            };
            if place is Err {
                place
            } else if to.exists && !to.is_source {
                Err(Error::DestinationExists)
            } else {
                Ok(())
            }
        }
    }

    /// The destination takes the workbook itself, not its sheet as CSV.
    pub open spec fn is_native(self, to: Destination) -> bool {
        self.workbook is Some && to.extension@ != "csv"@
    }

    /// The bytes to write to a destination. The source itself is replaced; any other file
    /// that exists is refused, and so is a native save of a sorted sheet.
    pub fn save_as(&self, to: &Destination) -> (r: Result<Save, Error>)
        requires
            self.wf(),
        ensures
            match r {
                Err(error) => self.save_rule(*to) == Err::<(), Error>(error) || {
                    &&& self.save_rule(*to) is Ok
                    &&& !self.is_native(*to)
                    &&& !self.edits_have_fields()
                    &&& error == if self.order is Some {
                        Error::EditedColumnMissing
                    } else {
                        Error::EditedColumnGone
                    }
                },
                Ok(Save::Native) => self.save_rule(*to) is Ok && self.is_native(*to),
                Ok(Save::Csv(bytes)) => {
                    &&& self.save_rule(*to) is Ok
                    &&& !self.is_native(*to)
                    &&& self.edits_have_fields()
                    &&& bytes@ == match self.order {
                        Some(order) => self.sorted_lines(
                            order.rows@,
                            order.rows@.len() as int,
                        ),
                        None => self.plain_save(),
                    }
                },
            },
    {
        if let Some(m) = self.index.malformed {
            return Err(Error::Malformed(m));
        }
        if !self.index.done {
            return Err(Error::WaitBeforeSaving);
        }
        match &self.workbook {
            Some(book) => match book.validate_destination(
                to.extension.as_str(),
                self.order.is_some(),
            ) {
                Ok(()) => {},
                Err(error) => {
                    return Err(error);
                },
            },
            None => if same(to.extension.as_str(), "xlsx") || same(to.extension.as_str(), "ods") {
                return Err(Error::CsvToWorkbook);
            },
        }
        if to.exists && !to.is_source {
            return Err(Error::DestinationExists);
        }
        if self.workbook.is_some() && !same(to.extension.as_str(), "csv") {
            return Ok(Save::Native);
        }
        let bytes = if self.order.is_some() {
            self.save_sorted()
        } else {
            self.save_plain()
        };
        match bytes {
            Ok(bytes) => Ok(Save::Csv(bytes)),
            Err(error) => Err(error),
        }
    }

    /// A destination that exists and is not the source is never written.
    pub proof fn existing_files_are_kept(self, to: Destination)
        requires
            to.exists,
            !to.is_source,
        ensures
            self.save_rule(to) is Err,
    {
    }

    /// A workbook is saved natively in its own format and in source order only.
    pub proof fn native_saves_keep_format_and_order(self, to: Destination)
        requires
            self.save_rule(to) is Ok,
            self.is_native(to),
        ensures
            to.extension@ == crate::workbook::native_extension(self.workbook->0.format),
            self.order is None,
    {
    }
}

/// Where a sheet is to be saved.
#[derive(Clone, Debug, PartialEq, Eq)]
pub struct Destination {
    /// The extension of the file name, in lower case and without its dot.
    pub extension: String,
    /// It is the file that is open.
    pub is_source: bool,
    /// There is such a file.
    pub exists: bool,
}

/// What is to be written to a destination.
#[derive(Debug)]
pub enum Save {
    /// These bytes.
    Csv(Vec<u8>),
    /// The workbook package with its sheet patched.
    Native,
}

/// The column is one of `width` fields.
pub open spec fn in_width(col: usize, width: nat) -> bool {
    col < width
}

} // verus!
