//! What a save to CSV keeps of every record.
use crate::records::{all_newlines, csv_line, has_mark, is_newline, newline_run};
use crate::save::closing_run;
use crate::sheet::Sheet;
use vstd::prelude::*;

verus! {

proof fn run_is(lead: Seq<u8>, rest: Seq<u8>)
    requires
        all_newlines(lead),
        rest.len() > 0 && !is_newline(rest[0]),
    ensures
        newline_run(lead + rest) == lead.len(),
    decreases lead.len(),
{
    let all = lead + rest;
    if lead.len() > 0 {
        assert(is_newline(lead[0]));
        assert(all[0] == lead[0]);
        assert(all.skip(1) =~= lead.skip(1) + rest);
        assert(all_newlines(lead.skip(1))) by {
            assert forall|i: int| 0 <= i < lead.skip(1).len() implies is_newline(
                #[trigger] lead.skip(1)[i],
            ) by {
                assert(is_newline(lead[i + 1]));
            }
        }
        run_is(lead.skip(1), rest);
    } else {
        assert(all =~= rest);
    }
}

proof fn closing_is(content: Seq<u8>, ends: Seq<u8>)
    requires
        all_newlines(ends),
        content.len() > 0 && !is_newline(content.last()),
    ensures
        closing_run(content + ends) == ends.len(),
    decreases ends.len(),
{
    let all = content + ends;
    if ends.len() > 0 {
        assert(is_newline(ends[ends.len() - 1]));
        assert(all.last() == ends.last());
        assert(all.drop_last() =~= content + ends.drop_last());
        assert(all_newlines(ends.drop_last())) by {
            assert forall|i: int| 0 <= i < ends.drop_last().len() implies is_newline(
                #[trigger] ends.drop_last()[i],
            ) by {
                assert(is_newline(ends[i]));
            }
        }
        closing_is(content, ends.drop_last());
    } else {
        assert(all =~= content);
    }
}

impl Sheet {
    /// The bytes of a record are blank lines, its content and line ends; before the blank
    /// lines of the first comes a byte order mark, where the source has one.
    pub open spec fn lies(self, row: int, lead: Seq<u8>, content: Seq<u8>, ends: Seq<u8>) -> bool {
        &&& self.data@.subrange(self.offset(row), self.offset(row + 1)) == lead + content + ends
        &&& content.len() > 0
        &&& !is_newline(content[0])
        &&& !is_newline(content.last())
        &&& all_newlines(ends)
        &&& if row == 0 && has_mark(self.data@) {
            lead.len() >= 3 && all_newlines(lead.skip(3))
        } else {
            all_newlines(lead)
        }
    }

    /// The values of a record, with the texts that its edited cells are given.
    pub open spec fn has_new_values(self, row: int, values: Seq<Seq<char>>) -> bool {
        &&& values.len() == self.row(row).len()
        &&& forall|col: usize|
            col < values.len() ==> values[col as int] == if #[trigger] self.edits@.contains_key(
                (row as u64, col),
            ) {
                self.edits@[(row as u64, col)]
            } else {
                self.row(row)[col as int]
            }
    }

    proof fn new_row_is(self, row: int, values: Seq<Seq<char>>)
        requires
            self.has_new_values(row, values),
            values.len() <= usize::MAX,
        ensures
            self.new_row(row) == values,
    {
        let made = self.new_row(row);
        assert forall|c: int| 0 <= c < values.len() implies made[c] == values[c] by {
            let col = c as usize;
            assert(col as int == c);
            assert(self.edits@.contains_key((row as u64, col)) || !self.edits@.contains_key(
                (row as u64, col),
            ));
        }
        assert(made =~= values);
    }

    proof fn parts_of_record(self, row: int, lead: Seq<u8>, content: Seq<u8>, ends: Seq<u8>)
        requires
            self.wf(),
            0 <= row < self.index.rows,
            self.lies(row, lead, content, ends),
        ensures
            self.prefix(row) == lead.len(),
            self.suffix(row) == ends.len(),
            self.raw(row) == lead + content + ends,
    {
        let data = self.data@;
        let raw = self.raw(row);
        self.record_bounds(row);
        let from = self.offset(row);
        let to = self.offset(row + 1);
        if row == 0 {
            assert(from == 0);
            let mark = if has_mark(data) {
                3int
            } else {
                0
            };
            let rest = content + ends + data.skip(to);
            assert(lead.skip(0) =~= lead);
            assert(data =~= data.subrange(from, to) + data.skip(to));
            assert(data =~= lead + rest);
            assert(data.skip(mark) =~= lead.skip(mark) + rest);
            run_is(lead.skip(mark), rest);
        } else {
            let rest = content + ends + data.skip(to);
            assert(data.skip(from) =~= data.subrange(from, to) + data.skip(to));
            assert(data.skip(from) =~= lead + rest);
            run_is(lead, rest);
            assert(from > 0) by {
                self.starts_later(row);
            }
        }
        assert(raw.skip(lead.len() as int) =~= content + ends);
        closing_is(content, ends);
    }

    proof fn record_bounds(self, row: int)
        requires
            self.wf(),
            0 <= row < self.index.rows,
        ensures
            0 <= self.offset(row) <= self.offset(row + 1) <= self.data@.len(),
            self.offset(row) < self.offset(row + 1),
    {
        assert(crate::index::row_settled(self.data@, self.delimiter, row as nat));
    }

    proof fn starts_later(self, row: int)
        requires
            self.wf(),
            0 < row < self.index.rows,
        ensures
            self.offset(row) > 0,
    {
        self.record_bounds(row - 1);
    }

    /// A save to CSV holds every record of the source, one after another and in their order.
    /// A record without edits is there byte for byte. An edited one keeps its blank lines
    /// and its line ends, and between them stand its values with the edits. Behind the last
    /// comes what came behind it in the source. The result is where each begins.
    pub proof fn plain_saves_hold_every_record(self, bytes: Seq<u8>) -> (places:
        Seq<int>)
        requires
            self.wf(),
            self.indexed(),
            self.order is None,
            bytes == self.plain_save(),
        ensures
            places.len() == self.index.rows + 1,
            places[0] == 0,
            forall|i: int|
                0 <= i < self.index.rows ==> 0 <= #[trigger] places[i] <= places[i + 1]
                    <= bytes.len(),
            bytes.skip(places[self.index.rows as int]) == self.data@.skip(
                self.offset(self.index.rows as int),
            ),
            forall|i: int|
                0 <= i < self.index.rows && (forall|col: usize|
                    !#[trigger] self.edits@.contains_key((i as u64, col))) ==> bytes.subrange(
                    #[trigger] places[i],
                    places[i + 1],
                ) == self.data@.subrange(self.offset(i), self.offset(i + 1)),
            forall|
                i: int,
                col: usize,
                lead: Seq<u8>,
                content: Seq<u8>,
                ends: Seq<u8>,
                values: Seq<Seq<char>>,
            |
                #![trigger self.edits@.contains_key((i as u64, col)), self.lies(
                    i,
                    lead,
                    content,
                    ends,
                ), self.has_new_values(i, values)]
                0 <= i < self.index.rows && self.edits@.contains_key((i as u64, col)) && self.lies(
                    i,
                    lead,
                    content,
                    ends,
                ) && self.has_new_values(i, values) && values.len() <= usize::MAX
                    ==> bytes.subrange(places[i], places[i + 1]) == lead + csv_line(
                    values,
                    self.delimiter,
                ).drop_last() + ends,
    {
        let n = self.index.rows as int;
        let places = Seq::new((n + 1) as nat, |i: int| self.written(i).len() as int);
        let tail = self.data@.skip(self.offset(n));
        assert forall|i: int| 0 <= i < n implies 0 <= #[trigger] places[i] <= places[i + 1]
            <= bytes.len() && bytes.subrange(places[i], places[i + 1]) == self.piece(i) by {
            self.piece_is_in_place(i, n);
            assert(bytes.subrange(places[i], places[i + 1]) =~= self.written(n).subrange(
                places[i],
                places[i + 1],
            ));
        }
        assert(bytes.skip(places[n]) =~= tail);
        assert forall|i: int|
            0 <= i < self.index.rows && (forall|col: usize|
                !#[trigger] self.edits@.contains_key((i as u64, col))) implies bytes.subrange(
            #[trigger] places[i],
            places[i + 1],
        ) == self.data@.subrange(self.offset(i), self.offset(i + 1)) by {
            assert(!self.row_edited(i));
        }
        assert forall|
            i: int,
            col: usize,
            lead: Seq<u8>,
            content: Seq<u8>,
            ends: Seq<u8>,
            values: Seq<Seq<char>>,
        |
            #![trigger self.edits@.contains_key((i as u64, col)), self.lies(
                i,
                lead,
                content,
                ends,
            ), self.has_new_values(i, values)]
            0 <= i < self.index.rows && self.edits@.contains_key((i as u64, col)) && self.lies(
                i,
                lead,
                content,
                ends,
            ) && self.has_new_values(i, values) && values.len() <= usize::MAX implies bytes.subrange(
            places[i],
            places[i + 1],
        ) == lead + csv_line(values, self.delimiter).drop_last() + ends by {
            assert(self.row_edited(i));
            self.parts_of_record(i, lead, content, ends);
            self.new_row_is(i, values);
            let raw = self.raw(i);
            assert(raw.take(lead.len() as int) =~= lead);
            assert(raw.skip(raw.len() - ends.len()) =~= ends);
            assert(bytes.subrange(places[i], places[i + 1]) == self.piece(i));
        }
        places
    }

    proof fn piece_is_in_place(self, i: int, n: int)
        requires
            0 <= i < n,
        ensures
            self.written(i).len() <= self.written(i + 1).len() <= self.written(n).len(),
            self.written(n).subrange(
                self.written(i).len() as int,
                self.written(i + 1).len() as int,
            ) == self.piece(i),
        decreases n,
    {
        let at = self.written(i).len() as int;
        let to = self.written(i + 1).len() as int;
        if i < n - 1 {
            self.piece_is_in_place(i, n - 1);
            assert(self.written(n).subrange(at, to) =~= self.written(n - 1).subrange(at, to));
        } else {
            assert(self.written(n).subrange(at, to) =~= self.piece(i));
        }
    }

    /// A save to CSV of a sorted sheet holds every record, one after another in the order of
    /// the view, behind the byte order mark of the source. Each is a line: its content as it
    /// was, or its values with the edits. The result is where each begins.
    pub proof fn sorted_saves_hold_every_record(self, bytes: Seq<u8>) -> (places: Seq<int>)
        requires
            self.wf(),
            self.order is Some,
            bytes == self.sorted_lines(
                self.order->0.rows@,
                self.order->0.rows@.len() as int,
            ),
        ensures
            places.len() == self.index.rows + 1,
            places[self.index.rows as int] == bytes.len(),
            bytes.take(places[0]) == if has_mark(self.data@) {
                seq![0xefu8, 0xbb, 0xbf]
            } else {
                Seq::empty()
            },
            forall|k: int|
                0 <= k < self.index.rows ==> 0 <= #[trigger] places[k] <= places[k + 1]
                    <= bytes.len(),
            forall|k: int, lead: Seq<u8>, content: Seq<u8>, ends: Seq<u8>|
                #![trigger places[k], self.lies(self.source_of(k), lead, content, ends)]
                0 <= k < self.index.rows && (forall|col: usize|
                    !#[trigger] self.edits@.contains_key((self.source_of(k) as u64, col)))
                    && self.lies(self.source_of(k), lead, content, ends) ==> bytes.subrange(
                    places[k],
                    places[k + 1],
                ) == content.push(10),
            forall|k: int, col: usize, values: Seq<Seq<char>>|
                #![trigger self.edits@.contains_key(
                    (self.source_of(k) as u64, col),
                ), self.has_new_values(self.source_of(k), values)]
                0 <= k < self.index.rows && self.edits@.contains_key(
                    (self.source_of(k) as u64, col),
                ) && self.has_new_values(self.source_of(k), values) && values.len() <= usize::MAX
                    ==> bytes.subrange(places[k], places[k + 1]) == csv_line(
                    values,
                    self.delimiter,
                ),
    {
        let order = self.order->0.rows@;
        let n = order.len() as int;
        assert(n == self.index.rows);
        let places = Seq::new(
            (n + 1) as nat,
            |i: int| self.sorted_lines(order, i).len() as int,
        );
        self.mark_is_first(order, n);
        assert(self.sorted_lines(order, 0) == self.mark());
        assert(bytes.take(places[0]) =~= self.mark());
        if has_mark(self.data@) {
            assert(self.mark() =~= seq![0xefu8, 0xbb, 0xbf]);
        }
        assert forall|k: int| 0 <= k < n implies 0 <= #[trigger] places[k] <= places[k + 1]
            <= bytes.len() && bytes.subrange(places[k], places[k + 1]) == self.sorted_line(
            order[k].row as int,
        ) && self.source_of(k) == order[k].row && order[k].row < self.index.rows by {
            self.line_is_in_place(order, k, n);
            assert(self.fits(self.order->0));
        }
        assert forall|k: int, lead: Seq<u8>, content: Seq<u8>, ends: Seq<u8>|
            #![trigger places[k], self.lies(self.source_of(k), lead, content, ends)]
            0 <= k < self.index.rows && (forall|col: usize|
                !#[trigger] self.edits@.contains_key((self.source_of(k) as u64, col)))
                && self.lies(self.source_of(k), lead, content, ends) implies bytes.subrange(
            places[k],
            places[k + 1],
        ) == content.push(10) by {
            let row = self.source_of(k);
            assert(!self.row_edited(row));
            self.parts_of_record(row, lead, content, ends);
            assert(self.content(row) =~= content);
        }
        assert forall|k: int, col: usize, values: Seq<Seq<char>>|
            #![trigger self.edits@.contains_key(
                (self.source_of(k) as u64, col),
            ), self.has_new_values(self.source_of(k), values)]
            0 <= k < self.index.rows && self.edits@.contains_key(
                (self.source_of(k) as u64, col),
            ) && self.has_new_values(self.source_of(k), values) && values.len()
                <= usize::MAX implies bytes.subrange(places[k], places[k + 1]) == csv_line(
            values,
            self.delimiter,
        ) by {
            assert(0 <= places[k]);
            assert(self.row_edited(self.source_of(k)));
            self.new_row_is(self.source_of(k), values);
        }
        places
    }

    proof fn mark_is_first(self, order: Seq<crate::sort::RecordRef>, n: int)
        requires
            0 <= n,
        ensures
            self.mark().len() <= self.sorted_lines(order, n).len(),
            self.sorted_lines(order, n).take(self.mark().len() as int) == self.mark(),
        decreases n,
    {
        let m = self.mark().len() as int;
        if n > 0 {
            self.mark_is_first(order, n - 1);
            assert(self.sorted_lines(order, n).take(m) =~= self.sorted_lines(order, n - 1).take(m));
        } else {
            assert(self.mark().take(m) =~= self.mark());
        }
    }

    proof fn line_is_in_place(self, order: Seq<crate::sort::RecordRef>, i: int, n: int)
        requires
            0 <= i < n,
        ensures
            self.sorted_lines(order, i).len() <= self.sorted_lines(order, i + 1).len()
                <= self.sorted_lines(order, n).len(),
            self.sorted_lines(order, n).subrange(
                self.sorted_lines(order, i).len() as int,
                self.sorted_lines(order, i + 1).len() as int,
            ) == self.sorted_line(order[i].row as int),
        decreases n,
    {
        let at = self.sorted_lines(order, i).len() as int;
        let to = self.sorted_lines(order, i + 1).len() as int;
        let all = self.sorted_lines(order, n);
        if i < n - 1 {
            self.line_is_in_place(order, i, n - 1);
            assert(all.subrange(at, to) =~= self.sorted_lines(order, n - 1).subrange(at, to));
        } else {
            assert(all.subrange(at, to) =~= self.sorted_line(order[i].row as int));
        }
    }
}

} // verus!
