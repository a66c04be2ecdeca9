//! The sparse index of a source: where every 64th record starts.
use crate::records::{count_lines, Ahead, Malformed};
use vstd::prelude::*;

verus! {

/// Records from one index entry to the next.
pub const STRIDE: u64 = 64;

/// What is known of the records of a source. It grows by one stride at a time.
pub struct Index {
    pub offsets: Vec<u64>,
    pub rows: u64,
    pub bytes: u64,
    pub done: bool,
    pub malformed: Option<Malformed>,
}

/// The bytes of the source, read with the delimiter, come to a record that is not UTF-8.
pub open spec fn is_malformed(data: Seq<u8>, delimiter: u8, m: Malformed) -> bool {
    let start = crate::records::offset(data, delimiter, m.record as nat);
    &&& crate::records::has_rows(data, delimiter, m.record as nat)
    &&& crate::records::row_at(data, delimiter, m.record as nat) == Err::<
        Option<(Seq<Seq<char>>, int)>,
        Option<(usize, usize)>,
    >(Some((m.field, m.valid_up_to)))
    &&& m.byte == start
    &&& m.line == 1 + crate::records::line_feeds(data.take(start))
}

/// The source has this many records and ends after them.
pub open spec fn has_exactly(data: Seq<u8>, delimiter: u8, rows: nat) -> bool {
    &&& crate::records::has_rows(data, delimiter, rows)
    &&& crate::records::row_at(data, delimiter, rows) == Ok::<
        Option<(Seq<Seq<char>>, int)>,
        Option<(usize, usize)>,
    >(None)
}

/// Record `row` is read and starts at `start`.
pub open spec fn starts_at(data: Seq<u8>, delimiter: u8, row: nat, start: int) -> bool {
    &&& start == crate::records::offset(data, delimiter, row)
    &&& row <= start <= data.len()
    &&& crate::records::is_start(data, start)
    &&& crate::records::has_rows(data, delimiter, row)
    &&& forall|i: nat| i < row ==> #[trigger] row_settled(data, delimiter, i)
}

/// Record `row` lies where it starts, and is that record wherever its content stands.
pub open spec fn row_settled(data: Seq<u8>, delimiter: u8, row: nat) -> bool {
    crate::records::is_settled(
        data,
        delimiter,
        crate::records::offset(data, delimiter, row),
        crate::records::offset(data, delimiter, row + 1),
        crate::records::row_of(data, delimiter, row),
    ) && crate::records::is_start(data, crate::records::offset(data, delimiter, row))
        && crate::records::offset(data, delimiter, row + 1) <= data.len()
}

impl Index {
    /// What the index says of the source is so.
    pub open spec fn wf(self, data: Seq<u8>, delimiter: u8) -> bool {
        &&& starts_at(
            data,
            delimiter,
            self.rows as nat,
            crate::records::offset(data, delimiter, self.rows as nat),
        )
        &&& self.rows <= 64 * self.offsets@.len()
        &&& forall|k: int|
            0 <= k < self.offsets@.len() ==> starts_at(
                data,
                delimiter,
                (64 * k) as nat,
                (#[trigger] self.offsets@[k]) as int,
            ) && (self.malformed is None ==> 64 * k < self.rows)
        &&& match self.malformed {
            Some(m) => self.done && self.rows <= m.record && is_malformed(data, delimiter, m),
            None => if self.done {
                has_exactly(data, delimiter, self.rows as nat)
            } else {
                self.rows == 64 * self.offsets@.len()
            },
        }
        &&& self.bytes == if self.done && self.malformed is None {
            data.len() as int
        } else {
            crate::records::offset(data, delimiter, self.rows as nat)
        }
    }

    /// Nothing is known yet.
    pub fn new(data: &Vec<u8>, delimiter: u8) -> (r: Self)
        ensures
            r.wf(data@, delimiter),
            r.rows == 0 && r.offsets@.len() == 0 && !r.done,
    {
        Self { offsets: Vec::new(), rows: 0, bytes: 0, done: false, malformed: None }
    }

    /// Read one more stride of records, up to the end or the first that is not UTF-8.
    pub fn advance(&mut self, data: &Vec<u8>, delimiter: u8)
        requires
            old(self).wf(data@, delimiter),
            crate::records::is_delimiter(delimiter),
        ensures
            final(self).wf(data@, delimiter),
            old(self).done ==> *final(self) == *old(self),
            !old(self).done ==> final(self).done || final(self).rows == old(self).rows + 64,
            final(self).rows >= old(self).rows,
            final(self).offsets@.len() >= old(self).offsets@.len(),
    {
        if self.done {
            return;
        }
        let size: usize = data.len();
        let first = self.rows;
        let mut n: u64 = 0;
        let mut row: u64 = self.rows;
        let mut at: usize = self.bytes as usize;
        let ghost was = *self;
        let mut ahead = Ahead::new(STRIDE as usize);
        while n < STRIDE
            invariant
                was == *old(self),
                ahead.wf(data@, delimiter),
                crate::records::is_delimiter(delimiter),
                first == was.rows,
                n <= 64,
                row == first + n,
                size == data@.len(),
                starts_at(data@, delimiter, row as nat, at as int),
                was.wf(data@, delimiter),
                !was.done,
                self.done == was.done,
                self.rows == was.rows,
                self.bytes == was.bytes,
                self.malformed == was.malformed,
                n == 0 ==> self.offsets@ == was.offsets@,
                n > 0 ==> self.offsets@ == was.offsets@.push(
                    crate::records::offset(data@, delimiter, first as nat) as u64,
                ),
            decreases 64 - n,
        {
            match ahead.read(data, delimiter, at) {
                Ok(Some(record)) => {
                    if n == 0 {
                        self.offsets.push(at as u64);
                    }
                    proof {
                        let next = (row + 1) as nat;
                        assert(crate::records::readable(data@, delimiter, row as nat));
                        assert(crate::records::offset(data@, delimiter, next) == record.end);
                    }
                    n = n + 1;
                    row = row + 1;
                    at = record.end;
                },
                Ok(None) => {
                    self.rows = row;
                    self.bytes = size as u64;
                    self.done = true;
                    return;
                },
                Err((field, valid_up_to)) => {
                    let line = count_lines(data, at);
                    self.malformed = Some(
                        Malformed {
                            record: row,
                            line: line + 1,
                            field,
                            byte: at as u64,
                            valid_up_to,
                        },
                    );
                    self.done = true;
                    return;
                },
            }
        }
        self.rows = row;
        self.bytes = at as u64;
    }
}

} // verus!
