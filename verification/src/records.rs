//! CSV records inside the bytes of a source: reading one at an offset and writing one.
use vstd::prelude::*;
use vstd::slice::slice_subrange;

verus! {

/// The values of one record and the bytes it took, from the first byte looked at.
pub struct Parsed {
    pub fields: Vec<String>,
    pub used: usize,
}

/// A record that is not UTF-8.
#[derive(Clone, Copy, Debug, PartialEq, Eq, Structural)]
pub struct Malformed {
    /// Zero-based record.
    pub record: u64,
    /// One-based line on which the record starts.
    pub line: u64,
    pub field: usize,
    /// Where the record starts.
    pub byte: u64,
    /// Bytes of the field before the first that is not UTF-8.
    pub valid_up_to: usize,
}

/// A line feed or a carriage return.
pub open spec fn is_newline(b: u8) -> bool {
    b == 10 || b == 13
}

/// Nothing but line ends.
pub open spec fn all_newlines(bytes: Seq<u8>) -> bool {
    forall|i: int| 0 <= i < bytes.len() ==> is_newline(#[trigger] bytes[i])
}

/// A delimiter a source can be opened with: ASCII, and not a quote, CR, LF or NUL.
pub open spec fn is_delimiter(b: u8) -> bool {
    0 < b < 128 && b != 10 && b != 13 && b != 34
}

/// The first record of `bytes` as the `csv` crate reads it: its values and the bytes
/// read for it, nothing where no record is left, or the field that is not UTF-8 with the
/// count of its valid bytes.
pub uninterp spec fn csv_first(bytes: Seq<u8>, delimiter: u8) -> Result<
    Option<(Seq<Seq<char>>, nat)>,
    Option<(usize, usize)>,
>;

/// One record as the `csv` crate writes it, with its line feed.
pub uninterp spec fn csv_line(values: Seq<Seq<char>>, delimiter: u8) -> Seq<u8>;

/// What a reading of the first record holds.
pub open spec fn parsed_view(r: Result<Option<Parsed>, Option<(usize, usize)>>) -> Result<
    Option<(Seq<Seq<char>>, nat)>,
    Option<(usize, usize)>,
> {
    match r {
        Ok(Some(parsed)) => Ok(Some((crate::text::views(parsed.fields@), parsed.used as nat))),
        Ok(None) => Ok(None),
        Err(at) => Err(at),
    }
}

/// Three bytes of byte order mark at the start.
pub open spec fn has_mark(bytes: Seq<u8>) -> bool {
    bytes.len() >= 3 && bytes[0] == 0xef && bytes[1] == 0xbb && bytes[2] == 0xbf
}

/// How many line ends `bytes` starts with.
pub open spec fn newline_run(bytes: Seq<u8>) -> nat
    decreases bytes.len(),
{
    if bytes.len() > 0 && is_newline(bytes[0]) {
        1 + newline_run(bytes.skip(1))
    } else {
        0
    }
}

/// The line ends at the start are a run within the bytes.
pub proof fn newline_run_len(bytes: Seq<u8>)
    ensures
        newline_run(bytes) <= bytes.len(),
        forall|i: int| 0 <= i < newline_run(bytes) ==> is_newline(#[trigger] bytes[i]),
        newline_run(bytes) < bytes.len() ==> !is_newline(bytes[newline_run(bytes) as int]),
    decreases bytes.len(),
{
    if bytes.len() > 0 && is_newline(bytes[0]) {
        newline_run_len(bytes.skip(1));
        assert forall|i: int| 0 <= i < newline_run(bytes) implies is_newline(
            #[trigger] bytes[i],
        ) by {
            if i > 0 {
                assert(bytes[i] == bytes.skip(1)[i - 1]);
            }
        }
    }
}

/// What comes before the first record of `bytes`: a byte order mark and blank lines.
pub open spec fn opening(bytes: Seq<u8>) -> int {
    let mark = if has_mark(bytes) {
        3int
    } else {
        0
    };
    mark + newline_run(bytes.skip(mark))
}

/// What may come before the first record: a byte order mark and blank lines.
pub open spec fn is_lead(bytes: Seq<u8>) -> bool {
    opening(bytes) == bytes.len()
}

/// `content` is a record of `values` wherever it stands: after any lead, closed by any
/// line end and whatever follows, or at the end. The one exception is a byte order mark
/// that comes to stand at the very start.
pub open spec fn reads_as(content: Seq<u8>, delimiter: u8, values: Seq<Seq<char>>) -> bool {
    &&& forall|lead: Seq<u8>, end: u8, rest: Seq<u8>|
        is_lead(lead) && is_newline(end) && (lead.len() > 0 || !has_mark(content))
            ==> #[trigger] csv_first(lead + content + seq![end] + rest, delimiter) == Ok::<
            Option<(Seq<Seq<char>>, nat)>,
            Option<(usize, usize)>,
        >(Some((values, lead.len() + content.len() + 1)))
    &&& forall|lead: Seq<u8>|
        is_lead(lead) && (lead.len() > 0 || !has_mark(content)) ==> #[trigger] csv_first(
            lead + content,
            delimiter,
        ) == Ok::<Option<(Seq<Seq<char>>, nat)>, Option<(usize, usize)>>(
            Some((values, lead.len() + content.len())),
        )
}

/// The first record of `bytes` takes `used` of them, ends with a line end of one byte,
/// and is a record of the values wherever it stands.
pub open spec fn is_closed(
    bytes: Seq<u8>,
    delimiter: u8,
    used: int,
    values: Seq<Seq<char>>,
) -> bool {
    &&& opening(bytes) < used - 1
    &&& is_newline(bytes[used - 1])
    &&& !is_newline(bytes[used - 2])
    &&& reads_as(bytes.subrange(opening(bytes), used - 1), delimiter, values)
}

/// The first record of `bytes` has these values and takes `used` bytes. It has a value and
/// content past any byte order mark and blank lines, and where it stops before the last
/// byte it stops at a line end and its content is that record wherever it stands.
pub open spec fn first_is(
    bytes: Seq<u8>,
    delimiter: u8,
    values: Seq<Seq<char>>,
    used: int,
) -> bool {
    &&& csv_first(bytes, delimiter) == Ok::<
        Option<(Seq<Seq<char>>, nat)>,
        Option<(usize, usize)>,
    >(Some((values, used as nat)))
    &&& values.len() > 0
    &&& opening(bytes) < used <= bytes.len()
    &&& used < bytes.len() ==> is_closed(bytes, delimiter, used, values)
}

/// `csv::Reader::read_record` on a reader without headers and with records of any width.
/// The result depends on the bytes and the delimiter alone. A record has a value and
/// content past any byte order mark and blank lines, and lies within the bytes. One that
/// stops before the last byte stops at a line end, and its content is that record
/// wherever it stands. Byte order mark and blank lines alone are no record. Reading from
/// memory, only text that is not UTF-8 is an error.
#[verifier::external_body]
fn read_first(bytes: &[u8], delimiter: u8) -> (r: Result<Option<Parsed>, Option<(usize, usize)>>)
    requires
        is_delimiter(delimiter),
    ensures
        parsed_view(r) == csv_first(bytes@, delimiter),
        r matches Ok(Some(parsed)) ==> first_is(
            bytes@,
            delimiter,
            crate::text::views(parsed.fields@),
            parsed.used as int,
        ),
        is_lead(bytes@) ==> r matches Ok(None),
        r matches Err(at) ==> at is Some,
{
    let mut builder = csv::ReaderBuilder::new();
    builder.has_headers(false).flexible(true).delimiter(delimiter);
    let mut reader = builder.from_reader(bytes);
    let mut record = csv::StringRecord::new();
    let read = reader.read_record(&mut record).map_err(|error| match error.kind() {
        csv::ErrorKind::Utf8 { err, .. } => Some((err.field(), err.valid_up_to())),
        _ => None,
    })?;
    let used = reader.position().byte() as usize;
    let fields = record.iter().map(str::to_owned).collect();
    Ok(if read { Some(Parsed { fields, used }) } else { None })
}

/// `csv::Writer::write_record` of a single record. What it writes depends on the values
/// and the delimiter alone: a content that reads as a record of the values, and a line
/// feed. It starts with a byte order mark only where the first value does.
#[verifier::external_body]
pub(crate) fn write_line(values: &Vec<String>, delimiter: u8) -> (r: Vec<u8>)
    requires
        values@.len() > 0,
        is_delimiter(delimiter),
    ensures
        r@ == csv_line(crate::text::views(values@), delimiter),
        r@.len() > 1 && r@.last() == 10,
        has_mark(r@) ==> starts_with_mark(values@[0]@),
        reads_as(r@.drop_last(), delimiter, crate::text::views(values@)),
{
    let mut writer = csv::WriterBuilder::new().delimiter(delimiter).from_writer(Vec::new());
    writer.write_record(values).unwrap();
    writer.into_inner().unwrap()
}

/// Whether a value begins with the character that is also the byte order mark.
pub open spec fn starts_with_mark(value: Seq<char>) -> bool {
    value.len() > 0 && value[0] == '\u{feff}'
}

/// The record that starts at `start`, as a reader that began at the first byte finds it:
/// its values and where it ends. Only a byte order mark at the very start is skipped, so
/// a later record is read together with the line end before it.
pub open spec fn record_at(data: Seq<u8>, delimiter: u8, start: int) -> Result<
    Option<(Seq<Seq<char>>, int)>,
    Option<(usize, usize)>,
> {
    let from = if start <= 0 {
        0
    } else {
        start - 1
    };
    if start >= data.len() {
        Ok(None)
    } else {
        match csv_first(data.skip(from), delimiter) {
            Ok(Some((fields, used))) => Ok(Some((fields, from + used))),
            Ok(None) => Ok(None),
            Err(at) => Err(at),
        }
    }
}

/// Where record `row` starts, counting records from the first byte.
pub open spec fn offset(data: Seq<u8>, delimiter: u8, row: nat) -> int
    decreases row,
{
    if row == 0 {
        0
    } else {
        match record_at(data, delimiter, offset(data, delimiter, (row - 1) as nat)) {
            Ok(Some((_, end))) => end,
            _ => data.len() as int,
        }
    }
}

/// What is read at the place of record `row`.
pub open spec fn row_at(data: Seq<u8>, delimiter: u8, row: nat) -> Result<
    Option<(Seq<Seq<char>>, int)>,
    Option<(usize, usize)>,
> {
    record_at(data, delimiter, offset(data, delimiter, row))
}

/// Record `row` can be read.
pub open spec fn readable(data: Seq<u8>, delimiter: u8, row: nat) -> bool {
    row_at(data, delimiter, row) matches Ok(Some(_))
}

/// The first `rows` records can be read.
pub open spec fn has_rows(data: Seq<u8>, delimiter: u8, rows: nat) -> bool {
    forall|i: nat| i < rows ==> #[trigger] readable(data, delimiter, i)
}

/// The values of record `row`.
pub open spec fn row_of(data: Seq<u8>, delimiter: u8, row: nat) -> Seq<Seq<char>> {
    match row_at(data, delimiter, row) {
        Ok(Some((fields, _))) => fields,
        _ => Seq::empty(),
    }
}

/// An offset at which a record may start: the first byte, or after a line end.
pub open spec fn is_start(data: Seq<u8>, start: int) -> bool {
    0 <= start <= data.len() && (0 < start < data.len() ==> is_newline(data[start - 1]))
}

/// Where the content of the record that starts at `start` begins.
pub open spec fn content_start(data: Seq<u8>, start: int) -> int {
    if start <= 0 {
        opening(data)
    } else {
        start + newline_run(data.skip(start))
    }
}

/// The record from `start` up to `end` has content and, unless it is at the end of the
/// data, closes with a line end of one byte and is that record wherever it stands.
pub open spec fn is_settled(
    data: Seq<u8>,
    delimiter: u8,
    start: int,
    end: int,
    values: Seq<Seq<char>>,
) -> bool {
    let from = content_start(data, start);
    &&& start <= from < end
    &&& end < data.len() ==> {
        &&& from < end - 1
        &&& is_newline(data[end - 1])
        &&& !is_newline(data[end - 2])
        &&& reads_as(data.subrange(from, end - 1), delimiter, values)
    }
}

/// The number of line feeds.
pub open spec fn line_feeds(bytes: Seq<u8>) -> nat
    decreases bytes.len(),
{
    if bytes.len() == 0 {
        0
    } else {
        line_feeds(bytes.drop_last()) + if bytes.last() == 10 {
            1nat
        } else {
            0
        }
    }
}

/// A record of a source: its values and the bytes from `start` up to `end` that hold it,
/// with any blank lines before it.
#[derive(Debug)]
pub struct Record {
    pub fields: Vec<String>,
    pub start: usize,
    pub end: usize,
}

/// The record is the one that starts at its place.
pub open spec fn is_record(data: Seq<u8>, delimiter: u8, record: Record) -> bool {
    let values = crate::text::views(record.fields@);
    &&& record_at(data, delimiter, record.start as int) == Ok::<
        Option<(Seq<Seq<char>>, int)>,
        Option<(usize, usize)>,
    >(Some((values, record.end as int)))
    &&& record.start < record.end
    &&& record.fields@.len() > 0
    &&& is_start(data, record.end as int)
    &&& is_settled(data, delimiter, record.start as int, record.end as int, values)
}

/// What reading the record at a place gives.
pub open spec fn is_reading(
    data: Seq<u8>,
    delimiter: u8,
    start: usize,
    r: Result<Option<Record>, (usize, usize)>,
) -> bool {
    match r {
        Ok(Some(record)) => record.start == start && is_record(data, delimiter, record),
        Ok(None) => record_at(data, delimiter, start as int) == Ok::<
            Option<(Seq<Seq<char>>, int)>,
            Option<(usize, usize)>,
        >(None),
        Err(at) => record_at(data, delimiter, start as int) == Err::<
            Option<(Seq<Seq<char>>, int)>,
            Option<(usize, usize)>,
        >(Some(at)),
    }
}

/// Where a reader starts for the record at `start`: at the line end before it, if any.
pub open spec fn reader_start(start: int) -> int {
    if start <= 0 {
        0
    } else {
        start - 1
    }
}

/// The first record from the line end before `start` on is the record that starts there.
proof fn first_is_record(data: Seq<u8>, delimiter: u8, record: Record)
    requires
        is_start(data, record.start as int),
        record.start < data.len(),
        first_is(
            data.skip(reader_start(record.start as int)),
            delimiter,
            crate::text::views(record.fields@),
            record.end - reader_start(record.start as int),
        ),
    ensures
        is_record(data, delimiter, record),
{
    let start = record.start as int;
    let from = reader_start(start);
    let bytes = data.skip(from);
    let used = record.end - from;
    assert(crate::text::views(record.fields@).len() == record.fields@.len());
    if start > 0 {
        assert(is_newline(bytes[0]));
        assert(bytes.skip(0) =~= bytes);
        assert(bytes.skip(1) =~= data.skip(start));
        assert(opening(bytes) == 1 + newline_run(data.skip(start)));
    } else {
        assert(bytes =~= data);
        newline_run_len(
            data.skip(
                if has_mark(data) {
                    3
                } else {
                    0
                },
            ),
        );
    }
    if record.end < data.len() {
        assert(bytes.subrange(opening(bytes), used - 1) =~= data.subrange(
            content_start(data, start),
            record.end - 1,
        ));
    }
}

/// Whether bytes hold no record. Line ends alone hold none.
pub fn is_blank(bytes: &[u8], delimiter: u8) -> (r: bool)
    requires
        is_delimiter(delimiter),
    ensures
        r == (csv_first(bytes@, delimiter) == Ok::<
            Option<(Seq<Seq<char>>, nat)>,
            Option<(usize, usize)>,
        >(None)),
        is_lead(bytes@) ==> r,
{
    match read_first(bytes, delimiter) {
        Ok(None) => true,
        _ => false,
    }
}

/// Read the record that starts at `start`.
pub fn read_record(data: &Vec<u8>, delimiter: u8, start: usize) -> (r: Result<
    Option<Record>,
    (usize, usize),
>)
    requires
        is_delimiter(delimiter),
        is_start(data@, start as int),
    ensures
        is_reading(data@, delimiter, start, r),
{
    if start >= data.len() {
        return Ok(None);
    }
    let from: usize = if start == 0 {
        0
    } else {
        start - 1
    };
    let bytes = slice_subrange(data.as_slice(), from, data.len());
    assert(bytes@ =~= data@.skip(from as int));
    match read_first(bytes, delimiter) {
        Ok(Some(parsed)) => {
            let record = Record { fields: parsed.fields, start, end: from + parsed.used };
            proof {
                first_is_record(data@, delimiter, record);
            }
            Ok(Some(record))
        },
        Ok(None) => Ok(None),
        Err(Some(at)) => Err(at),
        Err(None) => Err((0, 0)),
    }
}

/// Records that were read one after another: the values of each and where it starts, and
/// where the reader stands after the last.
pub struct Run {
    pub records: Vec<(Vec<String>, usize)>,
    pub end: usize,
}

/// It is known where record `i` of the run ends: where the next starts, or where the
/// reader stands after as many records as it was asked for.
pub open spec fn end_is_known(run: Run, i: int, count: usize) -> bool {
    0 <= i < run.records@.len() && (i + 1 < run.records@.len() || run.records@.len() == count)
}

/// Where record `i` of the run ends.
pub open spec fn run_end(run: Run, i: int) -> int {
    if i + 1 < run.records@.len() {
        run.records@[i + 1].1 as int
    } else {
        run.end as int
    }
}

/// Each record of the run whose end is known is what a reader that starts at the line end
/// before it reads first.
pub open spec fn run_reads(bytes: Seq<u8>, delimiter: u8, run: Run, count: usize) -> bool {
    forall|i: int|
        #![trigger run.records@[i]]
        end_is_known(run, i, count) ==> {
            let from = if i == 0 {
                0
            } else {
                run.records@[i].1 - 1
            };
            first_is(
                bytes.skip(from),
                delimiter,
                crate::text::views(run.records@[i].0@),
                run_end(run, i) - from,
            )
        }
}

/// `csv::Reader::records` up to so many records or the first that is not UTF-8, with the
/// `position` of each. A record starts where the one before it ends, and reads as it does
/// for a reader that starts at the line end before it. How many come is left open.
#[verifier::external_body]
fn read_run(bytes: &[u8], delimiter: u8, count: usize) -> (r: Run)
    requires
        is_delimiter(delimiter),
    ensures
        run_reads(bytes@, delimiter, r, count),
{
    let mut builder = csv::ReaderBuilder::new();
    builder.has_headers(false).flexible(true).delimiter(delimiter);
    let mut reader = builder.from_reader(bytes);
    let convert = |record: csv::StringRecord| {
        let start: usize = record.position().map_or(0, |place| place.byte() as usize);
        (record.iter().map(str::to_owned).collect(), start)
    };
    let records = reader.records().take(count).map_while(Result::ok).map(convert).collect();
    let end: usize = reader.position().byte() as usize;
    Run { records, end }
}

/// Records read ahead, the next one last.
#[derive(Debug)]
pub struct Ahead {
    pub records: Vec<Record>,
    /// How many to read at a time.
    pub count: usize,
}

impl Ahead {
    /// The records are those of the data.
    pub open spec fn wf(self, data: Seq<u8>, delimiter: u8) -> bool {
        forall|i: int|
            0 <= i < self.records@.len() ==> is_record(
                data,
                delimiter,
                #[trigger] self.records@[i],
            )
    }

    /// The next record that was read ahead starts at `start`.
    pub open spec fn is_next(self, start: usize) -> bool {
        self.records@.len() > 0 && self.records@.last().start == start
    }

    /// Nothing is read yet.
    pub fn new(count: usize) -> (r: Self)
        ensures
            r.records@.len() == 0,
            r.count == count,
            forall|data: Seq<u8>, delimiter: u8| #[trigger] r.wf(data, delimiter),
    {
        Self { records: Vec::new(), count }
    }

    fn refill(&mut self, data: &Vec<u8>, delimiter: u8, start: usize)
        requires
            is_delimiter(delimiter),
            is_start(data@, start as int),
            start < data@.len(),
        ensures
            final(self).wf(data@, delimiter),
            final(self).count == old(self).count,
    {
        let size: usize = data.len();
        let from: usize = if start == 0 {
            0
        } else {
            start - 1
        };
        let bytes = slice_subrange(data.as_slice(), from, size);
        assert(bytes@ =~= data@.skip(from as int));
        let mut run = read_run(bytes, delimiter, self.count);
        let ghost whole = run;
        let mut known: Vec<Record> = Vec::new();
        let mut end: usize = run.end;
        if run.records.len() != self.count {
            if let Some((_, place)) = run.records.pop() {
                end = place;
            }
        }
        while run.records.len() > 0
            invariant
                size == data@.len(),
                is_delimiter(delimiter),
                is_start(data@, start as int),
                start < size,
                from == reader_start(start as int),
                bytes@ == data@.skip(from as int),
                run_reads(bytes@, delimiter, whole, self.count),
                run.records@.len() <= whole.records@.len(),
                forall|i: int|
                    0 <= i < run.records@.len() ==> #[trigger] run.records@[i]
                        == whole.records@[i] && end_is_known(whole, i, self.count),
                run.records@.len() > 0 ==> end == run_end(whole, run.records@.len() - 1),
                forall|i: int|
                    0 <= i < known@.len() ==> is_record(data@, delimiter, #[trigger] known@[i]),
            decreases run.records@.len(),
        {
            let ghost i = run.records@.len() - 1;
            assert(run.records@[i] == whole.records@[i]);
            if let Some((fields, place)) = run.records.pop() {
                let left: usize = run.records.len();
                let first = left == 0;
                let follows = left < 2 || run.records[left - 1].1 > 0;
                if first || 0 < place && place < size - from && follows {
                    let begins: usize = if first {
                        start
                    } else {
                        from + place
                    };
                    proof {
                        let at = if i == 0 {
                            0
                        } else {
                            place - 1
                        };
                        assert(bytes@.skip(at) =~= data@.skip(reader_start(begins as int)));
                        assert(first_is(
                            bytes@.skip(at),
                            delimiter,
                            crate::text::views(fields@),
                            end - at,
                        ));
                        if i > 0 {
                            let before = whole.records@[i - 1];
                            assert(run.records@[i - 1] == before);
                            let back = if i - 1 == 0 {
                                0
                            } else {
                                before.1 - 1
                            };
                            let b = bytes@.skip(back);
                            assert(first_is(
                                b,
                                delimiter,
                                crate::text::views(before.0@),
                                place - back,
                            ));
                            assert(b[place - back - 1] == data@[begins - 1]);
                        }
                    }
                    if end > 0 && end <= size - from {
                        let record = Record { fields, start: begins, end: from + end };
                        proof {
                            first_is_record(data@, delimiter, record);
                        }
                        known.push(record);
                    }
                }
                end = place;
            }
        }
        self.records = known;
    }

    /// Read the record that starts at `start`, which is quick where it is the next.
    pub fn read(&mut self, data: &Vec<u8>, delimiter: u8, start: usize) -> (r: Result<
        Option<Record>,
        (usize, usize),
    >)
        requires
            old(self).wf(data@, delimiter),
            is_delimiter(delimiter),
            is_start(data@, start as int),
        ensures
            final(self).wf(data@, delimiter),
            final(self).count == old(self).count,
            is_reading(data@, delimiter, start, r),
    {
        if start >= data.len() {
            return Ok(None);
        }
        if let Some(record) = self.next(Ghost(data@), Ghost(delimiter), start) {
            return Ok(Some(record));
        }
        self.refill(data, delimiter, start);
        match self.next(Ghost(data@), Ghost(delimiter), start) {
            Some(record) => Ok(Some(record)),
            None => read_record(data, delimiter, start),
        }
    }

    /// Take the next record that was read ahead, where it is the one that starts at `start`.
    fn next(
        &mut self,
        Ghost(data): Ghost<Seq<u8>>,
        Ghost(delimiter): Ghost<u8>,
        start: usize,
    ) -> (r: Option<Record>)
        requires
            old(self).wf(data, delimiter),
        ensures
            final(self).wf(data, delimiter),
            final(self).count == old(self).count,
            match r {
                Some(record) => {
                    &&& old(self).is_next(start)
                    &&& record == old(self).records@.last()
                    &&& final(self).records@ == old(self).records@.drop_last()
                    &&& is_record(data, delimiter, record)
                },
                None => !old(self).is_next(start) && final(self).records@ == old(self).records@,
            },
    {
        let n: usize = self.records.len();
        if n > 0 && self.records[n - 1].start == start {
            assert(is_record(data, delimiter, self.records@[n - 1]));
            self.records.pop()
        } else {
            None
        }
    }
}

/// Count the line feeds before `end`.
pub fn count_lines(data: &Vec<u8>, end: usize) -> (r: u64)
    requires
        end <= data@.len(),
    ensures
        r == line_feeds(data@.take(end as int)),
        r <= end,
{
    let mut count: u64 = 0;
    let mut i: usize = 0;
    while i < end
        invariant
            i <= end <= data@.len(),
            count == line_feeds(data@.take(i as int)),
            count <= i,
        decreases end - i,
    {
        assert(data@.take(i + 1).drop_last() =~= data@.take(i as int));
        if data[i] == 10 {
            count = count + 1;
        }
        i = i + 1;
    }
    count
}

} // verus!
