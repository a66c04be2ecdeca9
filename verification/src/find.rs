//! Searching the cells of a view, page by page.
use crate::a1::{distinct, Address};
use crate::cells::before;
use crate::error::Error;
use crate::index::STRIDE;
use crate::records::{count_lines, read_record, Ahead, Malformed};
use crate::sheet::Sheet;
use crate::text::{chars, contains, fold, found_at, string};
use vstd::prelude::*;

verus! {

/// What to search for.
#[derive(Clone, Debug, Default, PartialEq, Eq)]
pub struct FindQuery {
    pub text: String,
    /// Zero-based columns to search; `None` searches every stored or edited cell.
    pub columns: Option<Vec<usize>>,
    pub exact: bool,
    pub ignore_case: bool,
}

/// The matches of one page of a search.
#[derive(Clone, Debug, Default, PartialEq, Eq)]
pub struct FindResult {
    /// `(row, column)` in view coordinates, and the value shown there.
    pub matches: Vec<(Address, String)>,
    /// Where the next page starts; `None` when the scan reached the end of the view.
    pub next: Option<Address>,
    /// Records read from `from`'s row onwards, including partially searched ones.
    pub records_scanned: u64,
}

/// What a value is held against. With `ignore_case` the text is in lower case.
pub struct Matcher {
    pub text: String,
    pub columns: Option<Vec<usize>>,
    pub exact: bool,
    pub ignore_case: bool,
}

/// The text is the whole value, or occurs in it.
pub open spec fn text_matches(value: Seq<char>, text: Seq<char>, exact: bool) -> bool {
    if exact {
        value == text
    } else {
        crate::text::occurs(value, text)
    }
}

/// The column is searched.
pub open spec fn column_searched(columns: Option<Vec<usize>>, col: usize) -> bool {
    columns matches Some(list) ==> list@.contains(col)
}

impl FindQuery {
    /// The value matches, ignoring case where that is asked for.
    pub open spec fn value_matches(self, value: Seq<char>) -> bool {
        if self.ignore_case {
            text_matches(crate::text::folded(value), crate::text::folded(self.text@), self.exact)
        } else {
            text_matches(value, self.text@, self.exact)
        }
    }
}

impl Matcher {
    /// Whether a value matches.
    pub fn matches(&self, value: &str) -> (r: bool)
        ensures
            r == text_matches(
                if self.ignore_case {
                    crate::text::folded(value@)
                } else {
                    value@
                },
                self.text@,
                self.exact,
            ),
    {
        let all = if self.ignore_case {
            fold(value)
        } else {
            chars(value)
        };
        let text = chars(self.text.as_str());
        if self.exact {
            let r = all.len() == text.len() && found_at(&all, &text, 0);
            assert(all@.len() == text@.len() ==> all@.subrange(0, text@.len() as int) =~= all@);
            r
        } else {
            contains(&all, &text)
        }
    }

    /// The matcher does what the query asks.
    pub open spec fn serves(self, query: FindQuery) -> bool {
        &&& self.text@ == if query.ignore_case {
            crate::text::folded(query.text@)
        } else {
            query.text@
        }
        &&& self.exact == query.exact
        &&& self.ignore_case == query.ignore_case
        &&& self.columns is Some == query.columns is Some
        &&& (self.columns matches Some(list) ==> crate::a1::ascending(list@))
        &&& forall|c: usize|
            column_searched(self.columns, c) <==> #[trigger] column_searched(query.columns, c)
    }

    fn of(query: &FindQuery) -> (r: Self)
        ensures
            r.serves(*query),
    {
        let text = if query.ignore_case {
            let lower = fold(query.text.as_str());
            let text = string(&lower, 0, lower.len());
            assert(text@ =~= lower@);
            text
        } else {
            query.text.clone()
        };
        let columns = match &query.columns {
            Some(list) => Some(distinct(list)),
            None => None,
        };
        let r = Matcher { text, columns, exact: query.exact, ignore_case: query.ignore_case };
        proof {
            assert forall|c: usize|
                column_searched(r.columns, c) <==> #[trigger] column_searched(query.columns, c) by {
                if let Some(list) = r.columns {
                    assert(list@.contains(c) <==> query.columns->0@.contains(c));
                }
            }
        }
        r
    }
}

impl FindResult {
    /// Every cell of the page, and the one to go on from, has a row that can be named.
    pub open spec fn is_named(self) -> bool {
        &&& forall|i: int|
            0 <= i < self.matches@.len() ==> (#[trigger] self.matches@[i]).0.0 < u64::MAX
        &&& (self.next matches Some(at) ==> at.0 < u64::MAX)
    }
}

/// The place before which a search has looked: all of the rows before `row`, and the
/// columns before `col` of that row.
pub open spec fn is_past(at: Address, row: int, col: int) -> bool {
    at.0 < row || at.0 == row && at.1 < col
}

/// Where to start reading for `row`: the nearest published stride at or before it,
/// else byte 0. Offsets are only published once their record has been read.
pub fn start(offsets: &[u64], row: u64) -> (r: (u64, u64))
    requires
        (offsets@.len() - 1) * 64 <= u64::MAX,
    ensures
        offsets@.len() == 0 ==> r == (0u64, 0u64),
        offsets@.len() > 0 ==> ({
            let stride = if row / 64 < offsets@.len() {
                (row / 64) as int
            } else {
                offsets@.len() - 1
            };
            r == (offsets@[stride], (stride * 64) as u64)
        }),
{
    if offsets.len() == 0 {
        return (0, 0);
    }
    let last: usize = offsets.len() - 1;
    let stride: usize = if row / STRIDE <= last as u64 {
        (row / STRIDE) as usize
    } else {
        last
    };
    (offsets[stride], stride as u64 * STRIDE)
}

impl Sheet {
    /// The view has this row.
    pub open spec fn has_row(self, row: int) -> bool {
        match self.order {
            Some(order) => 0 <= row < order.rows@.len(),
            None => 0 <= row && crate::records::has_rows(
                self.data@,
                self.delimiter,
                (row + 1) as nat,
            ),
        }
    }

    /// The view has this many rows and no more.
    pub open spec fn has_length(self, rows: int) -> bool {
        match self.order {
            Some(order) => rows == order.rows@.len(),
            None => 0 <= rows && crate::index::has_exactly(
                self.data@,
                self.delimiter,
                rows as nat,
            ),
        }
    }

    /// The text that the view shows in a cell.
    pub open spec fn shown(self, at: Address) -> Option<Seq<char>> {
        self.current(self.source_of(at.0 as int), at.1)
    }

    /// A cell that a search finds.
    pub open spec fn hit(self, query: FindQuery, at: Address) -> bool {
        &&& self.has_row(at.0 as int)
        &&& column_searched(query.columns, at.1)
        &&& self.shown(at) is Some
        &&& query.value_matches(self.shown(at)->0)
    }

    /// The list holds what a search finds from `from` on and before `row`, `col`, in order.
    pub open spec fn collected(
        self,
        query: FindQuery,
        from: Address,
        list: Seq<(Address, String)>,
        row: int,
        col: int,
    ) -> bool {
        &&& forall|i: int|
            0 <= i < list.len() ==> {
                let at = (#[trigger] list[i]).0;
                &&& self.hit(query, at)
                &&& !before(at, from)
                &&& is_past(at, row, col)
                &&& self.shown(at) == Some(list[i].1@)
            }
        &&& forall|i: int, j: int|
            0 <= i < j < list.len() ==> before((#[trigger] list[i]).0, (#[trigger] list[j]).0)
        &&& forall|at: Address| #[trigger]
            self.hit(query, at) && !before(at, from) && is_past(at, row, col)
                ==> crate::cells::holds(list, at)
    }

    /// What a search from `from` gives: the first `limit` cells it finds, in order. A full
    /// page says where the next starts, past its last cell; one that is not full has
    /// everything up to the end of the view.
    pub open spec fn is_page(
        self,
        query: FindQuery,
        from: Address,
        limit: usize,
        page: FindResult,
    ) -> bool {
        let list = page.matches@;
        match page.next {
            Some(next) => {
                &&& list.len() == limit > 0
                &&& next.0 == list.last().0.0
                &&& next.1 == list.last().0.1 + 1
                &&& self.collected(query, from, list, next.0 as int, next.1 as int)
                &&& page.records_scanned == next.0 - from.0 + 1
            },
            None => {
                &&& list.len() < limit
                &&& exists|rows: int|
                    {
                        &&& #[trigger] self.has_length(rows)
                        &&& self.collected(query, from, list, rows, 0)
                        &&& page.records_scanned == if rows > from.0 {
                            rows - from.0
                        } else {
                            0
                        }
                    }
            },
        }
    }

    /// The search comes to a record that is not UTF-8 before its page is full.
    pub open spec fn search_fails(
        self,
        query: FindQuery,
        from: Address,
        limit: usize,
        m: Malformed,
    ) -> bool {
        &&& self.order is None
        &&& crate::index::is_malformed(self.data@, self.delimiter, m)
        &&& exists|list: Seq<(Address, String)>|
            #[trigger] self.collected(query, from, list, m.record as int, 0) && list.len() < limit
    }

    /// The fields of a view row, and the cells that have an edit only.
    pub open spec fn has_record(self, row: int, source: int, fields: Seq<Seq<char>>) -> bool {
        self.has_row(row) && self.source_of(row) == source && self.row(source) == fields
    }

    /// Look at one cell; true once `limit` matches are held.
    fn search_cell(
        &self,
        matcher: &Matcher,
        Ghost(query): Ghost<FindQuery>,
        from: Address,
        at: Address,
        fields: &Vec<String>,
        source: u64,
        limit: usize,
        result: &mut FindResult,
    ) -> (r: bool)
        requires
            self.wf(),
            matcher.serves(query),
            self.has_record(at.0 as int, source as int, crate::text::views(fields@)),
            self.collected(query, from, old(result).matches@, at.0 as int, at.1 as int),
            column_searched(query.columns, at.1),
            !before(at, from),
            at.1 < usize::MAX,
            old(result).matches@.len() < limit,
            old(result).next is None,
        ensures
            self.collected(query, from, final(result).matches@, at.0 as int, at.1 + 1),
            final(result).records_scanned == old(result).records_scanned,
            !r ==> final(result).matches@.len() < limit && final(result).next is None,
            r ==> {
                &&& final(result).matches@.len() == limit
                &&& final(result).next == Some((at.0, (at.1 + 1) as usize))
                &&& final(result).matches@.last().0 == at
            },
    {
        let ghost list = result.matches@;
        let value: Option<&str> = match self.edits.get((source, at.1)) {
            Some(text) => Some(text.as_str()),
            None => if at.1 < fields.len() {
                Some(fields[at.1].as_str())
            } else {
                None
            },
        };
        proof {
            assert(match value {
                Some(text) => self.shown(at) == Some(text@),
                None => self.shown(at) is None,
            });
            assert forall|b: Address| is_past(b, at.0 as int, at.1 + 1) implies is_past(
                b,
                at.0 as int,
                at.1 as int,
            ) || b == at by {}
        }
        if let Some(text) = value {
            if matcher.matches(text) {
                assert(self.hit(query, at));
                result.matches.push((at, text.to_owned()));
                let ghost longer = result.matches@;
                proof {
                    assert(longer.last().0 == at);
                    assert forall|b: Address| #[trigger]
                        self.hit(query, b) && !before(b, from) && is_past(
                            b,
                            at.0 as int,
                            at.1 + 1,
                        ) implies crate::cells::holds(longer, b) by {
                        if b == at {
                            assert(longer[list.len() as int].0 == b);
                        } else {
                            assert(crate::cells::holds(list, b));
                            let i = crate::cells::place(list, b);
                            assert(list[i].0 == b);
                            assert(longer[i].0 == b);
                        }
                    }
                    assert forall|i: int| 0 <= i < longer.len() implies {
                        let b = (#[trigger] longer[i]).0;
                        &&& self.hit(query, b)
                        &&& !before(b, from)
                        &&& is_past(b, at.0 as int, at.1 + 1)
                        &&& self.shown(b) == Some(longer[i].1@)
                    } by {
                        if i < list.len() {
                            assert(longer[i] == list[i]);
                        }
                    }
                    assert forall|i: int, j: int| 0 <= i < j < longer.len() implies before(
                        (#[trigger] longer[i]).0,
                        (#[trigger] longer[j]).0,
                    ) by {
                        assert(longer[i] == list[i]);
                        if j < list.len() {
                            assert(longer[j] == list[j]);
                        } else {
                            assert(is_past(list[i].0, at.0 as int, at.1 as int));
                        }
                    }
                }
                if result.matches.len() == limit {
                    result.next = Some((at.0, at.1 + 1));
                    return true;
                }
            }
        }
        false
    }

    /// Nothing is found between two places of a row: what is collected up to the first is
    /// collected up to the second.
    proof fn skip_columns(
        self,
        query: FindQuery,
        from: Address,
        list: Seq<(Address, String)>,
        row: int,
        col: int,
        next_row: int,
        next_col: int,
    )
        requires
            self.collected(query, from, list, row, col),
            row < next_row || row == next_row && col <= next_col,
            forall|at: Address| #[trigger]
                self.hit(query, at) && !before(at, from) && is_past(at, next_row, next_col)
                    ==> is_past(at, row, col),
        ensures
            self.collected(query, from, list, next_row, next_col),
    {
        assert forall|i: int| 0 <= i < list.len() implies {
            let at = (#[trigger] list[i]).0;
            &&& self.hit(query, at)
            &&& !before(at, from)
            &&& is_past(at, next_row, next_col)
            &&& self.shown(at) == Some(list[i].1@)
        } by {
            assert(is_past(list[i].0, row, col));
        }
    }

    /// Search one record; true once `limit` matches are held.
    fn search(
        &self,
        matcher: &Matcher,
        Ghost(query): Ghost<FindQuery>,
        from: Address,
        row: u64,
        source: u64,
        fields: &Vec<String>,
        limit: usize,
        result: &mut FindResult,
    ) -> (r: bool)
        requires
            self.wf(),
            matcher.serves(query),
            self.has_record(row as int, source as int, crate::text::views(fields@)),
            self.collected(query, from, old(result).matches@, row as int, 0),
            row >= from.0,
            old(result).matches@.len() < limit,
            old(result).next is None,
            old(result).records_scanned < u64::MAX,
        ensures
            final(result).records_scanned == old(result).records_scanned + 1,
            !r ==> {
                &&& self.collected(query, from, final(result).matches@, row + 1, 0)
                &&& final(result).matches@.len() < limit
                &&& final(result).next is None
            },
            r ==> {
                let list = final(result).matches@;
                &&& list.len() == limit
                &&& final(result).next matches Some(next) && {
                    &&& next.0 == row == list.last().0.0
                    &&& next.1 == list.last().0.1 + 1
                    &&& self.collected(query, from, list, next.0 as int, next.1 as int)
                }
            },
    {
        result.records_scanned = result.records_scanned + 1;
        let ghost scanned = result.records_scanned;
        let width: usize = fields.len();
        let first: usize = if row == from.0 {
            from.1
        } else {
            0
        };
        proof {
            self.skip_columns(
                query,
                from,
                result.matches@,
                row as int,
                0,
                row as int,
                first as int,
            );
        }
        match &matcher.columns {
            Some(columns) => {
                let mut i: usize = 0;
                let ghost mut done: int = first as int;
                while i < columns.len()
                    invariant
                        self.wf(),
                        matcher.serves(query),
                        matcher.columns == Some(*columns),
                        self.has_record(row as int, source as int, crate::text::views(fields@)),
                        self.collected(query, from, result.matches@, row as int, done),
                        first <= done,
                        row >= from.0,
                        row == from.0 ==> first == from.1,
                        row != from.0 ==> first == 0,
                        i <= columns@.len(),
                        width == fields@.len(),
                        forall|k: int| i <= k < columns@.len() ==> done <= #[trigger] columns@[k]
                            || columns@[k] < first,
                        forall|k: int|
                            0 <= k < i ==> #[trigger] columns@[k] < done || columns@[k] < first,
                        result.matches@.len() < limit,
                        result.next is None,
                        result.records_scanned == scanned == old(result).records_scanned + 1,
                    decreases columns@.len() - i,
                {
                    let col = columns[i];
                    if col >= first {
                        assert(columns@.contains(col));
                        assert(column_searched(query.columns, col));
                        if col < usize::MAX {
                            proof {
                                assert forall|at: Address| #[trigger]
                                    self.hit(query, at) && !before(at, from) && is_past(
                                        at,
                                        row as int,
                                        col as int,
                                    ) implies is_past(at, row as int, done) by {
                                    if at.0 == row && at.1 >= done {
                                        assert(column_searched(query.columns, at.1));
                                        assert(columns@.contains(at.1));
                                        let k = choose|k: int|
                                            0 <= k < columns@.len() && columns@[k] == at.1;
                                        if k > i {
                                            assert(columns@[i as int] < columns@[k]);
                                        }
                                    }
                                }
                                self.skip_columns(
                                    query,
                                    from,
                                    result.matches@,
                                    row as int,
                                    done,
                                    row as int,
                                    col as int,
                                );
                            }
                            if self.search_cell(
                                matcher,
                                Ghost(query),
                                from,
                                (row, col),
                                fields,
                                source,
                                limit,
                                result,
                            ) {
                                return true;
                            }
                            proof {
                                done = col + 1;
                                assert forall|k: int| i + 1 <= k < columns@.len() implies done
                                    <= #[trigger] columns@[k] || columns@[k] < first by {
                                    assert(columns@[i as int] < columns@[k]);
                                }
                            }
                        } else {
                            proof {
                                self.nothing_in_last_column(row, source, fields@);
                                assert forall|k: int| i + 1 <= k < columns@.len() implies done
                                    <= #[trigger] columns@[k] || columns@[k] < first by {
                                    assert(columns@[i as int] < columns@[k]);
                                }
                                assert forall|at: Address| #[trigger]
                                    self.hit(query, at) && !before(at, from) && is_past(
                                        at,
                                        row as int,
                                        usize::MAX + 1,
                                    ) implies is_past(at, row as int, done) by {
                                    if at.0 == row && at.1 >= done {
                                        assert(column_searched(query.columns, at.1));
                                        assert(columns@.contains(at.1));
                                        let k = choose|k: int|
                                            0 <= k < columns@.len() && columns@[k] == at.1;
                                    }
                                }
                                self.skip_columns(
                                    query,
                                    from,
                                    result.matches@,
                                    row as int,
                                    done,
                                    row as int,
                                    usize::MAX + 1,
                                );
                                done = usize::MAX + 1;
                            }
                        }
                    }
                    i = i + 1;
                }
                proof {
                    assert forall|at: Address| #[trigger]
                        self.hit(query, at) && !before(at, from) && is_past(
                            at,
                            row + 1,
                            0,
                        ) implies is_past(at, row as int, done) by {
                        if at.0 == row && at.1 >= done {
                            assert(column_searched(query.columns, at.1));
                            assert(columns@.contains(at.1));
                            let k = choose|k: int| 0 <= k < columns@.len() && columns@[k] == at.1;
                        }
                    }
                    self.skip_columns(
                        query,
                        from,
                        result.matches@,
                        row as int,
                        done,
                        row + 1,
                        0,
                    );
                }
                false
            },
            None => {
                let mut col: usize = first;
                while col < width
                    invariant
                        self.wf(),
                        matcher.serves(query),
                        query.columns is None,
                        self.has_record(row as int, source as int, crate::text::views(fields@)),
                        self.collected(query, from, result.matches@, row as int, col as int),
                        row >= from.0,
                        row == from.0 ==> first == from.1,
                        row != from.0 ==> first == 0,
                        first <= col,
                        width == fields@.len(),
                        col <= width || col == first,
                        result.matches@.len() < limit,
                        result.next is None,
                        result.records_scanned == scanned == old(result).records_scanned + 1,
                    decreases width - col,
                {
                    assert(column_searched(query.columns, col));
                    if self.search_cell(
                        matcher,
                        Ghost(query),
                        from,
                        (row, col),
                        fields,
                        source,
                        limit,
                        result,
                    ) {
                        return true;
                    }
                    col = col + 1;
                }
                let mut i: usize = self.edits.seek((source, col));
                let ghost mut done: int = col as int;
                while i < self.edits.entries.len() && self.edits.entries[i].0.0 == source
                    invariant
                        self.wf(),
                        matcher.serves(query),
                        query.columns is None,
                        self.has_record(row as int, source as int, crate::text::views(fields@)),
                        self.collected(query, from, result.matches@, row as int, done),
                        row >= from.0,
                        row == from.0 ==> first == from.1,
                        row != from.0 ==> first == 0,
                        first <= col <= done,
                        fields@.len() <= col,
                        i <= self.edits.entries@.len(),
                        forall|k: int|
                            0 <= k < i ==> {
                                let at = (#[trigger] self.edits.entries@[k]).0;
                                at.0 < source || at.0 == source && at.1 < done
                            },
                        forall|k: int|
                            i <= k < self.edits.entries@.len() ==> {
                                let at = (#[trigger] self.edits.entries@[k]).0;
                                at.0 > source || at.0 == source && at.1 >= done
                            },
                        result.matches@.len() < limit,
                        result.next is None,
                        result.records_scanned == scanned == old(result).records_scanned + 1,
                    decreases self.edits.entries@.len() - i,
                {
                    let at = self.edits.entries[i].0;
                    proof {
                        self.edits.entry_is_held(i as int);
                        self.no_hits_between_edits(
                            query,
                            row,
                            source,
                            fields@,
                            i as int,
                            done,
                            at.1 as int,
                        );
                        self.skip_columns(
                            query,
                            from,
                            result.matches@,
                            row as int,
                            done,
                            row as int,
                            at.1 as int,
                        );
                    }
                    assert(column_searched(query.columns, at.1));
                    if self.search_cell(
                        matcher,
                        Ghost(query),
                        from,
                        (row, at.1),
                        fields,
                        source,
                        limit,
                        result,
                    ) {
                        return true;
                    }
                    proof {
                        done = at.1 + 1;
                        assert forall|k: int| i + 1 <= k < self.edits.entries@.len() implies {
                            let b = (#[trigger] self.edits.entries@[k]).0;
                            b.0 > source || b.0 == source && b.1 >= done
                        } by {
                            assert(before(
                                self.edits.entries@[i as int].0,
                                self.edits.entries@[k].0,
                            ));
                        }
                    }
                    i = i + 1;
                }
                proof {
                    assert forall|at: Address| #[trigger]
                        self.hit(query, at) && !before(at, from) && is_past(
                            at,
                            row + 1,
                            0,
                        ) implies is_past(at, row as int, done) by {
                        if at.0 == row && at.1 >= done {
                            self.only_edits_past_fields(row, source, fields@, at.1);
                            let k = crate::cells::place(self.edits.entries@, (source, at.1));
                            assert(self.edits.entries@[k].0 == (source, at.1));
                            if k > i {
                                assert(before(
                                    self.edits.entries@[i as int].0,
                                    self.edits.entries@[k].0,
                                ));
                            }
                        }
                    }
                    self.skip_columns(
                        query,
                        from,
                        result.matches@,
                        row as int,
                        done,
                        row + 1,
                        0,
                    );
                }
                false
            },
        }
    }

    /// Past its fields, a record shows edits only.
    proof fn only_edits_past_fields(self, row: u64, source: u64, fields: Seq<String>, col: usize)
        requires
            self.has_record(row as int, source as int, crate::text::views(fields)),
            col >= fields.len(),
            self.shown((row, col)) is Some,
        ensures
            self.edits@.contains_key((source, col)),
            crate::cells::holds(self.edits.entries@, (source, col)),
    {
    }

    /// No cell has the last column number.
    proof fn nothing_in_last_column(self, row: u64, source: u64, fields: Seq<String>)
        requires
            self.wf(),
            self.has_record(row as int, source as int, crate::text::views(fields)),
            fields.len() <= usize::MAX,
        ensures
            self.shown((row, usize::MAX)) is None,
    {
        if self.edits@.contains_key((source, usize::MAX)) {
            assert(false);
        }
    }

    /// Past the fields of a record, nothing is shown before the next edit.
    proof fn no_hits_between_edits(
        self,
        query: FindQuery,
        row: u64,
        source: u64,
        fields: Seq<String>,
        i: int,
        done: int,
        next: int,
    )
        requires
            self.wf(),
            self.has_record(row as int, source as int, crate::text::views(fields)),
            fields.len() <= done,
            0 <= i < self.edits.entries@.len(),
            self.edits.entries@[i].0 == (source, next as usize),
            0 <= next <= usize::MAX,
            forall|k: int|
                0 <= k < i ==> {
                    let at = (#[trigger] self.edits.entries@[k]).0;
                    at.0 < source || at.0 == source && at.1 < done
                },
        ensures
            forall|at: Address| #[trigger]
                self.hit(query, at) && is_past(at, row as int, next) ==> is_past(
                    at,
                    row as int,
                    done,
                ),
    {
        assert forall|at: Address| #[trigger]
            self.hit(query, at) && is_past(at, row as int, next) implies is_past(
            at,
            row as int,
            done,
        ) by {
            if at.0 == row && at.1 >= done {
                self.only_edits_past_fields(row, source, fields, at.1);
                let k = crate::cells::place(self.edits.entries@, (source, at.1));
                assert(self.edits.entries@[k].0 == (source, at.1));
                if k > i {
                    assert(before(self.edits.entries@[i].0, self.edits.entries@[k].0));
                }
            }
        }
    }

    /// Nothing is found before the row a search starts in.
    proof fn starts_empty(self, query: FindQuery, from: Address, row: int)
        requires
            row <= from.0,
        ensures
            self.collected(query, from, Seq::empty(), row, 0),
    {
    }

    /// Search the view from a cell on, for at most `limit` matches. Needs no index.
    pub fn find(&self, query: &FindQuery, from: Address, limit: usize) -> (r: Result<
        FindResult,
        Error,
    >)
        requires
            self.wf(),
        ensures
            match r {
                Ok(page) => {
                    &&& query.text@.len() > 0 || query.exact
                    &&& limit > 0
                    &&& page.is_named()
                    &&& self.is_page(*query, from, limit, page)
                },
                Err(Error::EmptySearch) => query.text@.len() == 0 && !query.exact,
                Err(Error::ZeroLimit) => limit == 0 && (query.text@.len() > 0 || query.exact),
                Err(Error::Malformed(m)) => {
                    &&& query.text@.len() > 0 || query.exact
                    &&& limit > 0
                    &&& self.search_fails(*query, from, limit, m)
                },
                Err(_) => false,
            },
    {
        if query.text.as_str().is_empty() && !query.exact {
            return Err(Error::EmptySearch);
        }
        if limit == 0 {
            return Err(Error::ZeroLimit);
        }
        let matcher = Matcher::of(query);
        let mut result = FindResult { matches: Vec::new(), next: None, records_scanned: 0 };
        let size: usize = self.data.len();
        match &self.order {
            Some(order) => {
                let length: usize = order.rows.len();
                proof {
                    self.starts_empty(*query, from, from.0 as int);
                    assert(result.matches@ =~= Seq::empty());
                }
                if from.0 >= length as u64 {
                    proof {
                        assert(self.has_length(length as int));
                        self.skip_rows_back(*query, from, result.matches@, length as int);
                    }
                    return Ok(result);
                }
                let mut i: usize = from.0 as usize;
                while i < length
                    invariant
                        self.wf(),
                        self.order == Some(*order),
                        matcher.serves(*query),
                        size == self.data@.len(),
                        limit > 0,
                        from.0 <= i <= length == order.rows@.len(),
                        from.0 < length,
                        self.collected(*query, from, result.matches@, i as int, 0),
                        result.matches@.len() < limit,
                        result.next is None,
                        result.records_scanned == i - from.0,
                        query.text@.len() > 0 || query.exact,
                    decreases length - i,
                {
                    let reference = order.rows[i];
                    proof {
                        assert(crate::records::readable(
                            self.data@,
                            self.delimiter,
                            reference.row as nat,
                        ));
                    }
                    if let Ok(Some(record)) = read_record(
                        &self.data,
                        self.delimiter,
                        reference.start as usize,
                    ) {
                        if self.search(
                            &matcher,
                            Ghost(*query),
                            from,
                            i as u64,
                            reference.row,
                            &record.fields,
                            limit,
                            &mut result,
                        ) {
                            return Ok(result);
                        }
                    }
                    i = i + 1;
                }
                assert(self.has_length(length as int));
                Ok(result)
            },
            None => {
                proof {
                    if self.index.offsets@.len() > 0 {
                        let last = self.index.offsets@.len() - 1;
                        assert(64 * last <= self.index.offsets@[last]);
                    }
                }
                let (byte, first) = start(self.index.offsets.as_slice(), from.0);
                let mut row: u64 = first;
                let mut at: usize = byte as usize;
                let mut ahead = Ahead::new(64);
                proof {
                    self.starts_empty(*query, from, row as int);
                    assert(result.matches@ =~= Seq::empty());
                }
                loop
                    invariant
                        self.wf(),
                        ahead.wf(self.data@, self.delimiter),
                        self.order is None,
                        matcher.serves(*query),
                        size == self.data@.len(),
                        limit > 0,
                        crate::index::starts_at(
                            self.data@,
                            self.delimiter,
                            row as nat,
                            at as int,
                        ),
                        self.collected(*query, from, result.matches@, row as int, 0),
                        result.matches@.len() < limit,
                        result.next is None,
                        result.records_scanned == if row > from.0 {
                            row - from.0
                        } else {
                            0
                        },
                        query.text@.len() > 0 || query.exact,
                    decreases size - at,
                {
                    match ahead.read(&self.data, self.delimiter, at) {
                        Ok(Some(record)) => {
                            proof {
                                assert(crate::records::readable(
                                    self.data@,
                                    self.delimiter,
                                    row as nat,
                                ));
                                assert(self.offset(row + 1) == record.end);
                                assert(self.has_row(row as int));
                            }
                            if row >= from.0 {
                                if self.search(
                                    &matcher,
                                    Ghost(*query),
                                    from,
                                    row,
                                    row,
                                    &record.fields,
                                    limit,
                                    &mut result,
                                ) {
                                    return Ok(result);
                                }
                            } else {
                                proof {
                                    self.skip_columns(
                                        *query,
                                        from,
                                        result.matches@,
                                        row as int,
                                        0,
                                        row + 1,
                                        0,
                                    );
                                }
                            }
                            row = row + 1;
                            at = record.end;
                        },
                        Ok(None) => {
                            assert(self.has_length(row as int));
                            return Ok(result);
                        },
                        Err((field, valid_up_to)) => {
                            let line = count_lines(&self.data, at);
                            let m = Malformed {
                                record: row,
                                line: line + 1,
                                field,
                                byte: at as u64,
                                valid_up_to,
                            };
                            assert(self.collected(
                                *query,
                                from,
                                result.matches@,
                                m.record as int,
                                0,
                            ));
                            return Err(Error::Malformed(m));
                        },
                    }
                }
            },
        }
    }

    /// A search from past the end of the view finds nothing.
    proof fn skip_rows_back(
        self,
        query: FindQuery,
        from: Address,
        list: Seq<(Address, String)>,
        rows: int,
    )
        requires
            list.len() == 0,
            rows <= from.0,
        ensures
            self.collected(query, from, list, rows, 0),
    {
    }

    /// What is collected up to a place is the beginning of what is collected up to a later
    /// one.
    proof fn collected_begins(
        self,
        query: FindQuery,
        from: Address,
        list: Seq<(Address, String)>,
        row: int,
        col: int,
        longer: Seq<(Address, String)>,
        next_row: int,
        next_col: int,
        i: int,
    )
        requires
            self.collected(query, from, list, row, col),
            self.collected(query, from, longer, next_row, next_col),
            row < next_row || row == next_row && col <= next_col,
            0 <= i <= list.len(),
        ensures
            i <= longer.len(),
            forall|k: int| 0 <= k < i ==> list[k].0 == (#[trigger] longer[k]).0,
        decreases i,
    {
        if i > 0 {
            self.collected_begins(
                query,
                from,
                list,
                row,
                col,
                longer,
                next_row,
                next_col,
                i - 1,
            );
            let at = list[i - 1].0;
            assert(self.hit(query, at) && is_past(at, next_row, next_col));
            assert(crate::cells::holds(longer, at));
            let k = crate::cells::place(longer, at);
            assert(longer[k].0 == at);
            if k < i - 1 {
                assert(list[k].0 == longer[k].0);
                assert(before(list[k].0, list[i - 1].0));
            } else if k > i - 1 {
                let b = longer[i - 1].0;
                assert(before(longer[i - 1].0, longer[k].0));
                assert(self.hit(query, b) && is_past(b, row, col));
                assert(crate::cells::holds(list, b));
                let l = crate::cells::place(list, b);
                assert(list[l].0 == b);
                if l < i - 1 {
                    assert(longer[l].0 == list[l].0);
                    assert(before(longer[l].0, longer[i - 1].0));
                } else if l > i - 1 {
                    assert(before(list[i - 1].0, list[l].0));
                }
            }
        }
    }

    /// The cells and texts of matches.
    pub open spec fn cells_in(list: Seq<(Address, String)>) -> Seq<(Address, Seq<char>)> {
        list.map_values(|m: (Address, String)| (m.0, m.1@))
    }

    /// The cells and texts of a page.
    pub open spec fn cells_of(page: FindResult) -> Seq<(Address, Seq<char>)> {
        Self::cells_in(page.matches@)
    }

    /// A view has one length.
    proof fn length_is_unique(self, a: int, b: int)
        requires
            self.has_length(a),
            self.has_length(b),
        ensures
            a == b,
    {
        if self.order is None {
            if a < b {
                assert(crate::records::readable(self.data@, self.delimiter, a as nat));
            }
            if b < a {
                assert(crate::records::readable(self.data@, self.delimiter, b as nat));
            }
        }
    }

    /// A found cell lies within the view.
    proof fn hits_within_view(self, query: FindQuery, at: Address, rows: int)
        requires
            self.hit(query, at),
            self.has_length(rows),
        ensures
            at.0 < rows,
    {
        if self.order is None && at.0 >= rows {
            assert(crate::records::readable(self.data@, self.delimiter, rows as nat));
        }
    }

    /// Where a page ends: at the next one, or at the end of the view.
    spec fn end_of(self, page: FindResult) -> (int, int) {
        match page.next {
            Some(next) => (next.0 as int, next.1 as int),
            None => (choose|rows: int| #[trigger] self.has_length(rows), 0),
        }
    }

    /// A page holds what is found up to where it ends.
    proof fn page_is_collected(
        self,
        query: FindQuery,
        from: Address,
        limit: usize,
        page: FindResult,
    )
        requires
            self.is_page(query, from, limit, page),
        ensures
            self.collected(query, from, page.matches@, self.end_of(page).0, self.end_of(page).1),
            page.next is None ==> self.has_length(self.end_of(page).0),
    {
        if page.next is None {
            let rows = choose|rows: int|
                {
                    &&& #[trigger] self.has_length(rows)
                    &&& self.collected(query, from, page.matches@, rows, 0)
                };
            self.length_is_unique(rows, self.end_of(page).0);
        }
    }

    /// What is collected up to a place, and what a page from there holds, is together what
    /// is collected up to where the page ends.
    proof fn page_joins(
        self,
        query: FindQuery,
        from: Address,
        list: Seq<(Address, String)>,
        n: Address,
        limit: usize,
        page: FindResult,
    )
        requires
            list.len() > 0,
            self.collected(query, from, list, n.0 as int, n.1 as int),
            self.is_page(query, n, limit, page),
        ensures
            self.collected(
                query,
                from,
                list + page.matches@,
                self.end_of(page).0,
                self.end_of(page).1,
            ),
    {
        let (row, col) = self.end_of(page);
        let all = list + page.matches@;
        let k = list.len() as int;
        self.page_is_collected(query, n, limit, page);
        assert(!before(list[k - 1].0, from));
        assert forall|i: int| 0 <= i < all.len() implies {
            let at = (#[trigger] all[i]).0;
            &&& self.hit(query, at)
            &&& !before(at, from)
            &&& is_past(at, row, col)
            &&& self.shown(at) == Some(all[i].1@)
        } by {
            let at = all[i].0;
            if i < k {
                assert(all[i] == list[i]);
                if page.next is None {
                    self.hits_within_view(query, at, row);
                } else {
                    let length = page.matches@.len();
                    assert(page.matches@[length - 1] == page.matches@.last());
                    assert(!before(page.matches@.last().0, n));
                }
            } else {
                assert(all[i] == page.matches@[i - k]);
                assert(!before(at, n));
            }
        }
        assert forall|i: int, j: int| 0 <= i < j < all.len() implies before(
            (#[trigger] all[i]).0,
            (#[trigger] all[j]).0,
        ) by {
            if i < k {
                assert(all[i] == list[i]);
                if j >= k {
                    assert(all[j] == page.matches@[j - k]);
                    assert(!before(all[j].0, n));
                    assert(is_past(all[i].0, n.0 as int, n.1 as int));
                } else {
                    assert(all[j] == list[j]);
                }
            } else {
                assert(all[i] == page.matches@[i - k]);
                assert(all[j] == page.matches@[j - k]);
            }
        }
        assert forall|at: Address| #[trigger]
            self.hit(query, at) && !before(at, from) && is_past(at, row, col) implies
            crate::cells::holds(all, at) by {
            if before(at, n) {
                assert(is_past(at, n.0 as int, n.1 as int));
                assert(crate::cells::holds(list, at));
                let i = crate::cells::place(list, at);
                assert(list[i].0 == at);
                assert(all[i].0 == at);
            } else {
                assert(crate::cells::holds(page.matches@, at));
                let i = crate::cells::place(page.matches@, at);
                assert(page.matches@[i].0 == at);
                assert(all[k + i].0 == at);
            }
        }
    }

    /// The matches of pages one after another.
    pub open spec fn joined(pages: Seq<FindResult>) -> Seq<(Address, String)>
        decreases pages.len(),
    {
        if pages.len() == 0 {
            Seq::empty()
        } else {
            Self::joined(pages.drop_last()) + pages.last().matches@
        }
    }

    /// Page `i` is the first from `from`, or goes on where the page before it stopped.
    pub open spec fn goes_on(
        self,
        query: FindQuery,
        from: Address,
        limit: usize,
        pages: Seq<FindResult>,
        i: int,
    ) -> bool {
        if i == 0 {
            self.is_page(query, from, limit, pages[0])
        } else {
            pages[i - 1].next matches Some(next) && self.is_page(query, next, limit, pages[i])
        }
    }

    /// The pages of a search from `from`, each from where the one before it stopped.
    pub open spec fn are_pages(
        self,
        query: FindQuery,
        from: Address,
        limit: usize,
        pages: Seq<FindResult>,
    ) -> bool {
        forall|i: int|
            0 <= i < pages.len() ==> #[trigger] self.goes_on(query, from, limit, pages, i)
    }

    /// Pages hold together what is found up to where the last one ends.
    proof fn pages_are_collected(
        self,
        query: FindQuery,
        from: Address,
        limit: usize,
        pages: Seq<FindResult>,
    )
        requires
            pages.len() > 0,
            self.are_pages(query, from, limit, pages),
        ensures
            self.collected(
                query,
                from,
                Self::joined(pages),
                self.end_of(pages.last()).0,
                self.end_of(pages.last()).1,
            ),
            Self::joined(pages).len() == (pages.len() - 1) * limit + pages.last().matches@.len(),
        decreases pages.len(),
    {
        let front = pages.drop_last();
        assert(self.goes_on(query, from, limit, pages, pages.len() - 1));
        if pages.len() == 1 {
            assert(Self::joined(front) =~= Seq::empty());
            assert(Self::joined(pages) =~= pages.last().matches@);
            self.page_is_collected(query, from, limit, pages.last());
            assert((pages.len() - 1) * limit == 0) by (nonlinear_arith)
                requires
                    pages.len() == 1,
            ;
        } else {
            assert forall|i: int| 0 <= i < front.len() implies #[trigger] self.goes_on(
                query,
                from,
                limit,
                front,
                i,
            ) by {
                assert(self.goes_on(query, from, limit, pages, i));
            }
            self.pages_are_collected(query, from, limit, front);
            assert(front.last() == pages[pages.len() - 2]);
            assert(self.goes_on(query, from, limit, front, front.len() - 1));
            let n = front.last().next->0;
            assert((front.len() - 1) * limit >= 0) by (nonlinear_arith)
                requires
                    front.len() >= 1,
                    limit >= 0,
            ;
            self.page_joins(query, from, Self::joined(front), n, limit, pages.last());
            assert((pages.len() - 1) * limit == (front.len() - 1) * limit + limit)
                by (nonlinear_arith)
                requires
                    pages.len() == front.len() + 1,
            ;
        }
    }

    /// What is collected up to a place is, with its texts, the beginning of what is
    /// collected up to a later one.
    proof fn cells_begin(
        self,
        query: FindQuery,
        from: Address,
        list: Seq<(Address, String)>,
        row: int,
        col: int,
        longer: Seq<(Address, String)>,
        next_row: int,
        next_col: int,
    )
        requires
            self.collected(query, from, list, row, col),
            self.collected(query, from, longer, next_row, next_col),
            row < next_row || row == next_row && col <= next_col,
        ensures
            list.len() <= longer.len(),
            Self::cells_in(longer).take(list.len() as int) == Self::cells_in(list),
    {
        self.collected_begins(
            query,
            from,
            list,
            row,
            col,
            longer,
            next_row,
            next_col,
            list.len() as int,
        );
        assert forall|i: int| 0 <= i < list.len() implies Self::cells_in(longer)[i]
            == Self::cells_in(list)[i] by {
            assert(list[i].0 == longer[i].0);
            assert(self.shown(list[i].0) == Some(list[i].1@));
            assert(self.shown(longer[i].0) == Some(longer[i].1@));
        }
        assert(Self::cells_in(longer).take(list.len() as int) =~= Self::cells_in(list));
    }

    /// How many cells come before a cell, row by row.
    spec fn place_of(at: Address) -> int {
        at.0 * (usize::MAX + 1) + at.1
    }

    /// Cells in order are no more than there are places for.
    proof fn ordered_cells_are_few(list: Seq<(Address, String)>)
        requires
            forall|i: int, j: int|
                0 <= i < j < list.len() ==> before((#[trigger] list[i]).0, (#[trigger] list[j]).0),
        ensures
            list.len() > 0 ==> list.len() <= Self::place_of(list.last().0) + 1,
        decreases list.len(),
    {
        if list.len() == 1 {
            let at = list[0].0;
            assert(at.0 * (usize::MAX + 1) >= 0) by (nonlinear_arith)
                requires
                    at.0 >= 0,
            ;
        } else if list.len() > 1 {
            let front = list.drop_last();
            assert forall|i: int, j: int| 0 <= i < j < front.len() implies before(
                (#[trigger] front[i]).0,
                (#[trigger] front[j]).0,
            ) by {
                assert(before(list[i].0, list[j].0));
            }
            Self::ordered_cells_are_few(front);
            let (a, b) = (list[list.len() - 2].0, list[list.len() - 1].0);
            assert(before(a, b));
            assert(Self::place_of(a) < Self::place_of(b)) by (nonlinear_arith)
                requires
                    a.0 < b.0 && a.1 <= usize::MAX && b.1 >= 0 || a.0 == b.0 && a.1 < b.1,
                    Self::place_of(a) == a.0 * (usize::MAX + 1) + a.1,
                    Self::place_of(b) == b.0 * (usize::MAX + 1) + b.1,
            ;
        }
    }

    /// Paging through a search, however many pages it takes, comes to an end and gives what
    /// one search with a larger bound gives, each match once and in order. Every page but
    /// the last is full. No more pages than there are cells can be full, and where the
    /// larger search comes to its end, no more than it has matches for.
    pub proof fn paging_ends(
        self,
        query: FindQuery,
        from: Address,
        limit: usize,
        pages: Seq<FindResult>,
        whole: FindResult,
        bound: usize,
    )
        requires
            pages.len() > 0,
            self.are_pages(query, from, limit, pages),
            self.is_page(query, from, bound, whole),
        ensures
            forall|i: int|
                0 <= i < pages.len() - 1 ==> (#[trigger] pages[i]).matches@.len() == limit,
            pages.last().next is None ==> pages.last().matches@.len() < limit,
            pages.len() * limit > (u64::MAX + 1) * (usize::MAX + 1) ==> pages.last().next is None,
            whole.next is None && pages.len() * limit > whole.matches@.len()
                ==> pages.last().next is None,
            whole.next is None && pages.last().next is None ==> Self::cells_in(
                Self::joined(pages),
            ) == Self::cells_in(whole.matches@),
            whole.next is None && pages.last().next is Some ==> Self::cells_in(Self::joined(pages))
                == Self::cells_in(whole.matches@).take((pages.len() * limit) as int),
            whole.next is Some && pages.last().next is None ==> Self::cells_in(
                Self::joined(pages),
            ).take(bound as int) == Self::cells_in(whole.matches@),
    {
        let list = Self::joined(pages);
        let (row, col) = self.end_of(pages.last());
        let (end, past) = self.end_of(whole);
        self.pages_are_collected(query, from, limit, pages);
        self.page_is_collected(query, from, bound, whole);
        let count = pages.len();
        assert(self.goes_on(query, from, limit, pages, count - 1));
        assert(pages.len() * limit == (pages.len() - 1) * limit + limit) by (nonlinear_arith);
        assert forall|i: int| 0 <= i < pages.len() - 1 implies (
        #[trigger] pages[i]).matches@.len() == limit by {
            assert(self.goes_on(query, from, limit, pages, i));
            assert(self.goes_on(query, from, limit, pages, i + 1));
        }
        if pages.last().next is Some {
            assert((count - 1) * limit >= 0) by (nonlinear_arith)
                requires
                    count >= 1,
                    limit >= 0,
            ;
            Self::ordered_cells_are_few(list);
            let at = list.last().0;
            assert(Self::place_of(at) + 1 <= (u64::MAX + 1) * (usize::MAX + 1)) by (nonlinear_arith)
                requires
                    at.0 <= u64::MAX,
                    at.1 <= usize::MAX,
                    Self::place_of(at) == at.0 * (usize::MAX + 1) + at.1,
            ;
        }
        if pages.last().next is None {
            self.page_is_collected(
                query,
                if count == 1 {
                    from
                } else {
                    pages[count - 2].next->0
                },
                limit,
                pages.last(),
            );
            if whole.next is None {
                self.length_is_unique(row, end);
                self.cells_begin(query, from, list, row, col, whole.matches@, end, past);
                self.cells_begin(query, from, whole.matches@, end, past, list, row, col);
                assert(Self::cells_in(whole.matches@).take(list.len() as int) =~= Self::cells_in(
                    whole.matches@,
                ));
            } else {
                let length = whole.matches@.len();
                assert(whole.matches@[length - 1] == whole.matches@.last());
                self.hits_within_view(query, whole.matches@.last().0, row);
                self.cells_begin(query, from, whole.matches@, end, past, list, row, col);
            }
        } else if whole.next is None {
            let last = pages.last().matches@.last().0;
            let length = pages.last().matches@.len();
            assert(pages.last().matches@[length - 1] == pages.last().matches@.last());
            self.hits_within_view(query, last, end);
            self.cells_begin(query, from, list, row, col, whole.matches@, end, past);
        }
    }

    /// What two pages hold, one from where the other stopped, is what a single page of
    /// both their sizes holds, and the search then goes on from the same cell: paging
    /// neither skips a match nor gives one twice.
    pub proof fn pages_join(
        self,
        query: FindQuery,
        from: Address,
        first: FindResult,
        second: FindResult,
        whole: FindResult,
        a: usize,
        b: usize,
    )
        requires
            a + b <= usize::MAX,
            self.is_page(query, from, a, first),
            first.next is Some,
            self.is_page(query, first.next->0, b, second),
            self.is_page(query, from, (a + b) as usize, whole),
        ensures
            Self::cells_of(whole) == Self::cells_of(first) + Self::cells_of(second),
            whole.next == second.next,
    {
        let n = first.next->0;
        let list = first.matches@ + second.matches@;
        let (row, col) = self.end_of(second);
        let (end, past) = self.end_of(whole);
        self.page_is_collected(query, n, b, second);
        self.page_is_collected(query, from, (a + b) as usize, whole);
        self.page_joins(query, from, first.matches@, n, b, second);
        if second.next is None && whole.next is None {
            self.length_is_unique(row, end);
        }
        if row < end || row == end && col <= past {
            self.collected_begins(
                query,
                from,
                list,
                row,
                col,
                whole.matches@,
                end,
                past,
                list.len() as int,
            );
        } else {
            self.collected_begins(
                query,
                from,
                whole.matches@,
                end,
                past,
                list,
                row,
                col,
                whole.matches@.len() as int,
            );
        }
        if second.next is None && whole.next is None {
            assert(row == end);
            self.collected_begins(
                query,
                from,
                whole.matches@,
                end,
                past,
                list,
                row,
                col,
                whole.matches@.len() as int,
            );
        } else if second.next is None {
            // Every match of the whole page is within the view, so it is in the list.
            let last = whole.matches@.last().0;
            assert(whole.matches@[whole.matches@.len() - 1] == whole.matches@.last());
            self.hits_within_view(query, last, row);
            assert(false);
        } else if whole.next is None {
            let last = list.last().0;
            assert(list[list.len() - 1] == list.last());
            self.hits_within_view(query, last, end);
            assert(false);
        }
        assert(whole.matches@.len() == list.len());
        assert(Self::cells_of(whole) =~= Self::cells_of(first) + Self::cells_of(second)) by {
            assert forall|i: int| 0 <= i < list.len() implies Self::cells_of(whole)[i] == (
            list[i].0, list[i].1@) by {
                assert(whole.matches@[i].0 == list[i].0);
                assert(self.shown(list[i].0) == Some(list[i].1@));
                assert(self.shown(whole.matches@[i].0) == Some(whole.matches@[i].1@));
            }
        }
        if second.next is Some {
            assert(list.last() == second.matches@.last());
            assert(whole.matches@[list.len() - 1].0 == list[list.len() - 1].0);
        }
    }
}

} // verus!
