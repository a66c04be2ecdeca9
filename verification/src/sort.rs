//! Sort keys, the order they give records, and the sort itself.
use crate::a1::{column_index, A1Error};
use crate::error::Error;
use crate::text::{chars, comes_before, split, string, trim};
use crate::xml::utf8;
use rust_decimal::Decimal;
use vstd::prelude::*;

verus! {

/// One column to sort by.
#[derive(Clone, Copy, Debug, PartialEq, Eq, Structural)]
pub struct SortKey {
    pub column: usize,
    pub descending: bool,
    pub numeric: bool,
}

/// Where a record lies in the source.
#[derive(Clone, Copy, Debug, PartialEq, Eq, Structural)]
pub struct RecordRef {
    pub row: u64,
    pub start: u64,
    pub end: u64,
}

/// The records of a source in sorted order.
#[derive(Debug)]
pub struct SortOrder {
    pub rows: Vec<RecordRef>,
    pub keys: Vec<SortKey>,
    pub header: bool,
    /// The edits the order was made from.
    pub revision: u64,
}

/// One part of a sort specification, such as `-D:n`: whether it is descending, its
/// column letters and whether it is numeric.
pub open spec fn key_parts(part: Seq<char>) -> (bool, Seq<char>, bool) {
    let t = crate::text::trimmed(part);
    let descending = t.len() > 0 && t[0] == '-';
    let unsigned = if t.len() > 0 && (t[0] == '-' || t[0] == '+') {
        t.skip(1)
    } else {
        t
    };
    let n = unsigned.len() as int;
    if n >= 2 && unsigned[n - 2] == ':' && unsigned[n - 1] == 'n' {
        (descending, unsigned.take(n - 2), true)
    } else {
        (descending, unsigned, false)
    }
}

/// The key of a part, where it has one.
pub open spec fn key_of(part: Seq<char>) -> Result<SortKey, Error> {
    let (descending, letters, numeric) = key_parts(part);
    if !crate::a1::is_letters(letters) {
        Err(Error::SortSyntax)
    } else if crate::a1::column_value(letters) > usize::MAX {
        Err(Error::SortColumnTooLarge)
    } else {
        Ok(
            SortKey {
                column: (crate::a1::column_value(letters) - 1) as usize,
                descending,
                numeric,
            },
        )
    }
}

/// What part `i` of a specification is refused for: itself, or a column of an earlier part.
pub open spec fn key_at(list: Seq<Seq<char>>, i: int) -> Result<SortKey, Error> {
    match key_of(list[i]) {
        Err(error) => Err(error),
        Ok(key) => if exists|j: int|
            0 <= j < i && key_of(#[trigger] list[j]) is Ok && key_of(list[j])->Ok_0.column
                == key.column {
            Err(Error::SortColumnTwice)
        } else {
            Ok(key)
        },
    }
}

/// What reading a sort specification gives: its keys, or the error of the first part
/// that is refused.
pub open spec fn sort_result(s: Seq<char>, r: Result<Vec<SortKey>, Error>) -> bool {
    let list = crate::text::parts(s, ',');
    match r {
        Ok(keys) => {
            &&& keys@.len() == list.len()
            &&& forall|i: int|
                0 <= i < list.len() ==> key_at(list, i) == Ok::<SortKey, Error>(
                    #[trigger] keys@[i],
                )
        },
        Err(error) => exists|i: int|
            {
                &&& 0 <= i < list.len()
                &&& forall|j: int| 0 <= j < i ==> key_at(list, j) is Ok
                &&& #[trigger] key_at(list, i) == Err::<SortKey, Error>(error)
            },
    }
}

/// What the first of `n` parts that is refused is refused for.
pub open spec fn spec_refusal(list: Seq<Seq<char>>, n: int) -> Option<Error>
    decreases n,
{
    if n <= 0 {
        None
    } else {
        match spec_refusal(list, n - 1) {
            Some(error) => Some(error),
            None => match key_at(list, n - 1) {
                Ok(_) => None,
                Err(error) => Some(error),
            },
        }
    }
}

proof fn spec_refusal_is(list: Seq<Seq<char>>, i: int, n: int)
    requires
        0 <= i <= n <= list.len(),
        forall|j: int| 0 <= j < i ==> #[trigger] key_at(list, j) is Ok,
        i < n ==> key_at(list, i) is Err,
    ensures
        spec_refusal(list, n) == if i < n {
            Some(key_at(list, i)->Err_0)
        } else {
            None
        },
    decreases n,
{
    if n > 0 {
        if i < n {
            spec_refusal_is(list, i, n - 1);
        } else {
            spec_refusal_is(list, i - 1, n - 1);
            assert(key_at(list, n - 1) is Ok);
        }
    }
}

/// A specification that is read has no part that is refused; one that is refused has the
/// error of its first part that is.
pub proof fn sort_result_is(s: Seq<char>, r: Result<Vec<SortKey>, Error>)
    requires
        sort_result(s, r),
    ensures
        ({
            let list = crate::text::parts(s, ',');
            spec_refusal(list, list.len() as int) == match r {
                Ok(_) => None,
                Err(error) => Some(error),
            }
        }),
{
    let list = crate::text::parts(s, ',');
    match r {
        Ok(keys) => {
            assert forall|j: int| 0 <= j < list.len() implies #[trigger] key_at(list, j) is Ok by {
                assert(key_at(list, j) == Ok::<SortKey, Error>(keys@[j]));
            }
            spec_refusal_is(list, list.len() as int, list.len() as int);
        },
        Err(error) => {
            let i = choose|i: int|
                {
                    &&& 0 <= i < list.len()
                    &&& forall|j: int| 0 <= j < i ==> key_at(list, j) is Ok
                    &&& #[trigger] key_at(list, i) == Err::<SortKey, Error>(error)
                };
            spec_refusal_is(list, i, list.len() as int);
        },
    }
}

fn parse_key(part: &str) -> (r: Result<SortKey, Error>)
    ensures
        r == key_of(part@),
{
    let all = chars(part);
    let (from, to) = trim(&all, 0, all.len());
    let ghost t = crate::text::trimmed(part@);
    assert(all@.subrange(0, all@.len() as int) =~= part@);
    let signed = from < to && (all[from] == '-' || all[from] == '+');
    let descending = from < to && all[from] == '-';
    let start: usize = if signed {
        from + 1
    } else {
        from
    };
    let numeric = to - start >= 2 && all[to - 2] == ':' && all[to - 1] == 'n';
    let end: usize = if numeric {
        to - 2
    } else {
        to
    };
    let letters = string(&all, start, end);
    assert(letters@ =~= key_parts(part@).1);
    match column_index(letters.as_str()) {
        Ok(column) => Ok(SortKey { column, descending, numeric }),
        Err(A1Error::ColumnTooLarge) => Err(Error::SortColumnTooLarge),
        Err(_) => Err(Error::SortSyntax),
    }
}

/// Columns in priority order, such as `B,-D:n`.
pub fn parse_sort(text: &str) -> (r: Result<Vec<SortKey>, Error>)
    ensures
        sort_result(text@, r),
{
    let list = split(text, ',');
    let ghost all = crate::text::parts(text@, ',');
    let mut keys: Vec<SortKey> = Vec::new();
    let mut i: usize = 0;
    while i < list.len()
        invariant
            i == keys@.len() <= list@.len(),
            crate::text::views(list@) == all,
            all == crate::text::parts(text@, ','),
            forall|k: int|
                0 <= k < i ==> key_at(all, k) == Ok::<SortKey, Error>(#[trigger] keys@[k]),
        decreases list@.len() - i,
    {
        assert(all[i as int] == list@[i as int]@);
        assert(forall|j: int| 0 <= j < i ==> key_at(all, j) is Ok) by {
            assert forall|j: int| 0 <= j < i implies key_at(all, j) is Ok by {
                let key = keys@[j];
            }
        }
        let key = match parse_key(list[i].as_str()) {
            Ok(key) => key,
            Err(error) => {
                assert(key_at(all, i as int) == Err::<SortKey, Error>(error));
                return Err(error);
            },
        };
        let mut j: usize = 0;
        while j < keys.len()
            invariant
                j <= keys@.len() == i < all.len(),
                forall|k: int|
                    0 <= k < i ==> key_at(all, k) == Ok::<SortKey, Error>(#[trigger] keys@[k]),
                key_of(all[i as int]) == Ok::<SortKey, Error>(key),
                forall|k: int| 0 <= k < j ==> (#[trigger] keys@[k]).column != key.column,
                all == crate::text::parts(text@, ','),
                forall|j: int| 0 <= j < i ==> key_at(all, j) is Ok,
            decreases keys@.len() - j,
        {
            if keys[j].column == key.column {
                assert(key_at(all, j as int) == Ok::<SortKey, Error>(keys@[j as int]));
                assert(key_of(all[j as int])->Ok_0.column == key.column);
                assert(key_at(all, i as int) == Err::<SortKey, Error>(Error::SortColumnTwice));
                return Err(Error::SortColumnTwice);
            }
            j = j + 1;
        }
        proof {
            assert forall|k: int|
                0 <= k < i && key_of(#[trigger] all[k]) is Ok implies key_of(all[k])->Ok_0.column
                != key.column by {
                assert(key_at(all, k) == Ok::<SortKey, Error>(keys@[k]));
            }
            assert(key_at(all, i as int) == Ok::<SortKey, Error>(key));
        }
        keys.push(key);
        i = i + 1;
    }
    Ok(keys)
}

/// A decimal number: its digits as an integer and how many of them follow the point.
#[derive(Clone, Copy, Debug, PartialEq, Eq, Structural)]
pub struct Number {
    pub mantissa: i128,
    pub scale: u32,
}

/// 2 to the 96th.
pub const COEFFICIENT: i128 = 79_228_162_514_264_337_593_543_950_336;

impl Number {
    pub open spec fn wf(self) -> bool {
        -COEFFICIENT < self.mantissa < COEFFICIENT && self.scale <= 28
    }

    /// The number in units of the 28th decimal place.
    pub open spec fn units(self) -> int {
        self.mantissa * vstd::arithmetic::power::pow(10, (28 - self.scale) as nat)
    }
}

/// The decimal number that a text stands for, where it stands for one exactly.
pub uninterp spec fn exact_decimal(text: Seq<char>) -> Option<Number>;

/// The most bytes of a text that is read as a number.
pub const NUMBER_BYTES: usize = 512;

/// The number that a text sorts by: none where it is too long to be read.
pub open spec fn sort_number(text: Seq<char>) -> Option<Number> {
    if utf8(text).len() <= NUMBER_BYTES {
        exact_decimal(text)
    } else {
        None
    }
}

/// `Decimal::from_str_exact` reads a decimal number that needs no rounding. What it reads
/// depends on the text alone; the digits fit in 96 bits, at most 28 of them after the point.
/// It calls itself for every byte, so a long text may exhaust the stack.
#[verifier::external_body]
fn read_decimal(text: &str) -> (r: Option<Number>)
    requires
        utf8(text@).len() <= NUMBER_BYTES,
    ensures
        r == exact_decimal(text@),
        r matches Some(number) ==> number.wf(),
{
    let number = Decimal::from_str_exact(text).ok()?;
    Some(Number { mantissa: number.mantissa(), scale: number.scale() })
}

/// Read the number that a text sorts by.
pub fn read_number(text: &str) -> (r: Option<Number>)
    ensures
        r == sort_number(text@),
        r matches Some(number) ==> number.wf(),
{
    if text.as_bytes().len() <= NUMBER_BYTES {
        read_decimal(text)
    } else {
        None
    }
}

/// The result of a comparison.
#[derive(Clone, Copy, Debug, PartialEq, Eq, Structural)]
pub enum Rank {
    Before,
    Same,
    After,
}

/// The order of two integers.
pub open spec fn rank(a: int, b: int) -> Rank {
    if a < b {
        Rank::Before
    } else if a == b {
        Rank::Same
    } else {
        Rank::After
    }
}

/// `Decimal`'s `Ord` compares the numbers, whatever their scales.
#[verifier::external_body]
fn rank_decimals(a: Number, b: Number) -> (r: Rank)
    requires
        a.wf(),
        b.wf(),
    ensures
        r == rank(a.units(), b.units()),
{
    let left = Decimal::from_i128_with_scale(a.mantissa, a.scale);
    let right = Decimal::from_i128_with_scale(b.mantissa, b.scale);
    match left.cmp(&right) {
        std::cmp::Ordering::Less => Rank::Before,
        std::cmp::Ordering::Equal => Rank::Same,
        std::cmp::Ordering::Greater => Rank::After,
    }
}

/// What a record sorts by in one column.
#[derive(Debug)]
pub enum SortValue {
    Text(Vec<char>),
    Number(Number),
    Empty,
}

/// What a record sorts by in one column, in the terms of the order.
pub enum KeyView {
    Text(Seq<char>),
    Number(Number),
    Empty,
}

impl View for SortValue {
    type V = KeyView;

    open spec fn view(&self) -> KeyView {
        match self {
            SortValue::Text(text) => KeyView::Text(text@),
            SortValue::Number(number) => KeyView::Number(*number),
            SortValue::Empty => KeyView::Empty,
        }
    }
}

/// What each value sorts by.
pub open spec fn key_views(values: Seq<SortValue>) -> Seq<KeyView> {
    values.map_values(|v: SortValue| v@)
}

/// The rank the other way round.
pub open spec fn flip(r: Rank) -> Rank {
    match r {
        Rank::Before => Rank::After,
        Rank::Same => Rank::Same,
        Rank::After => Rank::Before,
    }
}

/// Ascending order: text by code points, numbers by value.
pub open spec fn rank_ascending(a: KeyView, b: KeyView) -> Rank {
    match (a, b) {
        (KeyView::Text(x), KeyView::Text(y)) => if x == y {
            Rank::Same
        } else if crate::text::sorts_before(x, y) {
            Rank::Before
        } else {
            Rank::After
        },
        (KeyView::Number(x), KeyView::Number(y)) => rank(x.units(), y.units()),
        (KeyView::Text(_), KeyView::Number(_)) => Rank::Before,
        (KeyView::Number(_), KeyView::Text(_)) => Rank::After,
        _ => Rank::Same,
    }
}

/// The order of two values of a column: empty ones last in either direction.
pub open spec fn rank_values(a: KeyView, b: KeyView, descending: bool) -> Rank {
    match (a, b) {
        (KeyView::Empty, KeyView::Empty) => Rank::Same,
        (KeyView::Empty, _) => Rank::After,
        (_, KeyView::Empty) => Rank::Before,
        _ => if descending {
            flip(rank_ascending(a, b))
        } else {
            rank_ascending(a, b)
        },
    }
}

/// The order of two records from key `i` on: the first key in which they differ decides.
pub open spec fn rank_keys(a: Seq<KeyView>, b: Seq<KeyView>, keys: Seq<SortKey>, i: int) -> Rank
    decreases keys.len() - i,
{
    if i < 0 || i >= keys.len() {
        Rank::Same
    } else {
        let r = rank_values(a[i], b[i], keys[i].descending);
        if r == Rank::Same {
            rank_keys(a, b, keys, i + 1)
        } else {
            r
        }
    }
}

/// A record with these values in source row `row` comes before one in row `other`: by its
/// keys, and by the source order where they are the same.
pub open spec fn goes_before(
    a: Seq<KeyView>,
    row: int,
    b: Seq<KeyView>,
    other: int,
    keys: Seq<SortKey>,
) -> bool {
    match rank_keys(a, b, keys, 0) {
        Rank::Before => true,
        Rank::Same => row < other,
        Rank::After => false,
    }
}

/// Records with the same values rank the same.
pub proof fn same_keys_rank_same(a: Seq<KeyView>, keys: Seq<SortKey>, i: int)
    ensures
        rank_keys(a, a, keys, i) == Rank::Same,
    decreases keys.len() - i,
{
    if 0 <= i < keys.len() {
        same_keys_rank_same(a, keys, i + 1);
    }
}

proof fn rank_values_opposite(a: KeyView, b: KeyView, descending: bool)
    ensures
        rank_values(b, a, descending) == flip(rank_values(a, b, descending)),
{
    if let (KeyView::Text(x), KeyView::Text(y)) = (a, b) {
        crate::text::sorts_before_total(x, y);
    }
}

proof fn rank_values_transitive(a: KeyView, b: KeyView, c: KeyView, descending: bool)
    requires
        rank_values(a, b, descending) != Rank::After,
        rank_values(b, c, descending) != Rank::After,
    ensures
        rank_values(a, c, descending) != Rank::After,
        rank_values(a, c, descending) == Rank::Same ==> rank_values(a, b, descending) == Rank::Same
            && rank_values(b, c, descending) == Rank::Same,
{
    if let (KeyView::Text(x), KeyView::Text(y)) = (a, b) {
        if let KeyView::Text(z) = c {
            crate::text::sorts_before_total(x, y);
            crate::text::sorts_before_total(y, z);
            crate::text::sorts_before_total(x, z);
            if crate::text::sorts_before(x, y) && crate::text::sorts_before(y, z) {
                crate::text::sorts_before_transitive(x, y, z);
            }
            if crate::text::sorts_before(y, x) && crate::text::sorts_before(z, y) {
                crate::text::sorts_before_transitive(z, y, x);
            }
        }
    }
}

proof fn rank_keys_opposite(a: Seq<KeyView>, b: Seq<KeyView>, keys: Seq<SortKey>, i: int)
    ensures
        rank_keys(b, a, keys, i) == flip(rank_keys(a, b, keys, i)),
    decreases keys.len() - i,
{
    if 0 <= i < keys.len() {
        rank_values_opposite(a[i], b[i], keys[i].descending);
        rank_keys_opposite(a, b, keys, i + 1);
    }
}

proof fn rank_keys_transitive(
    a: Seq<KeyView>,
    b: Seq<KeyView>,
    c: Seq<KeyView>,
    keys: Seq<SortKey>,
    i: int,
)
    requires
        rank_keys(a, b, keys, i) != Rank::After,
        rank_keys(b, c, keys, i) != Rank::After,
    ensures
        rank_keys(a, c, keys, i) != Rank::After,
        rank_keys(a, c, keys, i) == Rank::Same ==> rank_keys(a, b, keys, i) == Rank::Same
            && rank_keys(b, c, keys, i) == Rank::Same,
    decreases keys.len() - i,
{
    if 0 <= i < keys.len() {
        let d = keys[i].descending;
        rank_values_transitive(a[i], b[i], c[i], d);
        if rank_values(a[i], c[i], d) == Rank::Same {
            rank_keys_transitive(a, b, c, keys, i + 1);
        }
    }
}

/// Of two records in different rows, exactly one goes before the other.
pub proof fn order_is_total(
    a: Seq<KeyView>,
    row: int,
    b: Seq<KeyView>,
    other: int,
    keys: Seq<SortKey>,
)
    requires
        row != other,
    ensures
        goes_before(a, row, b, other, keys) <==> !goes_before(b, other, a, row, keys),
{
    rank_keys_opposite(a, b, keys, 0);
}

/// What goes before a record that goes before another goes before that one too.
pub proof fn order_is_transitive(
    a: Seq<KeyView>,
    i: int,
    b: Seq<KeyView>,
    j: int,
    c: Seq<KeyView>,
    k: int,
    keys: Seq<SortKey>,
)
    requires
        goes_before(a, i, b, j, keys),
        goes_before(b, j, c, k, keys),
    ensures
        goes_before(a, i, c, k, keys),
{
    rank_keys_transitive(a, b, c, keys, 0);
}

/// A record to be sorted.
pub struct Entry {
    pub record: RecordRef,
    pub values: Vec<SortValue>,
}

impl Entry {
    pub open spec fn wf(self, keys: Seq<SortKey>) -> bool {
        &&& self.values@.len() == keys.len()
        &&& forall|i: int|
            0 <= i < self.values@.len() ==> ((#[trigger] self.values@[i]) matches SortValue::Number(
                number,
            ) ==> number.wf())
    }
}

fn rank_pair(a: &SortValue, b: &SortValue, descending: bool) -> (r: Rank)
    requires
        a matches SortValue::Number(number) ==> number.wf(),
        b matches SortValue::Number(number) ==> number.wf(),
    ensures
        r == rank_values(a@, b@, descending),
{
    let ascending = match (a, b) {
        (SortValue::Empty, SortValue::Empty) => {
            return Rank::Same;
        },
        (SortValue::Empty, _) => {
            return Rank::After;
        },
        (_, SortValue::Empty) => {
            return Rank::Before;
        },
        (SortValue::Text(x), SortValue::Text(y)) => {
            proof {
                crate::text::sorts_before_total(x@, y@);
            }
            if comes_before(x, y) {
                Rank::Before
            } else if comes_before(y, x) {
                Rank::After
            } else {
                Rank::Same
            }
        },
        (SortValue::Number(x), SortValue::Number(y)) => rank_decimals(*x, *y),
        (SortValue::Text(_), SortValue::Number(_)) => Rank::Before,
        (SortValue::Number(_), SortValue::Text(_)) => Rank::After,
    };
    if descending {
        match ascending {
            Rank::Before => Rank::After,
            Rank::Same => Rank::Same,
            Rank::After => Rank::Before,
        }
    } else {
        ascending
    }
}

/// The entry sorts before the other.
pub open spec fn entry_before(a: Entry, b: Entry, keys: Seq<SortKey>) -> bool {
    goes_before(
        key_views(a.values@),
        a.record.row as int,
        key_views(b.values@),
        b.record.row as int,
        keys,
    )
}

fn is_before(a: &Entry, b: &Entry, keys: &Vec<SortKey>) -> (r: bool)
    requires
        a.wf(keys@),
        b.wf(keys@),
    ensures
        r == entry_before(*a, *b, keys@),
{
    let ghost (x, y) = (key_views(a.values@), key_views(b.values@));
    let mut i: usize = 0;
    while i < keys.len()
        invariant
            i <= keys@.len(),
            a.wf(keys@),
            b.wf(keys@),
            x == key_views(a.values@),
            y == key_views(b.values@),
            rank_keys(x, y, keys@, 0) == rank_keys(x, y, keys@, i as int),
        decreases keys@.len() - i,
    {
        assert(x[i as int] == a.values@[i as int]@);
        assert(y[i as int] == b.values@[i as int]@);
        match rank_pair(&a.values[i], &b.values[i], keys[i].descending) {
            Rank::Before => {
                return true;
            },
            Rank::After => {
                return false;
            },
            Rank::Same => {},
        }
        i = i + 1;
    }
    a.record.row < b.record.row
}

/// Positions of entries, each entry before the next.
pub open spec fn sorted(list: Seq<usize>, entries: Seq<Entry>, keys: Seq<SortKey>) -> bool {
    forall|i: int, j: int|
        0 <= i < j < list.len() ==> entry_before(
            entries[#[trigger] list[i] as int],
            entries[#[trigger] list[j] as int],
            keys,
        )
}

/// Positions of entries, none twice.
pub open spec fn positions(list: Seq<usize>, entries: Seq<Entry>) -> bool {
    &&& forall|i: int| 0 <= i < list.len() ==> #[trigger] list[i] < entries.len()
    &&& list.no_duplicates()
}

/// Every entry has a value for each key.
pub open spec fn all_wf(entries: Seq<Entry>, keys: Seq<SortKey>) -> bool {
    &&& forall|i: int| 0 <= i < entries.len() ==> (#[trigger] entries[i]).wf(keys)
    &&& forall|i: int, j: int|
        0 <= i < j < entries.len() ==> (#[trigger] entries[i]).record.row != (
        #[trigger] entries[j]).record.row
}

/// Two sorted lists as one.
fn merge(a: &Vec<usize>, b: &Vec<usize>, entries: &Vec<Entry>, keys: &Vec<SortKey>) -> (r: Vec<
    usize,
>)
    requires
        all_wf(entries@, keys@),
        positions(a@ + b@, entries@),
        sorted(a@, entries@, keys@),
        sorted(b@, entries@, keys@),
    ensures
        positions(r@, entries@),
        sorted(r@, entries@, keys@),
        r@.to_multiset() == (a@ + b@).to_multiset(),
{
    let mut merged: Vec<usize> = Vec::new();
    let (mut i, mut j): (usize, usize) = (0, 0);
    proof {
        assert(a@.take(0) + b@.take(0) =~= Seq::<usize>::empty());
    }
    while i < a.len() || j < b.len()
        invariant
            i <= a@.len(),
            j <= b@.len(),
            all_wf(entries@, keys@),
            positions(a@ + b@, entries@),
            sorted(a@, entries@, keys@),
            sorted(b@, entries@, keys@),
            merged@.len() == i + j,
            merged@.to_multiset() == (a@.take(i as int) + b@.take(j as int)).to_multiset(),
            sorted(merged@, entries@, keys@),
            forall|k: int| 0 <= k < merged@.len() ==> #[trigger] merged@[k] < entries@.len(),
            forall|k: int, l: int|
                0 <= k < merged@.len() && i <= l < a@.len() ==> entry_before(
                    entries@[#[trigger] merged@[k] as int],
                    entries@[#[trigger] a@[l] as int],
                    keys@,
                ),
            forall|k: int, l: int|
                0 <= k < merged@.len() && j <= l < b@.len() ==> entry_before(
                    entries@[#[trigger] merged@[k] as int],
                    entries@[#[trigger] b@[l] as int],
                    keys@,
                ),
        decreases a@.len() + b@.len() - i - j,
    {
        proof {
            assert forall|k: int| 0 <= k < a@.len() implies #[trigger] a@[k] < entries@.len() by {
                assert((a@ + b@)[k] == a@[k]);
            }
            assert forall|k: int| 0 <= k < b@.len() implies #[trigger] b@[k] < entries@.len() by {
                assert((a@ + b@)[a@.len() + k] == b@[k]);
            }
            assert forall|k: int, l: int|
                0 <= k < a@.len() && 0 <= l < b@.len() implies #[trigger] a@[k]
                != #[trigger] b@[l] by {
                assert((a@ + b@)[k] == a@[k]);
                assert((a@ + b@)[a@.len() + l] == b@[l]);
            }
        }
        let take_left = j == b.len() || i < a.len() && is_before(
            &entries[a[i]],
            &entries[b[j]],
            keys,
        );
        let ghost (x, y) = (a@.take(i as int), b@.take(j as int));
        let ghost was = merged@;
        broadcast use vstd::seq_lib::group_to_multiset_ensures;

        if take_left {
            proof {
                assert(a@.take(i + 1) =~= x.push(a@[i as int]));
                vstd::seq_lib::lemma_multiset_commutative(x, y);
                vstd::seq_lib::lemma_multiset_commutative(x.push(a@[i as int]), y);
                assert forall|l: int| j <= l < b@.len() implies entry_before(
                    entries@[a@[i as int] as int],
                    entries@[#[trigger] b@[l] as int],
                    keys@,
                ) by {
                    if l > j {
                        let (p, q, r) = (
                            entries@[a@[i as int] as int],
                            entries@[b@[j as int] as int],
                            entries@[b@[l] as int],
                        );
                        order_is_transitive(
                            key_views(p.values@),
                            p.record.row as int,
                            key_views(q.values@),
                            q.record.row as int,
                            key_views(r.values@),
                            r.record.row as int,
                            keys@,
                        );
                    }
                }
            }
            merged.push(a[i]);
            i = i + 1;
        } else {
            proof {
                assert(b@.take(j + 1) =~= y.push(b@[j as int]));
                vstd::seq_lib::lemma_multiset_commutative(x, y);
                vstd::seq_lib::lemma_multiset_commutative(x, y.push(b@[j as int]));
                assert forall|l: int| i <= l < a@.len() implies entry_before(
                    entries@[b@[j as int] as int],
                    entries@[#[trigger] a@[l] as int],
                    keys@,
                ) by {
                    let (p, q, r) = (
                        entries@[b@[j as int] as int],
                        entries@[a@[i as int] as int],
                        entries@[a@[l] as int],
                    );
                    assert(p.record.row != q.record.row);
                    order_is_total(
                        key_views(p.values@),
                        p.record.row as int,
                        key_views(q.values@),
                        q.record.row as int,
                        keys@,
                    );
                    if l > i {
                        order_is_transitive(
                            key_views(p.values@),
                            p.record.row as int,
                            key_views(q.values@),
                            q.record.row as int,
                            key_views(r.values@),
                            r.record.row as int,
                            keys@,
                        );
                    }
                }
            }
            merged.push(b[j]);
            j = j + 1;
        }
    }
    proof {
        assert(a@.take(a@.len() as int) =~= a@);
        assert(b@.take(b@.len() as int) =~= b@);
        same_multiset_no_duplicates(a@ + b@, merged@);
    }
    merged
}

/// A list with the same items as one without duplicates has none either.
proof fn same_multiset_no_duplicates(a: Seq<usize>, b: Seq<usize>)
    requires
        a.no_duplicates(),
        a.to_multiset() == b.to_multiset(),
    ensures
        b.no_duplicates(),
{
    a.lemma_multiset_has_no_duplicates();
    b.lemma_multiset_has_no_duplicates_conv();
}

/// The positions from `from` up to `to`, sorted by their entries.
fn sort_between(entries: &Vec<Entry>, keys: &Vec<SortKey>, from: usize, to: usize) -> (r: Vec<
    usize,
>)
    requires
        all_wf(entries@, keys@),
        from <= to <= entries@.len(),
    ensures
        positions(r@, entries@),
        sorted(r@, entries@, keys@),
        r@.to_multiset() == Seq::new(
            (to - from) as nat,
            |i: int| (from + i) as usize,
        ).to_multiset(),
    decreases to - from,
{
    let ghost all = Seq::new((to - from) as nat, |i: int| (from + i) as usize);
    if to - from < 2 {
        let mut list: Vec<usize> = Vec::new();
        if from < to {
            list.push(from);
        }
        assert(list@ =~= all);
        return list;
    }
    let middle: usize = from + (to - from) / 2;
    let left = sort_between(entries, keys, from, middle);
    let right = sort_between(entries, keys, middle, to);
    proof {
        let low = Seq::new((middle - from) as nat, |i: int| (from + i) as usize);
        let high = Seq::new((to - middle) as nat, |i: int| (middle + i) as usize);
        assert(low + high =~= all);
        vstd::seq_lib::lemma_multiset_commutative(low, high);
        vstd::seq_lib::lemma_multiset_commutative(left@, right@);
        assert((left@ + right@).to_multiset() =~= all.to_multiset());
        assert(all.no_duplicates());
        same_multiset_no_duplicates(all, left@ + right@);
    }
    merge(&left, &right, entries, keys)
}

/// The positions of the entries in sorted order; a header stays first.
pub fn sort_entries(entries: &Vec<Entry>, keys: &Vec<SortKey>, header: bool) -> (r: Vec<usize>)
    requires
        all_wf(entries@, keys@),
    ensures
        positions(r@, entries@),
        r@.len() == entries@.len(),
        header && entries@.len() > 0 ==> r@[0] == 0,
        sorted(
            r@.skip(
                if header && entries@.len() > 0 {
                    1
                } else {
                    0
                },
            ),
            entries@,
            keys@,
        ),
{
    let first: usize = if header && entries.len() > 0 {
        1
    } else {
        0
    };
    let rest = sort_between(entries, keys, first, entries.len());
    let mut list: Vec<usize> = Vec::new();
    if first == 1 {
        list.push(0);
    }
    let ghost lead = list@;
    let mut tail = rest;
    let ghost ordered = tail@;
    proof {
        broadcast use vstd::seq_lib::group_to_multiset_ensures;

        let all = Seq::new(
            (entries@.len() - first) as nat,
            |i: int| (first + i) as usize,
        );
        assert(ordered.len() == ordered.to_multiset().len());
        assert(all.len() == all.to_multiset().len());
        assert forall|i: int| 0 <= i < ordered.len() implies #[trigger] ordered[i] >= first by {
            assert(ordered.contains(ordered[i]));
            assert(ordered.to_multiset().count(ordered[i]) > 0);
            assert(all.to_multiset().count(ordered[i]) > 0);
            assert(all.contains(ordered[i]));
        }
    }
    list.append(&mut tail);
    proof {
        assert(list@ =~= lead + ordered);
        assert(list@.skip(first as int) =~= ordered);
    }
    list
}

} // verus!
