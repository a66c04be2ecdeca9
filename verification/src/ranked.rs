//! What sorted order means for the texts of records.
use crate::error::Error;
use crate::sheet::Sheet;
use crate::sort::{
    exact_decimal, goes_before, rank_keys, rank_values, KeyView, Number, Rank, RecordRef, SortKey,
    NUMBER_BYTES,
};
use crate::text::{is_white_space, sorts_before, trimmed, trimmed_end, trimmed_start};
use crate::xml::utf8;
use vstd::prelude::*;

verus! {

/// There is no text, or nothing in it.
pub open spec fn is_blank(text: Option<Seq<char>>) -> bool {
    text matches Some(t) ==> t.len() == 0
}

/// A number as a whole number of the 28th decimal place.
pub open spec fn whole(number: Number) -> int {
    number.mantissa * vstd::arithmetic::power::pow(10, (28 - number.scale) as nat)
}

/// The number that stands in a text between white space, where one does.
pub open spec fn stands_for(text: Seq<char>, value: int) -> bool {
    exists|from: int, to: int|
        {
            &&& 0 <= from <= to <= text.len()
            &&& forall|i: int| 0 <= i < from ==> is_white_space(#[trigger] text[i])
            &&& forall|i: int| to <= i < text.len() ==> is_white_space(#[trigger] text[i])
            &&& from < to ==> !is_white_space(text[from]) && !is_white_space(text[to - 1])
            &&& (#[trigger] exact_decimal(text.subrange(from, to))) matches Some(number) && whole(
                number,
            ) == value
        }
}

/// Two texts tie in a column: both are blank, or neither is and they are the same text, or
/// stand for the same number.
pub open spec fn ties(a: Option<Seq<char>>, b: Option<Seq<char>>, numeric: bool) -> bool {
    if is_blank(a) || is_blank(b) {
        is_blank(a) && is_blank(b)
    } else if numeric {
        exists|n: int| #[trigger] stands_for(a->0, n) && stands_for(b->0, n)
    } else {
        a->0 == b->0
    }
}

/// The text without white space at its start is what follows that white space.
proof fn start_is_trimmed(s: Seq<char>) -> (n: int)
    ensures
        0 <= n <= s.len(),
        trimmed_start(s) == s.skip(n),
        forall|i: int| 0 <= i < n ==> is_white_space(#[trigger] s[i]),
        n < s.len() ==> !is_white_space(s[n]),
    decreases s.len(),
{
    if s.len() > 0 && is_white_space(s[0]) {
        let n = start_is_trimmed(s.skip(1));
        assert(s.skip(1).skip(n) =~= s.skip(n + 1));
        assert forall|i: int| 0 <= i < n + 1 implies is_white_space(#[trigger] s[i]) by {
            if i > 0 {
                assert(s[i] == s.skip(1)[i - 1]);
            }
        }
        n + 1
    } else {
        assert(s.skip(0) =~= s);
        0
    }
}

proof fn end_is_trimmed(s: Seq<char>) -> (n: int)
    ensures
        0 <= n <= s.len(),
        trimmed_end(s) == s.take(n),
        forall|i: int| n <= i < s.len() ==> is_white_space(#[trigger] s[i]),
        n > 0 ==> !is_white_space(s[n - 1]),
    decreases s.len(),
{
    if s.len() > 0 && is_white_space(s.last()) {
        let n = end_is_trimmed(s.drop_last());
        assert(s.drop_last().take(n) =~= s.take(n));
        assert forall|i: int| n <= i < s.len() implies is_white_space(#[trigger] s[i]) by {
            if i < s.len() - 1 {
                assert(s[i] == s.drop_last()[i]);
            }
        }
        n
    } else {
        assert(s.take(s.len() as int) =~= s);
        s.len() as int
    }
}

/// Trimming takes away the white space at both ends and nothing else.
pub proof fn trimming_takes_white_space(s: Seq<char>, from: int, to: int)
    requires
        0 <= from <= to <= s.len(),
        forall|i: int| 0 <= i < from ==> is_white_space(#[trigger] s[i]),
        forall|i: int| to <= i < s.len() ==> is_white_space(#[trigger] s[i]),
        from < to ==> !is_white_space(s[from]) && !is_white_space(s[to - 1]),
    ensures
        trimmed(s) == s.subrange(from, to),
{
    let n = start_is_trimmed(s);
    let rest = s.skip(n);
    let m = end_is_trimmed(rest);
    if from == to {
        if n < s.len() {
            assert(is_white_space(s[n]));
        }
        assert(rest.take(m) =~= s.subrange(from, to));
    } else {
        if n < from {
            assert(is_white_space(s[n]));
        } else if n > from {
            assert(is_white_space(s[from]));
        }
        if m < to - n {
            assert(is_white_space(rest[to - 1 - n]));
        } else if m > to - n {
            assert(is_white_space(s[n + m - 1]));
            assert(rest[m - 1] == s[n + m - 1]);
        }
        assert(rest.take(m) =~= s.subrange(from, to));
    }
}

/// A text stands for the number that is read where it is trimmed, and for no other.
proof fn trimmed_number(text: Seq<char>, number: Number)
    requires
        exact_decimal(trimmed(text)) == Some(number),
    ensures
        stands_for(text, whole(number)),
        forall|n: int| #[trigger] stands_for(text, n) ==> n == whole(number),
{
    let from = start_is_trimmed(text);
    let rest = text.skip(from);
    let length = end_is_trimmed(rest);
    let to = if length == 0 {
        from
    } else {
        from + length
    };
    assert forall|i: int| to <= i < text.len() implies is_white_space(#[trigger] text[i]) by {
        assert(text[i] == rest[i - from]);
    }
    if from < to {
        assert(rest[length - 1] == text[to - 1]);
        if from >= text.len() {
            assert(false);
        }
    }
    trimming_takes_white_space(text, from, to);
    assert(exact_decimal(text.subrange(from, to)) == Some(number));
    assert forall|n: int| #[trigger] stands_for(text, n) implies n == whole(number) by {
        let (a, b) = choose|a: int, b: int|
            {
                &&& 0 <= a <= b <= text.len()
                &&& forall|i: int| 0 <= i < a ==> is_white_space(#[trigger] text[i])
                &&& forall|i: int| b <= i < text.len() ==> is_white_space(#[trigger] text[i])
                &&& a < b ==> !is_white_space(text[a]) && !is_white_space(text[b - 1])
                &&& (#[trigger] exact_decimal(text.subrange(a, b))) matches Some(found) && whole(
                    found,
                ) == n
            };
        trimming_takes_white_space(text, a, b);
    }
}

/// Code points decide the order of texts: the first place where they differ, or else the
/// length.
pub proof fn texts_go_by_code_points(a: Seq<char>, b: Seq<char>, n: int)
    requires
        0 <= n <= a.len(),
        n <= b.len(),
        a.take(n) == b.take(n),
        n == a.len() || n == b.len() || a[n] != b[n],
    ensures
        sorts_before(a, b) == (if n == a.len() || n == b.len() {
            a.len() < b.len()
        } else {
            a[n] < b[n]
        }),
    decreases n,
{
    if n > 0 {
        assert(a[0] == a.take(n)[0]);
        assert(b[0] == b.take(n)[0]);
        assert(a.skip(1).take(n - 1) =~= a.take(n).skip(1));
        assert(b.skip(1).take(n - 1) =~= b.take(n).skip(1));
        texts_go_by_code_points(a.skip(1), b.skip(1), n - 1);
    }
}

/// Records rank by the first key in which they do not rank the same.
proof fn first_difference_decides(
    a: Seq<KeyView>,
    b: Seq<KeyView>,
    keys: Seq<SortKey>,
    i: int,
    k: int,
)
    requires
        0 <= i <= k <= keys.len(),
        forall|m: int|
            i <= m < k ==> rank_values(#[trigger] a[m], b[m], keys[m].descending) == Rank::Same,
    ensures
        rank_keys(a, b, keys, i) == rank_keys(a, b, keys, k),
    decreases k - i,
{
    if i < k {
        assert(rank_values(a[i], b[i], keys[i].descending) == Rank::Same);
        first_difference_decides(a, b, keys, i + 1, k);
    }
}

impl Sheet {
    /// A sort that is not refused has read every key of every record.
    proof fn keys_were_read(self, keys: Seq<SortKey>, header: bool, rows: int, row: int, k: int)
        requires
            self.sort_cost(keys, header, rows) is Ok,
            0 <= row < rows,
            0 <= k < keys.len(),
        ensures
            self.sort_key(row, keys[k], header) is Ok,
        decreases rows,
    {
        if row < rows - 1 {
            self.keys_were_read(keys, header, rows - 1, row, k);
        } else {
            let used = self.sort_cost(keys, header, rows - 1)->Ok_0;
            self.row_was_read(row, keys, header, keys.len() as int, used, k);
        }
    }

    proof fn row_was_read(
        self,
        row: int,
        keys: Seq<SortKey>,
        header: bool,
        n: int,
        used: int,
        k: int,
    )
        requires
            self.row_cost(row, keys, header, n, used) is Ok,
            0 <= k < n,
        ensures
            self.sort_key(row, keys[k], header) is Ok,
        decreases n,
    {
        if k < n - 1 {
            self.row_was_read(row, keys, header, n - 1, used, k);
        }
    }

    /// Texts that tie rank the same.
    proof fn ties_rank_same(self, a: int, b: int, key: SortKey, header: bool)
        requires
            self.sort_key(a, key, header) is Ok,
            self.sort_key(b, key, header) is Ok,
            header ==> a != 0 && b != 0,
            ties(self.current(a, key.column), self.current(b, key.column), key.numeric),
        ensures
            rank_values(
                self.sort_key(a, key, header)->Ok_0,
                self.sort_key(b, key, header)->Ok_0,
                key.descending,
            ) == Rank::Same,
    {
        let (x, y) = (self.current(a, key.column), self.current(b, key.column));
        if !is_blank(x) && key.numeric {
            let n = choose|n: int| #[trigger] stands_for(x->0, n) && stands_for(y->0, n);
            trimmed_number(x->0, exact_decimal(trimmed(x->0))->0);
            trimmed_number(y->0, exact_decimal(trimmed(y->0))->0);
        }
    }

    /// A sorted view goes by every key, whatever its place. Of two records that tie in all
    /// keys before one, that key decides: a blank comes last, texts go by their code points,
    /// numbers by their value, and a descending key turns all but the blanks round. Records
    /// that tie in every key stay in source order.
    pub proof fn every_key_orders_the_records(
        self,
        rows: Seq<RecordRef>,
        keys: Seq<SortKey>,
        header: bool,
        i: int,
        j: int,
        k: int,
    )
        requires
            self.sort_outcome(keys, header) is Ok,
            self.is_sorted(rows, keys, header),
            0 <= i < j < rows.len(),
            header ==> i > 0 && rows[i].row != 0 && rows[j].row != 0,
            rows[i].row < self.index.rows,
            rows[j].row < self.index.rows,
            0 <= k <= keys.len(),
            forall|m: int|
                0 <= m < k ==> ties(
                    self.current(rows[i].row as int, (#[trigger] keys[m]).column),
                    self.current(rows[j].row as int, keys[m].column),
                    keys[m].numeric,
                ),
        ensures
            k == keys.len() ==> rows[i].row < rows[j].row,
            k < keys.len() ==> {
                let a = self.current(rows[i].row as int, keys[k].column);
                let b = self.current(rows[j].row as int, keys[k].column);
                let down = keys[k].descending;
                &&& is_blank(a) ==> is_blank(b)
                &&& !is_blank(a) && !is_blank(b) && keys[k].numeric ==> exists|x: int, y: int|
                    {
                        &&& #[trigger] stands_for(a->0, x)
                        &&& #[trigger] stands_for(b->0, y)
                        &&& if down {
                            x >= y
                        } else {
                            x <= y
                        }
                    }
                &&& !is_blank(a) && !is_blank(b) && !keys[k].numeric ==> forall|n: int|
                    0 <= n < a->0.len() && n < b->0.len() && a->0.take(n) == b->0.take(n)
                        && #[trigger] a->0[n] != b->0[n] ==> (a->0[n] < b->0[n]) == !down
                &&& !is_blank(a) && !is_blank(b) && !keys[k].numeric && a->0.len() < b->0.len()
                    && b->0.take(a->0.len() as int) == a->0 ==> !down
                &&& !is_blank(a) && !is_blank(b) && !keys[k].numeric && b->0.len() < a->0.len()
                    && a->0.take(b->0.len() as int) == b->0 ==> down
            },
    {
        let (p, q) = (rows[i].row as int, rows[j].row as int);
        let x = self.sort_keys(p, keys, header);
        let y = self.sort_keys(q, keys, header);
        assert(goes_before(x, p, y, q, keys));
        assert forall|m: int| 0 <= m < k implies rank_values(
            #[trigger] x[m],
            y[m],
            keys[m].descending,
        ) == Rank::Same by {
            self.keys_were_read(keys, header, self.index.rows as int, p, m);
            self.keys_were_read(keys, header, self.index.rows as int, q, m);
            assert(ties(
                self.current(p, keys[m].column),
                self.current(q, keys[m].column),
                keys[m].numeric,
            ));
            self.ties_rank_same(p, q, keys[m], header);
        }
        first_difference_decides(x, y, keys, 0, k);
        if k < keys.len() {
            self.keys_were_read(keys, header, self.index.rows as int, p, k);
            self.keys_were_read(keys, header, self.index.rows as int, q, k);
            let a = self.current(p, keys[k].column);
            let b = self.current(q, keys[k].column);
            let down = keys[k].descending;
            assert(rank_values(x[k], y[k], down) != Rank::After);
            if !is_blank(a) && !is_blank(b) && keys[k].numeric {
                let (m, n) = (exact_decimal(trimmed(a->0))->0, exact_decimal(trimmed(b->0))->0);
                trimmed_number(a->0, m);
                trimmed_number(b->0, n);
                assert(whole(m) == m.units() && whole(n) == n.units());
                assert(stands_for(a->0, whole(m)) && stands_for(b->0, whole(n)));
            }
            if !is_blank(a) && !is_blank(b) && !keys[k].numeric {
                let (s, t) = (a->0, b->0);
                assert forall|n: int|
                    0 <= n < s.len() && n < t.len() && s.take(n) == t.take(n) && #[trigger] s[n]
                        != t[n] implies (s[n] < t[n]) == !down by {
                    texts_go_by_code_points(s, t, n);
                }
                if s.len() < t.len() && t.take(s.len() as int) == s {
                    assert(s.take(s.len() as int) =~= s);
                    texts_go_by_code_points(s, t, s.len() as int);
                }
                if t.len() < s.len() && s.take(t.len() as int) == t {
                    assert(t.take(t.len() as int) =~= t);
                    texts_go_by_code_points(s, t, t.len() as int);
                }
            }
        }
    }

    /// A sort that is not refused has a text of every sort column in the header, and a number
    /// of no more than 512 bytes in every numeric one that is not blank.
    pub proof fn sorted_columns_hold_numbers(
        self,
        keys: Seq<SortKey>,
        header: bool,
        row: int,
        k: int,
    )
        requires
            self.sort_outcome(keys, header) is Ok,
            0 <= row < self.index.rows,
            0 <= k < keys.len(),
        ensures
            self.indexed(),
            header && row == 0 ==> self.current(0, keys[k].column) is Some,
            !(header && row == 0) && keys[k].numeric && !is_blank(
                self.current(row, keys[k].column),
            ) ==> {
                let text = self.current(row, keys[k].column)->0;
                &&& utf8(trimmed(text)).len() <= NUMBER_BYTES
                &&& exists|n: int| stands_for(text, n)
            },
    {
        self.keys_were_read(keys, header, self.index.rows as int, row, k);
        let text = self.current(row, keys[k].column);
        if !(header && row == 0) && keys[k].numeric && !is_blank(text) {
            let number = exact_decimal(trimmed(text->0))->0;
            trimmed_number(text->0, number);
            assert(stands_for(text->0, whole(number)));
        }
    }

    /// A header stays the first record of a sorted view.
    pub proof fn header_stays_first(
        self,
        rows: Seq<RecordRef>,
        keys: Seq<SortKey>,
        i: int,
    )
        requires
            self.is_sorted(rows, keys, true),
            0 <= i < rows.len(),
            forall|a: int, b: int|
                0 <= a < b < rows.len() ==> (#[trigger] rows[a]).row != (#[trigger] rows[b]).row,
        ensures
            rows[i].row == 0 <==> i == 0,
    {
        if i > 0 {
            assert(rows[0].row != rows[i].row);
        }
    }

    /// A sort is refused for what a record holds only where it holds that: no text in a
    /// sort column of the header, a text that is no number in a numeric one, or more text
    /// than the budget takes.
    pub proof fn refused_sorts_have_a_reason(
        self,
        keys: Seq<SortKey>,
        header: bool,
        rows: int,
        error: Error,
    )
        requires
            self.sort_cost(keys, header, rows) == Err::<int, Error>(error),
            0 <= rows <= self.index.rows,
            forall|k: int| 0 <= k < keys.len() ==> (#[trigger] keys[k]).column < usize::MAX,
        ensures
            ({
                ||| error == Error::SortBudgetKept
                ||| exists|k: int|
                    {
                        &&& 0 <= k < keys.len()
                        &&& header
                        &&& self.current(0, (#[trigger] keys[k]).column) is None
                        &&& error == Error::OutsideHeader((keys[k].column + 1) as u64)
                    }
                ||| exists|row: int, k: int|
                    {
                        &&& 0 <= row < rows
                        &&& 0 <= k < keys.len()
                        &&& keys[k].numeric
                        &&& (#[trigger] self.current(row, keys[k].column)) matches Some(text)
                            && text.len() > 0 && (utf8(trimmed(text)).len() > NUMBER_BYTES
                            || exact_decimal(trimmed(text)) is None)
                        &&& error == Error::NotDecimal(
                            (row + 1) as u64,
                            (keys[k].column + 1) as u64,
                        )
                    }
            }),
        decreases rows,
    {
        if rows > 0 {
            match self.sort_cost(keys, header, rows - 1) {
                Err(_) => {
                    self.refused_sorts_have_a_reason(keys, header, rows - 1, error);
                },
                Ok(used) => {
                    self.refused_records_have_a_reason(
                        rows - 1,
                        keys,
                        header,
                        keys.len() as int,
                        used,
                        error,
                    );
                    if error != Error::SortBudgetKept {
                        let row = rows - 1;
                        let k = choose|k: int|
                            0 <= k < keys.len() && self.sort_key(row, #[trigger] keys[k], header)
                                == Err::<KeyView, Error>(error);
                        if header && row == 0 {
                            assert(self.current(0, keys[k].column) is None);
                        } else {
                            let text = self.current(row, keys[k].column);
                            assert(text matches Some(t) && t.len() > 0);
                        }
                    }
                },
            }
        }
    }

    proof fn refused_records_have_a_reason(
        self,
        row: int,
        keys: Seq<SortKey>,
        header: bool,
        n: int,
        used: int,
        error: Error,
    )
        requires
            self.row_cost(row, keys, header, n, used) == Err::<int, Error>(error),
            0 <= n <= keys.len(),
            forall|k: int| 0 <= k < keys.len() ==> (#[trigger] keys[k]).column < usize::MAX,
        ensures
            error == Error::SortBudgetKept || exists|k: int|
                0 <= k < keys.len() && self.sort_key(row, #[trigger] keys[k], header) == Err::<
                    KeyView,
                    Error,
                >(error),
        decreases n,
    {
        if n > 0 {
            match self.row_cost(row, keys, header, n - 1, used) {
                Err(_) => {
                    self.refused_records_have_a_reason(row, keys, header, n - 1, used, error);
                },
                Ok(_) => {
                    if self.sort_key(row, keys[n - 1], header) is Err {
                        assert(keys[n - 1] == keys[n - 1]);
                    }
                },
            }
        }
    }
}

} // verus!
