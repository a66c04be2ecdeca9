//! A1 coordinates, zero-based. The one parser and formatter for columns, cells and
//! ranges; callers with their own wording map `A1Error` to it.
use crate::text::{chars, decimal_text, digit_char, find_char, joined, parse_number, split, string};
use vstd::prelude::*;

verus! {

/// Zero-based `(row, column)`.
pub type Address = (u64, usize);

/// Inclusive rectangle from `first` (top-left) to `last` (bottom-right).
#[derive(Clone, Copy, Debug, PartialEq, Eq)]
pub struct Range {
    pub first: Address,
    pub last: Address,
}

/// Why an address, a range or a column list does not read.
#[derive(Clone, Debug, PartialEq, Eq)]
pub enum A1Error {
    /// Column text that is empty or not only ASCII letters.
    Letters(String),
    /// Column letters beyond `usize`.
    ColumnTooLarge,
    /// A cell that is not letters followed by digits.
    Cell,
    /// Row digits beyond `u64`.
    RowTooLarge,
    /// Row 0.
    RowZero,
    /// A range whose first cell is below or right of its last.
    Reversed,
}

/// An ASCII letter.
pub open spec fn is_letter(c: char) -> bool {
    'a' <= c <= 'z' || 'A' <= c <= 'Z'
}

/// One or more ASCII letters.
pub open spec fn is_letters(s: Seq<char>) -> bool {
    s.len() > 0 && forall|i: int| 0 <= i < s.len() ==> is_letter(#[trigger] s[i])
}

/// `A` or `a` is 1, `Z` or `z` is 26.
pub open spec fn letter_value(c: char) -> nat {
    if 'a' <= c <= 'z' {
        (c as nat - 96) as nat
    } else {
        (c as nat - 64) as nat
    }
}

/// One-based number of the column with the given letters: A is 1, Z is 26, AA is 27.
pub open spec fn column_value(s: Seq<char>) -> nat
    decreases s.len(),
{
    if s.len() == 0 {
        0
    } else {
        column_value(s.drop_last()) * 26 + letter_value(s.last())
    }
}

/// Letters of a column whose one-based number fits in `usize`.
pub open spec fn is_column(s: Seq<char>) -> bool {
    is_letters(s) && column_value(s) <= usize::MAX
}

/// What reading `s` as column letters gives.
pub open spec fn column_result(s: Seq<char>, r: Result<usize, A1Error>) -> bool {
    match r {
        Ok(column) => is_column(s) && column + 1 == column_value(s),
        Err(A1Error::Letters(text)) => !is_letters(s) && text@ == s,
        Err(A1Error::ColumnTooLarge) => is_letters(s) && column_value(s) > usize::MAX,
        Err(_) => false,
    }
}

/// The letter of a zero-based column below 26.
pub open spec fn letter(d: nat) -> char {
    (65 + d) as char
}

/// Column letters of a zero-based index: 0 is A, 26 is AA.
pub open spec fn letters_of(col: nat) -> Seq<char>
    decreases col,
{
    if col < 26 {
        seq![letter(col)]
    } else {
        letters_of((col / 26 - 1) as nat).push(letter(col % 26))
    }
}

/// The ASCII capital of a letter; any other character as it is.
pub open spec fn capital(c: char) -> char {
    if 'a' <= c <= 'z' {
        (c as nat - 32) as char
    } else {
        c
    }
}

/// A column index has a name of letters, and reading the name gives the index back.
pub proof fn column_name_reads_back(col: nat)
    ensures
        is_letters(letters_of(col)),
        column_value(letters_of(col)) == col + 1,
    decreases col,
{
    let s = letters_of(col);
    if col < 26 {
        assert(s.drop_last() =~= Seq::empty());
        assert(column_value(s.drop_last()) == 0);
    } else {
        let rest = (col / 26 - 1) as nat;
        column_name_reads_back(rest);
        assert(s.drop_last() =~= letters_of(rest));
        assert forall|i: int| 0 <= i < s.len() implies is_letter(#[trigger] s[i]) by {
            if i < s.len() - 1 {
                assert(s[i] == letters_of(rest)[i]);
            }
        }
    }
}

/// Reading column letters and naming the index gives the same letters in capitals.
pub proof fn column_letters_read_back(s: Seq<char>)
    requires
        is_letters(s),
    ensures
        column_value(s) > 0,
        letters_of((column_value(s) - 1) as nat) == s.map_values(|c: char| capital(c)),
    decreases s.len(),
{
    let upper = s.map_values(|c: char| capital(c));
    let last = letter_value(s.last());
    assert(is_letter(s.last()));
    if s.len() == 1 {
        assert(column_value(s.drop_last()) == 0);
        assert(letters_of((column_value(s) - 1) as nat) =~= upper);
    } else {
        let rest = s.drop_last();
        assert forall|i: int| 0 <= i < rest.len() implies is_letter(#[trigger] rest[i]) by {
            assert(rest[i] == s[i]);
        }
        column_letters_read_back(rest);
        let n = (column_value(s) - 1) as nat;
        let high = column_value(rest);
        assert(n == high * 26 + (last - 1));
        assert(n / 26 == high && n % 26 == last - 1) by (nonlinear_arith)
            requires
                n == high * 26 + (last - 1),
                1 <= last <= 26,
        ;
        assert(letters_of(n) =~= upper);
    }
}

/// Of two texts of one length of which the first sorts before the second, the first does so
/// whatever follows them.
proof fn sorts_before_goes_on(a: Seq<char>, b: Seq<char>, x: char, y: char)
    requires
        a.len() == b.len(),
        crate::text::sorts_before(a, b) || a == b && x < y,
    ensures
        crate::text::sorts_before(a.push(x), b.push(y)),
    decreases a.len(),
{
    let (p, q) = (a.push(x), b.push(y));
    if a.len() == 0 {
        assert(p[0] == x && q[0] == y);
    } else {
        assert(p[0] == a[0] && q[0] == b[0]);
        assert(p.skip(1) =~= a.skip(1).push(x));
        assert(q.skip(1) =~= b.skip(1).push(y));
        if a[0] == b[0] {
            sorts_before_goes_on(a.skip(1), b.skip(1), x, y);
        }
    }
}

/// The letters of a later column are longer, or as long and sort after.
pub proof fn column_names_grow(a: nat, b: nat)
    requires
        a < b,
    ensures
        letters_of(a).len() < letters_of(b).len() || letters_of(a).len() == letters_of(b).len()
            && crate::text::sorts_before(letters_of(a), letters_of(b)),
    decreases b,
{
    if b < 26 {
        assert(letters_of(a)[0] == letter(a) && letters_of(b)[0] == letter(b));
    } else if a < 26 {
        column_name_reads_back((b / 26 - 1) as nat);
    } else {
        let (p, q) = ((a / 26 - 1) as nat, (b / 26 - 1) as nat);
        if p < q {
            column_names_grow(p, q);
        }
        if letters_of(p).len() == letters_of(q).len() {
            sorts_before_goes_on(letters_of(p), letters_of(q), letter(a % 26), letter(b % 26));
        }
    }
}

/// More letters never make a smaller column.
proof fn column_value_grows(s: Seq<char>, n: int)
    requires
        0 <= n <= s.len(),
    ensures
        column_value(s.take(n)) <= column_value(s),
    decreases s.len(),
{
    if n == s.len() {
        assert(s.take(n) =~= s);
    } else {
        assert(s.take(n) =~= s.drop_last().take(n));
        column_value_grows(s.drop_last(), n);
    }
}

/// Zero-based index of column letters, case-insensitive. Unbounded: CSV records may be
/// wider than XLSX's XFD; workbooks enforce their own column limit on edits.
pub fn column_index(letters: &str) -> (r: Result<usize, A1Error>)
    ensures
        column_result(letters@, r),
{
    let all = chars(letters);
    if all.len() == 0 {
        return Err(A1Error::Letters(letters.to_owned()));
    }
    let mut i: usize = 0;
    while i < all.len()
        invariant
            i <= all@.len(),
            all@ == letters@,
            forall|k: int| 0 <= k < i ==> is_letter(#[trigger] all@[k]),
        decreases all@.len() - i,
    {
        let c = all[i];
        if !('a' <= c && c <= 'z' || 'A' <= c && c <= 'Z') {
            assert(!is_letter(letters@[i as int]));
            return Err(A1Error::Letters(letters.to_owned()));
        }
        i = i + 1;
    }
    let mut column: usize = 0;
    let mut n: usize = 0;
    while n < all.len()
        invariant
            n <= all@.len(),
            all@ == letters@,
            is_letters(all@),
            column == column_value(all@.take(n as int)),
            n > 0 ==> column > 0,
        decreases all@.len() - n,
    {
        let c = all[n];
        proof {
            assert(is_letter(all@[n as int]));
            assert(all@.take(n + 1).drop_last() =~= all@.take(n as int));
            column_value_grows(all@, n + 1);
        }
        let value: usize = if 'a' <= c && c <= 'z' {
            c as usize - 96
        } else {
            c as usize - 64
        };
        match column.checked_mul(26) {
            Some(shifted) => match shifted.checked_add(value) {
                Some(sum) => {
                    column = sum;
                },
                None => {
                    return Err(A1Error::ColumnTooLarge);
                },
            },
            None => {
                return Err(A1Error::ColumnTooLarge);
            },
        }
        n = n + 1;
    }
    proof {
        assert(all@.take(all@.len() as int) =~= all@);
    }
    Ok(column - 1)
}

/// Column letters of a zero-based index: 0 is A, 26 is AA.
pub fn column_name(col: usize) -> (r: String)
    ensures
        r@ == letters_of(col as nat),
    decreases col,
{
    let mut name = if col < 26 {
        String::new()
    } else {
        column_name(col / 26 - 1)
    };
    let d: u8 = 65 + (col % 26) as u8;
    name.push(d as char);
    proof {
        if col < 26 {
            assert(name@ =~= seq![letter(col as nat)]);
        }
    }
    name
}

/// Each number is larger than the one before it.
pub open spec fn ascending(list: Seq<usize>) -> bool {
    forall|i: int, j: int| 0 <= i < j < list.len() ==> list[i] < list[j]
}

/// Put `column` in its place in an ascending list, unless it is there already.
fn insert_column(list: &mut Vec<usize>, column: usize)
    requires
        ascending(old(list)@),
    ensures
        ascending(final(list)@),
        forall|c: usize| final(list)@.contains(c) <==> (old(list)@.contains(c) || c == column),
{
    let ghost before = list@;
    let mut i: usize = 0;
    while i < list.len() && list[i] < column
        invariant
            i <= list@.len(),
            list@ == before,
            forall|k: int| 0 <= k < i ==> list@[k] < column,
        decreases list@.len() - i,
    {
        i = i + 1;
    }
    if i < list.len() && list[i] == column {
        assert(before.contains(column));
        return;
    }
    list.insert(i, column);
    proof {
        assert(list@ =~= before.insert(i as int, column));
        assert(list@[i as int] == column);
        assert forall|c: usize| list@.contains(c) <==> (before.contains(c) || c == column) by {
            if before.contains(c) {
                let k = choose|k: int| 0 <= k < before.len() && before[k] == c;
                if k < i {
                    assert(list@[k] == c);
                } else {
                    assert(list@[k + 1] == c);
                }
            }
            if list@.contains(c) && c != column {
                let k = choose|k: int| 0 <= k < list@.len() && list@[k] == c;
                if k < i {
                    assert(before[k] == c);
                } else {
                    assert(before[k - 1] == c);
                }
            }
        }
    }
}

/// The columns of `list`, ascending and without duplicates.
pub fn distinct(list: &Vec<usize>) -> (r: Vec<usize>)
    ensures
        ascending(r@),
        forall|c: usize| r@.contains(c) <==> list@.contains(c),
{
    let mut columns: Vec<usize> = Vec::new();
    let mut i: usize = 0;
    while i < list.len()
        invariant
            i <= list@.len(),
            ascending(columns@),
            forall|c: usize| columns@.contains(c) <==> list@.take(i as int).contains(c),
        decreases list@.len() - i,
    {
        insert_column(&mut columns, list[i]);
        proof {
            let (a, b) = (list@.take(i as int), list@.take(i + 1));
            assert(b =~= a.push(list@[i as int]));
            assert forall|c: usize| columns@.contains(c) <==> b.contains(c) by {
                if a.contains(c) {
                    let k = choose|k: int| 0 <= k < a.len() && a[k] == c;
                    assert(b[k] == c);
                }
                if b.contains(c) {
                    let k = choose|k: int| 0 <= k < b.len() && b[k] == c;
                    if k < i {
                        assert(a[k] == c);
                    }
                }
                assert(b[i as int] == list@[i as int]);
            }
        }
        i = i + 1;
    }
    assert(list@.take(list@.len() as int) =~= list@);
    columns
}

/// What reading comma-separated column letters gives.
pub open spec fn columns_result(s: Seq<char>, r: Result<Vec<usize>, A1Error>) -> bool {
    let list = crate::text::parts(s, ',');
    match r {
        Ok(columns) => {
            &&& forall|i: int| 0 <= i < list.len() ==> is_column(#[trigger] list[i])
            &&& ascending(columns@)
            &&& forall|c: usize| #[trigger]
                columns@.contains(c) <==> exists|i: int|
                    0 <= i < list.len() && column_value(#[trigger] list[i]) == c + 1
        },
        Err(error) => exists|i: int|
            {
                &&& 0 <= i < list.len()
                &&& forall|j: int| 0 <= j < i ==> is_column(list[j])
                &&& column_result(#[trigger] list[i], Err(error))
            },
    }
}

/// Comma-separated column letters, sorted and without duplicates.
pub fn parse_columns(text: &str) -> (r: Result<Vec<usize>, A1Error>)
    ensures
        columns_result(text@, r),
{
    let list = split(text, ',');
    let ghost all = crate::text::parts(text@, ',');
    let mut found: Vec<usize> = Vec::new();
    let mut i: usize = 0;
    while i < list.len()
        invariant
            i == found@.len() <= list@.len(),
            crate::text::views(list@) == all,
            all == crate::text::parts(text@, ','),
            forall|k: int|
                0 <= k < i ==> is_column(#[trigger] all[k]) && found@[k] + 1 == column_value(
                    all[k],
                ),
        decreases list@.len() - i,
    {
        assert(all[i as int] == list@[i as int]@);
        match column_index(list[i].as_str()) {
            Ok(column) => {
                found.push(column);
            },
            Err(error) => {
                return Err(error);
            },
        }
        i = i + 1;
    }
    let columns = distinct(&found);
    proof {
        assert(list@.len() == all.len());
        assert forall|c: usize| #[trigger] columns@.contains(c) <==> exists|k: int|
            0 <= k < all.len() && column_value(#[trigger] all[k]) == c + 1 by {
            if columns@.contains(c) {
                let k = choose|k: int| 0 <= k < found@.len() && found@[k] == c;
                assert(column_value(all[k]) == c + 1);
            }
            if exists|k: int| 0 <= k < all.len() && column_value(#[trigger] all[k]) == c + 1 {
                let k = choose|k: int|
                    0 <= k < all.len() && column_value(#[trigger] all[k]) == c + 1;
                assert(is_column(all[k]));
                assert(found@[k] == c);
            }
        }
    }
    Ok(columns)
}

/// The position of the first decimal digit; the length where there is none.
pub open spec fn first_digit(s: Seq<char>) -> int
    decreases s.len(),
{
    if s.len() == 0 || crate::text::is_digit(s[0]) {
        0
    } else {
        1 + first_digit(s.skip(1))
    }
}

proof fn first_digit_is(s: Seq<char>, n: int)
    requires
        0 <= n <= s.len(),
        forall|i: int| 0 <= i < n ==> !crate::text::is_digit(s[i]),
        n < s.len() ==> crate::text::is_digit(s[n]),
    ensures
        first_digit(s) == n,
    decreases s.len(),
{
    if s.len() > 0 && !crate::text::is_digit(s[0]) {
        assert forall|i: int| 0 <= i < n - 1 implies !crate::text::is_digit(s.skip(1)[i]) by {
            assert(s.skip(1)[i] == s[i + 1]);
        }
        first_digit_is(s.skip(1), n - 1);
    }
}

/// The letters of a cell such as `B7`.
pub open spec fn cell_letters(s: Seq<char>) -> Seq<char> {
    s.take(first_digit(s))
}

/// The row digits of a cell such as `B7`.
pub open spec fn cell_digits(s: Seq<char>) -> Seq<char> {
    s.skip(first_digit(s))
}

/// Letters followed by digits.
pub open spec fn is_cell(s: Seq<char>) -> bool {
    &&& is_letters(cell_letters(s))
    &&& cell_digits(s).len() > 0
    &&& crate::text::all_digits(cell_digits(s))
}

/// What reading `s` as a cell gives. Syntax errors win over an oversized column, and
/// that over an oversized or zero row.
pub open spec fn cell_of(s: Seq<char>) -> Result<Address, A1Error> {
    let column = column_value(cell_letters(s));
    let row = crate::text::number(cell_digits(s));
    if !is_cell(s) {
        Err(A1Error::Cell)
    } else if column > usize::MAX {
        Err(A1Error::ColumnTooLarge)
    } else if row > u64::MAX {
        Err(A1Error::RowTooLarge)
    } else if row == 0 {
        Err(A1Error::RowZero)
    } else {
        Ok(((row - 1) as u64, (column - 1) as usize))
    }
}

/// A cell such as `B7` or `aa65`.
pub fn parse_cell(text: &str) -> (r: Result<Address, A1Error>)
    ensures
        r == cell_of(text@),
        r matches Ok(at) ==> at.0 < u64::MAX && at.1 < usize::MAX,
{
    let all = chars(text);
    let mut n: usize = 0;
    while n < all.len() && !digit_char(all[n])
        invariant
            n <= all@.len(),
            forall|k: int| 0 <= k < n ==> !crate::text::is_digit(all@[k]),
        decreases all@.len() - n,
    {
        n = n + 1;
    }
    proof {
        first_digit_is(text@, n as int);
    }
    if n == all.len() {
        return Err(A1Error::Cell);
    }
    let mut i: usize = n;
    while i < all.len()
        invariant
            n <= i <= all@.len(),
            n < all@.len(),
            all@ == text@,
            first_digit(text@) == n,
            forall|k: int| n <= k < i ==> crate::text::is_digit(all@[k]),
        decreases all@.len() - i,
    {
        if !digit_char(all[i]) {
            assert(cell_digits(text@)[i - n] == all@[i as int]);
            return Err(A1Error::Cell);
        }
        i = i + 1;
    }
    let letters = string(&all, 0, n);
    proof {
        assert(letters@ =~= cell_letters(text@));
        assert(cell_digits(text@) =~= all@.subrange(n as int, all@.len() as int));
    }
    let column = match column_index(letters.as_str()) {
        Ok(column) => column,
        Err(A1Error::Letters(_)) => {
            return Err(A1Error::Cell);
        },
        Err(error) => {
            return Err(error);
        },
    };
    proof {
        column_letters_read_back(letters@);
    }
    match parse_number(&all, n, all.len()) {
        None => Err(A1Error::RowTooLarge),
        Some(0) => Err(A1Error::RowZero),
        Some(row) => Ok((row - 1, column)),
    }
}

/// The name of a cell: column letters and the one-based row.
pub open spec fn name_of(at: Address) -> Seq<char> {
    letters_of(at.1 as nat) + crate::text::decimal(at.0 as nat + 1)
}

/// The A1 name of a cell.
pub fn cell_name(at: Address) -> (r: String)
    requires
        at.0 < u64::MAX,
    ensures
        r@ == name_of(at),
{
    let mut name = column_name(at.1);
    let row = decimal_text(at.0 + 1);
    name.append(row.as_str());
    name
}

/// Every cell with a name reads back from it, but for the one column whose one-based
/// number does not fit.
pub proof fn cell_name_reads_back(at: Address)
    requires
        at.0 < u64::MAX,
        at.1 < usize::MAX,
    ensures
        cell_of(name_of(at)) == Ok::<Address, A1Error>(at),
{
    let letters = letters_of(at.1 as nat);
    let digits = crate::text::decimal(at.0 as nat + 1);
    let name = letters + digits;
    column_name_reads_back(at.1 as nat);
    crate::text::decimal_reads_back(at.0 as nat + 1);
    assert forall|i: int| 0 <= i < letters.len() implies !crate::text::is_digit(name[i]) by {
        assert(is_letter(letters[i]));
    }
    assert(crate::text::is_digit(digits[0]));
    first_digit_is(name, letters.len() as int);
    assert(cell_letters(name) =~= letters);
    assert(cell_digits(name) =~= digits);
}

/// The column past every index has a name, but the name has no index.
pub proof fn last_column_name_is_too_large(row: u64)
    requires
        row < u64::MAX,
    ensures
        cell_of(name_of((row, usize::MAX))) == Err::<Address, A1Error>(A1Error::ColumnTooLarge),
{
    let at: Address = (row, usize::MAX);
    let letters = letters_of(at.1 as nat);
    let digits = crate::text::decimal(row as nat + 1);
    let name = letters + digits;
    column_name_reads_back(at.1 as nat);
    crate::text::decimal_reads_back(row as nat + 1);
    assert forall|i: int| 0 <= i < letters.len() implies !crate::text::is_digit(name[i]) by {
        assert(is_letter(letters[i]));
    }
    assert(crate::text::is_digit(digits[0]));
    first_digit_is(name, letters.len() as int);
    assert(cell_letters(name) =~= letters);
    assert(cell_digits(name) =~= digits);
}

/// The two ends of a range text: around its first colon, or the text twice.
pub open spec fn ends_of(s: Seq<char>) -> (Seq<char>, Seq<char>) {
    let n = crate::text::first_of(s, ':');
    if n < s.len() {
        (s.take(n), s.skip(n + 1))
    } else {
        (s, s)
    }
}

/// The two ends of `A1:B2`; a single cell is both ends.
pub fn split_range(text: &str) -> (r: (String, String))
    ensures
        (r.0@, r.1@) == ends_of(text@),
{
    let all = chars(text);
    let n = find_char(&all, 0, ':');
    assert(all@.skip(0) =~= text@);
    if n < all.len() {
        let (first, last) = (string(&all, 0, n), string(&all, n + 1, all.len()));
        assert(first@ =~= text@.take(n as int));
        assert(last@ =~= text@.skip(n + 1));
        (first, last)
    } else {
        (text.to_owned(), text.to_owned())
    }
}

/// The rectangle between two corners, unless they are the wrong way round.
pub open spec fn rectangle(first: Address, last: Address) -> Result<Range, A1Error> {
    if first.0 > last.0 || first.1 > last.1 {
        Err(A1Error::Reversed)
    } else {
        Ok(Range { first, last })
    }
}

/// What reading `s` as a range gives: the first error of its first end, its last end
/// and their order.
pub open spec fn range_of(s: Seq<char>) -> Result<Range, A1Error> {
    match cell_of(ends_of(s).0) {
        Err(error) => Err(error),
        Ok(first) => match cell_of(ends_of(s).1) {
            Err(error) => Err(error),
            Ok(last) => rectangle(first, last),
        },
    }
}

/// `A1:B2`, or a single cell as a one-cell range.
pub fn parse_range(text: &str) -> (r: Result<Range, A1Error>)
    ensures
        r == range_of(text@),
        r matches Ok(range) ==> range.last.0 < u64::MAX && range.last.1 < usize::MAX,
{
    let (first, last) = split_range(text);
    match parse_cell(first.as_str()) {
        Err(error) => Err(error),
        Ok(first) => match parse_cell(last.as_str()) {
            Err(error) => Err(error),
            Ok(last) => Range::new(first, last),
        },
    }
}

impl Range {
    /// The corners are the right way round.
    pub open spec fn wf(self) -> bool {
        self.first.0 <= self.last.0 && self.first.1 <= self.last.1
    }

    /// The rectangle between two corners, where they are the right way round.
    pub fn new(first: Address, last: Address) -> (r: Result<Self, A1Error>)
        ensures
            r == rectangle(first, last),
    {
        if first.0 > last.0 || first.1 > last.1 {
            return Err(A1Error::Reversed);
        }
        Ok(Self { first, last })
    }

    /// How many rows the range has.
    pub fn rows(&self) -> (r: u64)
        requires
            self.wf(),
            self.last.0 - self.first.0 < u64::MAX,
        ensures
            r == self.last.0 - self.first.0 + 1,
    {
        self.last.0 - self.first.0 + 1
    }

    /// How many columns the range has.
    pub fn columns(&self) -> (r: usize)
        requires
            self.wf(),
            self.last.1 - self.first.1 < usize::MAX,
        ensures
            r == self.last.1 - self.first.1 + 1,
    {
        self.last.1 - self.first.1 + 1
    }

    /// The A1 names of both corners.
    pub open spec fn name(self) -> Seq<char> {
        name_of(self.first) + ":"@ + name_of(self.last)
    }

    /// Always `first:last`, also for a single cell.
    pub fn to_string(&self) -> (r: String)
        requires
            self.first.0 < u64::MAX,
            self.last.0 < u64::MAX,
        ensures
            r@ == self.name(),
    {
        let mut name = cell_name(self.first);
        name.append(":");
        let last = cell_name(self.last);
        name.append(last.as_str());
        name
    }
}

/// A cell name holds no colon.
proof fn name_without_colon(at: Address)
    ensures
        forall|i: int| 0 <= i < name_of(at).len() ==> name_of(at)[i] != ':',
{
    let letters = letters_of(at.1 as nat);
    let digits = crate::text::decimal(at.0 as nat + 1);
    column_name_reads_back(at.1 as nat);
    crate::text::decimal_reads_back(at.0 as nat + 1);
    assert forall|i: int| 0 <= i < name_of(at).len() implies name_of(at)[i] != ':' by {
        if i < letters.len() {
            assert(is_letter(letters[i]));
        } else {
            assert(crate::text::is_digit(digits[i - letters.len()]));
        }
    }
}

/// The text of a range reads back as the range.
pub proof fn range_text_reads_back(range: Range)
    requires
        range.wf(),
        range.last.0 < u64::MAX,
        range.last.1 < usize::MAX,
    ensures
        range_of(range.name()) == Ok::<Range, A1Error>(range),
{
    reveal_strlit(":");
    let (a, b) = (name_of(range.first), name_of(range.last));
    let s = range.name();
    name_without_colon(range.first);
    assert(s[a.len() as int] == ':');
    assert forall|i: int| 0 <= i < a.len() implies s[i] != ':' by {
        assert(s[i] == a[i]);
    }
    crate::text::first_of_is(s, ':', a.len() as int);
    assert(s.take(a.len() as int) =~= a);
    assert(s.skip(a.len() as int + 1) =~= b);
    cell_name_reads_back(range.first);
    cell_name_reads_back(range.last);
}

/// The text of `value` as `{:?}` writes it: in double quotes, with escapes.
pub uninterp spec fn debug_text(value: Seq<char>) -> Seq<char>;

/// `format!` with `{:?}` writes a string in double quotes and escapes what does not print.
#[verifier::external_body]
pub(crate) fn quoted(value: &str) -> (r: String)
    ensures
        r@ == debug_text(value@),
{
    format!("{value:?}")
}

impl A1Error {
    /// The message shown for the error.
    pub open spec fn message(self) -> Seq<char> {
        match self {
            A1Error::Letters(letters) => "Use column letters such as B, not "@ + debug_text(
                letters@,
            ),
            A1Error::ColumnTooLarge => "Column address is too large"@,
            A1Error::Cell => "Use a cell address such as B7"@,
            A1Error::RowTooLarge => "number too large to fit in target type"@,
            A1Error::RowZero => "Rows start at 1"@,
            A1Error::Reversed => "Range must run from top-left to bottom-right"@,
        }
    }

    pub fn to_string(&self) -> (r: String)
        ensures
            r@ == self.message(),
    {
        match self {
            A1Error::Letters(letters) => joined(
                "Use column letters such as B, not ",
                quoted(letters.as_str()).as_str(),
            ),
            A1Error::ColumnTooLarge => "Column address is too large".to_owned(),
            A1Error::Cell => "Use a cell address such as B7".to_owned(),
            A1Error::RowTooLarge => "number too large to fit in target type".to_owned(),
            A1Error::RowZero => "Rows start at 1".to_owned(),
            A1Error::Reversed => "Range must run from top-left to bottom-right".to_owned(),
        }
    }
}

/// What reading column letters is refused for, if it is.
pub open spec fn column_message(s: Seq<char>) -> Option<Seq<char>> {
    if !is_letters(s) {
        Some("Use column letters such as B, not "@ + debug_text(s))
    } else if column_value(s) > usize::MAX {
        Some(A1Error::ColumnTooLarge.message())
    } else {
        None
    }
}

/// The message for the first of `n` column texts that is refused.
pub open spec fn columns_message(list: Seq<Seq<char>>, n: int) -> Option<Seq<char>>
    decreases n,
{
    if n <= 0 {
        None
    } else {
        match columns_message(list, n - 1) {
            Some(message) => Some(message),
            None => column_message(list[n - 1]),
        }
    }
}

/// `columns` are the columns that the list names, ascending.
pub open spec fn is_column_list(list: Seq<Seq<char>>, columns: Seq<usize>) -> bool {
    &&& ascending(columns)
    &&& forall|c: usize| #[trigger]
        columns.contains(c) <==> exists|i: int|
            0 <= i < list.len() && column_value(#[trigger] list[i]) == c + 1
}

/// The columns that a comma-separated list names, ascending.
pub open spec fn column_list(s: Seq<char>) -> Seq<usize> {
    choose|columns: Seq<usize>| is_column_list(crate::text::parts(s, ','), columns)
}

/// Ascending lists of the same columns are the same.
proof fn ascending_unique(a: Seq<usize>, b: Seq<usize>)
    requires
        ascending(a),
        ascending(b),
        forall|c: usize| a.contains(c) <==> b.contains(c),
    ensures
        a == b,
    decreases a.len(),
{
    if a.len() == 0 {
        if b.len() > 0 {
            assert(b.contains(b[0]));
        }
        assert(a =~= b);
    } else {
        assert(a.contains(a.last()));
        assert(b.contains(a.last()));
        assert(b.len() > 0);
        assert(b.contains(b.last()));
        assert(a.contains(b.last()));
        let i = choose|i: int| 0 <= i < a.len() && a[i] == b.last();
        let j = choose|j: int| 0 <= j < b.len() && b[j] == a.last();
        assert(a.last() == b.last());
        let (x, y) = (a.drop_last(), b.drop_last());
        assert forall|c: usize| x.contains(c) <==> y.contains(c) by {
            if x.contains(c) {
                let k = choose|k: int| 0 <= k < x.len() && x[k] == c;
                assert(a[k] == c);
                assert(b.contains(c));
                let l = choose|l: int| 0 <= l < b.len() && b[l] == c;
                assert(l < b.len() - 1);
                assert(y[l] == c);
            }
            if y.contains(c) {
                let k = choose|k: int| 0 <= k < y.len() && y[k] == c;
                assert(b[k] == c);
                assert(a.contains(c));
                let l = choose|l: int| 0 <= l < a.len() && a[l] == c;
                assert(l < a.len() - 1);
                assert(x[l] == c);
            }
        }
        ascending_unique(x, y);
        assert(a =~= x.push(a.last()));
        assert(b =~= y.push(b.last()));
    }
}

proof fn columns_message_is(list: Seq<Seq<char>>, i: int, n: int)
    requires
        0 <= i <= n <= list.len(),
        forall|j: int| 0 <= j < i ==> is_column(#[trigger] list[j]),
        i < n ==> column_message(list[i]) is Some,
    ensures
        columns_message(list, n) == if i < n {
            column_message(list[i])
        } else {
            None
        },
    decreases n,
{
    if n > 0 {
        if i < n {
            columns_message_is(list, i, n - 1);
        } else {
            columns_message_is(list, i - 1, n - 1);
        }
    }
}

/// A column list that is read has the columns it names; one that is refused has the
/// message of its first text that is.
pub proof fn columns_result_is(s: Seq<char>, r: Result<Vec<usize>, A1Error>)
    requires
        columns_result(s, r),
    ensures
        ({
            let list = crate::text::parts(s, ',');
            match r {
                Ok(columns) => columns_message(list, list.len() as int) is None && columns@
                    == column_list(s),
                Err(error) => columns_message(list, list.len() as int) == Some(error.message()),
            }
        }),
{
    let list = crate::text::parts(s, ',');
    match r {
        Ok(columns) => {
            columns_message_is(list, list.len() as int, list.len() as int);
            assert(is_column_list(list, columns@));
            let chosen = column_list(s);
            assert(is_column_list(list, chosen));
            assert forall|c: usize| chosen.contains(c) <==> columns@.contains(c) by {}
            ascending_unique(chosen, columns@);
        },
        Err(error) => {
            let i = choose|i: int|
                {
                    &&& 0 <= i < list.len()
                    &&& forall|j: int| 0 <= j < i ==> is_column(list[j])
                    &&& column_result(#[trigger] list[i], Err(error))
                };
            columns_message_is(list, i, list.len() as int);
        },
    }
}

} // verus!
