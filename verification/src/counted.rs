//! Lengths, numbers and lists, whatever their size.
use crate::a1::{
    capital, column_value, columns_message, is_column_list, is_letters, letters_of, name_of,
    Address,
};
use crate::error::Error;
use crate::ods::{larger, preflight_rule, xlsx_extent};
use crate::records::{is_lead, line_feeds, reads_as};
use crate::save::{begins_with, holds_exactly, rows_read};
use crate::text::{all_digits, decimal, is_digit, number, parts, unsigned_of};
use crate::tree::value;
use crate::workbook::{address_of, cell_range_of, utf16_len, without_anchors, Format};
use crate::xml::Xml;
use vstd::prelude::*;

verus! {

/// A text with another behind it has the UTF-16 units of both. A character has one, or two
/// beyond the basic plane.
pub proof fn utf16_units_add_up(a: Seq<char>, b: Seq<char>, c: char)
    ensures
        utf16_len(a + b) == utf16_len(a) + utf16_len(b),
        utf16_len(seq![c]) == if c as int >= 0x10000 {
            2nat
        } else {
            1
        },
    decreases b.len(),
{
    if b.len() == 0 {
        assert(a + b =~= a);
    } else {
        utf16_units_add_up(a, b.drop_last(), c);
        assert((a + b).drop_last() =~= a + b.drop_last());
        assert((a + b).last() == b.last());
    }
    assert(seq![c].drop_last() =~= Seq::<char>::empty());
    assert(utf16_len(seq![c].drop_last()) == 0);
}

/// Bytes with others behind them have the line feeds of both.
pub proof fn line_feeds_add_up(a: Seq<u8>, b: Seq<u8>, c: u8)
    ensures
        line_feeds(a + b) == line_feeds(a) + line_feeds(b),
        line_feeds(seq![c]) == if c == 10 {
            1nat
        } else {
            0
        },
    decreases b.len(),
{
    if b.len() == 0 {
        assert(a + b =~= a);
    } else {
        line_feeds_add_up(a, b.drop_last(), c);
        assert((a + b).drop_last() =~= a + b.drop_last());
        assert((a + b).last() == b.last());
    }
    assert(seq![c].drop_last() =~= Seq::<u8>::empty());
    assert(line_feeds(seq![c].drop_last()) == 0);
}

/// The number of a run of digits goes digit by digit.
pub proof fn numbers_go_digit_by_digit(s: Seq<char>, c: char)
    requires
        is_digit(c),
    ensures
        number(s.push(c)) == number(s) * 10 + (c as int - '0' as int),
        number(Seq::empty()) == 0,
{
    assert(s.push(c).drop_last() =~= s);
}

proof fn digits_are_read(s: Seq<char>, n: int)
    requires
        0 <= n <= s.len(),
        forall|i: int| 0 <= i < n ==> is_digit(#[trigger] s[i]),
    ensures
        crate::text::digits_read(s, n) == (if number(s.take(n)) <= u64::MAX {
            Ok::<nat, Error>(number(s.take(n)))
        } else {
            Err(Error::NumberTooLarge)
        }),
    decreases n,
{
    if n > 0 {
        digits_are_read(s, n - 1);
        assert(s.take(n).drop_last() =~= s.take(n - 1));
        assert(s.take(n).last() == s[n - 1]);
        assert(is_digit(s[n - 1]));
    }
}

/// A text of digits reads as the number it stands for, after a plus sign too, and is refused
/// where that is too large. A number written in decimal reads back.
pub proof fn unsigned_numbers_are_read(s: Seq<char>, n: nat)
    requires
        s.len() > 0,
        all_digits(s),
        n <= u64::MAX,
    ensures
        unsigned_of(s) == (if number(s) <= u64::MAX {
            Ok::<nat, Error>(number(s))
        } else {
            Err(Error::NumberTooLarge)
        }),
        unsigned_of(seq!['+'] + s) == unsigned_of(s),
        unsigned_of(decimal(n)) == Ok::<nat, Error>(n),
{
    digits_are_read(s, s.len() as int);
    assert(s.take(s.len() as int) =~= s);
    assert(is_digit(s[0]));
    let plus = seq!['+'] + s;
    assert(plus.skip(1) =~= s);
    assert(plus != seq!['+']) by {
        assert(plus.len() > 1);
    }
    if s == seq!['+'] {
        assert(s[0] == '+');
    }
    crate::text::decimal_reads_back(n);
    let t = decimal(n);
    digits_are_read(t, t.len() as int);
    assert(t.take(t.len() as int) =~= t);
    assert(is_digit(t[0]));
    if t == seq!['+'] {
        assert(t[0] == '+');
    }
}

/// A text is its parts with the separator between them.
pub open spec fn parts_joined(list: Seq<Seq<char>>, c: char) -> Seq<char>
    decreases list.len(),
{
    if list.len() == 0 {
        Seq::empty()
    } else if list.len() == 1 {
        list[0]
    } else {
        list[0] + seq![c] + parts_joined(list.skip(1), c)
    }
}

/// Taking a text apart loses nothing: its parts, with the separator between them, are the
/// text, and no part holds the separator.
pub proof fn parts_make_up_the_text(s: Seq<char>, c: char, k: int)
    ensures
        parts(s, c).len() > 0,
        parts_joined(parts(s, c), c) == s,
        0 <= k < parts(s, c).len() ==> forall|i: int|
            0 <= i < parts(s, c)[k].len() ==> parts(s, c)[k][i] != c,
    decreases s.len(),
{
    let n = crate::text::first_of(s, c);
    crate::text::first_of_bounds(s, c);
    if 0 <= k < parts(s, c).len() {
        crate::text::parts_are_free(s, c, k);
    }
    if n < s.len() {
        let rest = s.skip(n + 1);
        parts_make_up_the_text(rest, c, 0);
        let list = parts(s, c);
        assert(list.skip(1) =~= parts(rest, c));
        assert(list[0] == s.take(n));
        assert(parts_joined(list, c) =~= s.take(n) + seq![c] + rest);
        assert(s.take(n) + seq![c] + rest =~= s);
    }
}

/// A list of columns is read where every part is column letters, and gives every column that
/// is named, each once and in order.
pub proof fn every_listed_column_is_read(s: Seq<char>, columns: Seq<usize>, k: int, c: usize)
    requires
        is_column_list(parts(s, ','), columns),
        columns_message(parts(s, ','), parts(s, ',').len() as int) is None,
    ensures
        0 <= k < parts(s, ',').len() ==> is_letters(parts(s, ',')[k]) && column_value(
            parts(s, ',')[k],
        ) <= usize::MAX && columns.contains((column_value(parts(s, ',')[k]) - 1) as usize),
        columns.contains(c) ==> exists|i: int|
            0 <= i < parts(s, ',').len() && column_value(#[trigger] parts(s, ',')[i]) == c + 1,
        forall|i: int, j: int| 0 <= i < j < columns.len() ==> columns[i] < columns[j],
{
    let list = parts(s, ',');
    if 0 <= k < list.len() {
        every_part_is_letters(list, list.len() as int, k);
        crate::a1::column_letters_read_back(list[k]);
        let col = (column_value(list[k]) - 1) as usize;
        assert(column_value(list[k]) == col + 1);
        assert(columns.contains(col));
    }
}

proof fn every_part_is_letters(list: Seq<Seq<char>>, n: int, k: int)
    requires
        columns_message(list, n) is None,
        0 <= k < n <= list.len(),
    ensures
        is_letters(list[k]) && column_value(list[k]) <= usize::MAX,
    decreases n,
{
    if k < n - 1 {
        every_part_is_letters(list, n - 1, k);
    }
}

/// A cell reads the same in capital and in small letters.
pub proof fn small_letters_name_the_same_column(s: Seq<char>)
    requires
        is_letters(s),
    ensures
        column_value(s.map_values(|c: char| capital(c))) == column_value(s),
    decreases s.len(),
{
    let upper = s.map_values(|c: char| capital(c));
    if s.len() > 0 {
        assert(crate::a1::is_letter(s.last()));
        assert(upper.last() == capital(s.last()));
        if s.len() > 1 {
            assert(is_letters(s.drop_last())) by {
                assert forall|i: int| 0 <= i < s.len() - 1 implies crate::a1::is_letter(
                    #[trigger] s.drop_last()[i],
                ) by {
                    assert(crate::a1::is_letter(s[i]));
                }
            }
            small_letters_name_the_same_column(s.drop_last());
            assert(upper.drop_last() =~= s.drop_last().map_values(|c: char| capital(c)));
        } else {
            assert(upper.drop_last() =~= Seq::<char>::empty());
            assert(s.drop_last() =~= Seq::<char>::empty());
        }
    }
}

/// Dollar signs in a workbook address do not count.
pub proof fn anchors_do_not_count(a: Seq<char>, b: Seq<char>)
    ensures
        address_of(a + seq!['$'] + b) == address_of(a + b),
{
    let keep = |c: char| c != '$';
    assert((a + seq!['$'] + b).filter(keep) == (a + b).filter(keep)) by {
        Seq::filter_distributes_over_add(a + seq!['$'], b, keep);
        Seq::filter_distributes_over_add(a, seq!['$'], keep);
        Seq::filter_distributes_over_add(a, b, keep);
        assert(seq!['$'].filter(keep) =~= Seq::<char>::empty()) by {
            reveal(Seq::filter);
            let one = seq!['$'];
            assert(one.last() == '$');
            assert(one.drop_last() =~= Seq::<char>::empty());
            assert(one.drop_last().filter(keep) =~= Seq::<char>::empty());
        }
        assert(a.filter(keep) + Seq::<char>::empty() =~= a.filter(keep));
    }
}

/// The names of two cells of a sheet, the second not before the first in row or column, read
/// as the rectangle between them; the name of one reads as that cell.
pub proof fn workbook_ranges_read_back(a: Address, b: Address)
    requires
        a.0 <= b.0 < 1_048_576,
        a.1 <= b.1 < 16_384,
    ensures
        cell_range_of(name_of(a) + seq![':'] + name_of(b)) == Ok::<(Address, Address), Error>(
            (a, b),
        ),
        cell_range_of(name_of(a)) == Ok::<(Address, Address), Error>((a, a)),
{
    let s = name_of(a) + seq![':'] + name_of(b);
    address_reads_back(a);
    address_reads_back(b);
    range_is_split(name_of(a), name_of(b));
}

proof fn address_reads_back(at: Address)
    requires
        at.0 < 1_048_576,
        at.1 < 16_384,
    ensures
        address_of(name_of(at)) == Ok::<Address, Error>(at),
        forall|i: int| 0 <= i < name_of(at).len() ==> #[trigger] name_of(at)[i] != ':',
{
    name_is_plain(at);
    crate::a1::cell_name_reads_back(at);
}

proof fn range_is_split(x: Seq<char>, y: Seq<char>)
    requires
        forall|i: int| 0 <= i < x.len() ==> #[trigger] x[i] != ':',
    ensures
        crate::a1::ends_of(x + seq![':'] + y) == (x, y),
        crate::a1::ends_of(x) == (x, x),
{
    let s = x + seq![':'] + y;
    let n = x.len() as int;
    assert forall|i: int| 0 <= i < n implies s[i] != ':' by {
        assert(s[i] == x[i]);
    }
    crate::text::first_of_is(s, ':', n);
    assert(s.take(n) =~= x);
    assert(s.skip(n + 1) =~= y);
    crate::text::first_of_is(x, ':', n);
}

/// The name of a cell holds no colon and no dollar sign.
proof fn name_is_plain(at: Address)
    ensures
        forall|i: int|
            0 <= i < name_of(at).len() ==> #[trigger] name_of(at)[i] != ':' && name_of(at)[i]
                != '$',
        without_anchors(name_of(at)) == name_of(at),
{
    let letters = letters_of(at.1 as nat);
    let digits = decimal(at.0 as nat + 1);
    crate::a1::column_name_reads_back(at.1 as nat);
    crate::text::decimal_reads_back(at.0 as nat + 1);
    assert forall|i: int| 0 <= i < name_of(at).len() implies #[trigger] name_of(at)[i] != ':'
        && name_of(at)[i] != '$' by {
        if i < letters.len() {
            assert(crate::a1::is_letter(letters[i]));
        } else {
            assert(is_digit(digits[i - letters.len()]));
        }
    }
    nothing_is_taken_out(name_of(at));
}

proof fn nothing_is_taken_out(s: Seq<char>)
    requires
        forall|i: int| 0 <= i < s.len() ==> #[trigger] s[i] != '$',
    ensures
        without_anchors(s) == s,
    decreases s.len(),
{
    reveal(Seq::filter);
    if s.len() > 0 {
        nothing_is_taken_out(s.drop_last());
        assert(s.last() == s[s.len() - 1]);
        assert(s.drop_last().push(s.last()) =~= s);
    } else {
        assert(without_anchors(s) =~= s);
    }
}

/// A sheet of an XLSX workbook is opened only where every cell has an address and the
/// rectangle up to the last row and column is no larger than is imported.
pub proof fn sheets_beyond_the_limit_are_refused(doc: Xml, rows: int, cols: int)
    requires
        forall|n: int|
            0 <= n < doc.nodes@.len() && (#[trigger] doc.nodes@[n]).name@ == "c"@ ==> (value(
                doc,
                n,
                "r"@,
            ) matches Some(r) && (address_of(r) matches Ok(at) && at.0 < rows && at.1 < cols)),
        rows == 0 || exists|n: int|
            0 <= n < doc.nodes@.len() && (#[trigger] doc.nodes@[n]).name@ == "c"@ && (address_of(
                value(doc, n, "r"@)->0,
            ) matches Ok(at) && at.0 + 1 == rows),
        cols == 0 || exists|n: int|
            0 <= n < doc.nodes@.len() && (#[trigger] doc.nodes@[n]).name@ == "c"@ && (address_of(
                value(doc, n, "r"@)->0,
            ) matches Ok(at) && at.1 + 1 == cols),
        rows >= 0,
        cols >= 0,
    ensures
        preflight_rule(doc, Format::Xlsx) == (if rows <= 1_048_576 && cols <= 16_384 && rows * cols
            <= 5_000_000 {
            Ok::<(), Error>(())
        } else {
            Err(Error::WorkbookCells)
        }),
{
    extent_is_largest(doc, 0, 0, 0, rows, cols);
    let (r, c) = xlsx_extent(doc, 0, 0, 0)->Ok_0;
    if rows > 0 {
        let n = choose|n: int|
            0 <= n < doc.nodes@.len() && (#[trigger] doc.nodes@[n]).name@ == "c"@ && (address_of(
                value(doc, n, "r"@)->0,
            ) matches Ok(at) && at.0 + 1 == rows);
        extent_reaches(doc, 0, 0, 0, n);
    }
    if cols > 0 {
        let n = choose|n: int|
            0 <= n < doc.nodes@.len() && (#[trigger] doc.nodes@[n]).name@ == "c"@ && (address_of(
                value(doc, n, "r"@)->0,
            ) matches Ok(at) && at.1 + 1 == cols);
        extent_reaches(doc, 0, 0, 0, n);
    }
}

proof fn extent_is_largest(doc: Xml, i: int, r: int, c: int, rows: int, cols: int)
    requires
        0 <= i <= doc.nodes@.len(),
        0 <= r <= rows,
        0 <= c <= cols,
        forall|n: int|
            0 <= n < doc.nodes@.len() && (#[trigger] doc.nodes@[n]).name@ == "c"@ ==> (value(
                doc,
                n,
                "r"@,
            ) matches Some(text) && (address_of(text) matches Ok(at) && at.0 < rows && at.1
                < cols)),
    ensures
        xlsx_extent(doc, i, r, c) matches Ok(x) && r <= x.0 <= rows && c <= x.1 <= cols,
    decreases doc.nodes@.len() - i,
{
    if i < doc.nodes@.len() {
        if doc.nodes@[i].name@ != "c"@ {
            extent_is_largest(doc, i + 1, r, c, rows, cols);
        } else {
            let at = address_of(value(doc, i, "r"@)->0)->Ok_0;
            extent_is_largest(
                doc,
                i + 1,
                larger(r, at.0 + 1),
                larger(c, at.1 + 1),
                rows,
                cols,
            );
        }
    }
}

proof fn extent_reaches(doc: Xml, i: int, r: int, c: int, n: int)
    requires
        0 <= i <= n < doc.nodes@.len(),
        xlsx_extent(doc, i, r, c) is Ok,
        doc.nodes@[n].name@ == "c"@,
    ensures
        address_of(value(doc, n, "r"@)->0) matches Ok(at) ==> (xlsx_extent(doc, i, r, c)->Ok_0).0
            >= at.0 + 1 && (xlsx_extent(doc, i, r, c)->Ok_0).1 >= at.1 + 1,
    decreases n - i,
{
    if doc.nodes@[i].name@ != "c"@ {
        extent_reaches(doc, i + 1, r, c, n);
    } else {
        let at = address_of(value(doc, i, "r"@)->0)->Ok_0;
        if i < n {
            extent_reaches(doc, i + 1, larger(r, at.0 + 1), larger(c, at.1 + 1), n);
        } else {
            extent_grows(doc, i + 1, larger(r, at.0 + 1), larger(c, at.1 + 1));
        }
    }
}

proof fn extent_grows(doc: Xml, i: int, r: int, c: int)
    requires
        0 <= i,
    ensures
        xlsx_extent(doc, i, r, c) matches Ok(x) ==> x.0 >= r && x.1 >= c,
    decreases doc.nodes@.len() - i,
{
    if i < doc.nodes@.len() {
        if doc.nodes@[i].name@ != "c"@ {
            extent_grows(doc, i + 1, r, c);
        } else if value(doc, i, "r"@) is Some && address_of(value(doc, i, "r"@)->0) is Ok {
            let at = address_of(value(doc, i, "r"@)->0)->Ok_0;
            extent_grows(doc, i + 1, larger(r, at.0 + 1), larger(c, at.1 + 1));
        }
    }
}

/// Contents one after another, each on a line of its own.
pub open spec fn as_lines(contents: Seq<Seq<u8>>, n: int) -> Seq<u8>
    decreases n,
{
    if n <= 0 {
        Seq::empty()
    } else {
        as_lines(contents, n - 1) + contents[n - 1] + seq![10u8]
    }
}

/// A source of any number of lines holds a record for each, with the values that the line
/// reads as, and no other.
pub proof fn every_line_is_a_record(
    contents: Seq<Seq<u8>>,
    delimiter: u8,
    rows: Seq<Seq<Seq<char>>>,
)
    requires
        contents.len() == rows.len(),
        forall|i: int|
            0 <= i < rows.len() ==> reads_as(#[trigger] contents[i], delimiter, rows[i]),
        forall|i: int| 0 <= i < rows.len() ==> (#[trigger] contents[i]).len() > 0,
        contents.len() > 0 ==> !crate::records::has_mark(contents[0]),
    ensures
        holds_exactly(as_lines(contents, contents.len() as int), delimiter, rows),
{
    let n = contents.len() as int;
    let data = as_lines(contents, n);
    lines_are_read(contents, delimiter, rows, n);
    assert(rows.take(n) =~= rows);
    assert(rows_read(data, Seq::empty(), delimiter, rows));
    assert(data + Seq::<u8>::empty() =~= data);
}

proof fn lines_are_read(
    contents: Seq<Seq<u8>>,
    delimiter: u8,
    rows: Seq<Seq<Seq<char>>>,
    n: int,
)
    requires
        0 <= n <= contents.len() == rows.len(),
        forall|i: int|
            0 <= i < rows.len() ==> reads_as(#[trigger] contents[i], delimiter, rows[i]),
        forall|i: int| 0 <= i < rows.len() ==> (#[trigger] contents[i]).len() > 0,
        contents.len() > 0 ==> !crate::records::has_mark(contents[0]),
    ensures
        begins_with(as_lines(contents, n), delimiter, rows.take(n)),
        n > 0 ==> as_lines(contents, n).len() > 0 && as_lines(contents, n).last() == 10,
    decreases n,
{
    if n == 0 {
        crate::save::nothing_read(delimiter);
        assert(rows.take(0) =~= Seq::empty());
    } else {
        lines_are_read(contents, delimiter, rows, n - 1);
        let before = as_lines(contents, n - 1);
        let none = Seq::<u8>::empty();
        assert(is_lead(none)) by {
            assert(none.skip(0) =~= none);
        }
        crate::save::record_follows(
            before,
            delimiter,
            rows.take(n - 1),
            none,
            contents[n - 1],
            10u8,
            rows[n - 1],
        );
        assert(before + none + contents[n - 1] + seq![10u8] =~= as_lines(contents, n));
        assert(rows.take(n) =~= rows.take(n - 1).push(rows[n - 1]));
    }
}

/// Letters and digits behind them are the cell in the column that the letters name and in the
/// row of that number.
pub proof fn cells_are_letters_and_digits(letters: Seq<char>, digits: Seq<char>)
    requires
        is_letters(letters),
        column_value(letters) <= usize::MAX,
        digits.len() > 0,
        all_digits(digits),
        1 <= number(digits) <= u64::MAX,
    ensures
        crate::a1::cell_of(letters + digits) matches Ok(at) && at.0 + 1 == number(digits) && at.1
            + 1 == column_value(letters),
{
    let s = letters + digits;
    let n = letters.len() as int;
    assert forall|i: int| 0 <= i < n implies !is_digit(s[i]) by {
        assert(crate::a1::is_letter(letters[i]));
        assert(s[i] == letters[i]);
    }
    assert(is_digit(digits[0]));
    assert(s[n] == digits[0]);
    first_digit_is(s, n);
    assert(s.take(n) =~= letters);
    assert(s.skip(n) =~= digits);
    crate::a1::column_letters_read_back(letters);
}

proof fn first_digit_is(s: Seq<char>, n: int)
    requires
        0 <= n < s.len(),
        forall|i: int| 0 <= i < n ==> !is_digit(s[i]),
        is_digit(s[n]),
    ensures
        crate::a1::first_digit(s) == n,
    decreases n,
{
    if n > 0 {
        assert(!is_digit(s[0]));
        let rest = s.skip(1);
        assert forall|i: int| 0 <= i < n - 1 implies !is_digit(rest[i]) by {
            assert(!is_digit(s[i + 1]));
        }
        first_digit_is(rest, n - 1);
    }
}

} // verus!
