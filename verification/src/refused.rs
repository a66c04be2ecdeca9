//! What edits, saves and sorts are refused for, and what is not refused.
use crate::a1::{column_value, is_letters, Address};
use crate::cli::{combined, OptionsView, Outcome};
use crate::error::Error;
use crate::save::{holds_exactly, Destination};
use crate::sheet::Sheet;
use crate::sort::{key_of, key_parts, sort_result, KeyView, SortKey};
use crate::sorting::base_cost;
use crate::text::{is_white_space, parts};
use crate::workbook::{utf16_len, Workbook};
use vstd::prelude::*;

verus! {

/// A character that XML can hold.
pub open spec fn is_holdable(c: char) -> bool {
    let n = c as int;
    n == 9 || n == 10 || n == 13 || 0x20 <= n <= 0xd7ff || 0xe000 <= n <= 0xfffd || 0x10000 <= n
}

/// A cell of a workbook takes a text exactly where it is no formula, merged or array cell and
/// XML can hold the text. In XLSX the cell must also lie within the limits of a sheet, the
/// text must have at most 32,767 UTF-16 units, and a formula from 1 to 8,192 behind its `=`.
pub proof fn edits_are_refused_for_a_reason(book: Workbook, at: Address, value: Seq<char>)
    ensures
        book.edit_rule(at, value) is Ok <==> {
            &&& !book.formulas@.contains_key(at)
            &&& forall|i: int|
                0 <= i < book.protected@.len() ==> {
                    let (first, last) = #[trigger] book.protected@[i];
                    at.0 < first.0 || last.0 < at.0 || at.1 < first.1 || last.1 < at.1
                }
            &&& forall|i: int| 0 <= i < value.len() ==> is_holdable(#[trigger] value[i])
            &&& book.format is Xlsx ==> {
                &&& at.0 < 1_048_576 && at.1 < 16_384 && (at.0 + 1) * (at.1 + 1) <= 5_000_000
                &&& utf16_len(value) <= 32_767
                &&& value.len() > 0 && value[0] == '=' ==> 1 <= utf16_len(value.skip(1)) <= 8_192
            }
        },
{
    let xlsx = book.format is Xlsx;
    if value.len() > 0 && value[0] == '=' {
        if value.len() == 1 {
            assert(value =~= seq!['=']);
            assert(value.skip(1) =~= Seq::<char>::empty());
            assert(utf16_len(value.skip(1)) == 0);
        } else {
            assert(value != seq!['=']) by {
                assert(seq!['='].len() == 1);
            }
            let rest = value.skip(1);
            assert(utf16_len(rest) >= 1);
        }
    } else {
        assert(value != seq!['=']) by {
            assert(seq!['='][0] == '=');
        }
    }
    assert forall|i: int| 0 <= i < value.len() implies is_holdable(#[trigger] value[i])
        == crate::workbook::is_xml_char(value[i]) by {}
    assert(crate::workbook::all_xml_chars(value) <==> forall|i: int|
        0 <= i < value.len() ==> is_holdable(#[trigger] value[i])) by {
        if forall|i: int| 0 <= i < value.len() ==> is_holdable(#[trigger] value[i]) {
            assert forall|i: int| 0 <= i < value.len() implies crate::workbook::is_xml_char(
                #[trigger] value[i],
            ) by {
                assert(is_holdable(value[i]));
            }
        }
    }
    if !book.is_read_only(at) {
        assert forall|i: int| 0 <= i < book.protected@.len() implies ({
            let (first, last) = #[trigger] book.protected@[i];
            at.0 < first.0 || last.0 < at.0 || at.1 < first.1 || last.1 < at.1
        }) by {
            assert(!crate::workbook::in_rectangle(at, book.protected@[i]));
        }
    }
}

impl Sheet {
    /// A sheet can be saved exactly where all its records are read, to a file that is new or
    /// the source itself: CSV to no workbook, a workbook to CSV, or in source order to its
    /// own format.
    pub proof fn saves_are_refused_for_a_reason(self, to: Destination)
        ensures
            self.save_rule(to) is Ok <==> {
                &&& self.index.done && self.index.malformed is None
                &&& to.is_source || !to.exists
                &&& match self.workbook {
                    None => to.extension@ != "xlsx"@ && to.extension@ != "ods"@,
                    Some(book) => {
                        ||| to.extension@ == "csv"@
                        ||| self.order is None && book.format is Xlsx && to.extension@ == "xlsx"@
                        ||| self.order is None && book.format is Ods && to.extension@ == "ods"@
                    },
                }
            },
    {
    }

    /// An indexed sheet has every record that its source holds, with its values, and no
    /// other.
    pub proof fn indexed_sheets_have_every_record(self, rows: Seq<Seq<Seq<char>>>)
        requires
            self.wf(),
            self.indexed(),
            holds_exactly(self.data@, self.delimiter, rows),
        ensures
            self.index.rows == rows.len(),
            forall|i: int| 0 <= i < rows.len() ==> self.row(i) == #[trigger] rows[i],
    {
        let n = self.index.rows as nat;
        assert(crate::index::has_exactly(self.data@, self.delimiter, n));
        if n < rows.len() {
            assert(crate::records::readable(self.data@, self.delimiter, n));
        }
        if rows.len() < n {
            assert(crate::records::readable(self.data@, self.delimiter, rows.len()));
        }
    }

    proof fn row_cost_is_small(
        self,
        row: int,
        keys: Seq<SortKey>,
        header: bool,
        k: int,
        used: int,
        most: int,
    )
        requires
            0 <= k <= keys.len(),
            0 <= most,
            forall|c: int|
                0 <= c < keys.len() ==> (self.sort_key(row, #[trigger] keys[c], header) matches Ok(
                    key,
                ) && (key matches KeyView::Text(text) ==> vstd::utf8::encode_utf8(text).len()
                    <= most)),
            used + keys.len() * (most + 32) <= 536_870_912,
        ensures
            self.row_cost(row, keys, header, k, used) matches Ok(cost) && cost <= used + k * (most
                + 32),
        decreases k,
    {
        assert(k * (most + 32) <= keys.len() * (most + 32)) by (nonlinear_arith)
            requires
                0 <= k <= keys.len(),
                0 <= most,
        ;
        if k > 0 {
            self.row_cost_is_small(row, keys, header, k - 1, used, most);
            assert(k * (most + 32) == (k - 1) * (most + 32) + (most + 32)) by (nonlinear_arith);
            assert(self.sort_key(row, keys[k - 1], header) is Ok);
        }
    }

    proof fn sort_cost_is_small(self, keys: Seq<SortKey>, header: bool, rows: int, most: int)
        requires
            0 <= rows <= self.index.rows,
            0 <= most,
            forall|row: int, c: int|
                #![trigger self.sort_key(row, keys[c], header)]
                0 <= row < rows && 0 <= c < keys.len() ==> (self.sort_key(
                    row,
                    keys[c],
                    header,
                ) matches Ok(key) && (key matches KeyView::Text(text) ==> vstd::utf8::encode_utf8(
                    text,
                ).len() <= most)),
            self.index.rows * (48 + keys.len() * 24) + self.index.rows * (keys.len() * (most + 32))
                <= 536_870_912,
        ensures
            self.sort_cost(keys, header, rows) matches Ok(cost) && cost <= self.index.rows * (48
                + keys.len() * 24) + rows * (keys.len() * (most + 32)),
        decreases rows,
    {
        let width = keys.len() * (most + 32);
        assert(0 <= width) by (nonlinear_arith)
            requires
                width == keys.len() * (most + 32),
                0 <= most,
        ;
        if rows > 0 {
            self.sort_cost_is_small(keys, header, rows - 1, most);
            let used = self.sort_cost(keys, header, rows - 1)->Ok_0;
            assert(rows * width <= self.index.rows * width) by (nonlinear_arith)
                requires
                    rows <= self.index.rows,
                    0 <= width,
            ;
            assert(rows * width == (rows - 1) * width + width) by (nonlinear_arith);
            assert forall|c: int| 0 <= c < keys.len() implies (self.sort_key(
                rows - 1,
                #[trigger] keys[c],
                header,
            ) matches Ok(key) && (key matches KeyView::Text(text) ==> vstd::utf8::encode_utf8(
                text,
            ).len() <= most)) by {
                assert(self.sort_key(rows - 1, keys[c], header) is Ok);
            }
            self.row_cost_is_small(rows - 1, keys, header, keys.len() as int, used, most);
        } else {
            assert(0 * width == 0) by (nonlinear_arith);
        }
    }

    /// A sort of records whose keys can all be read is not refused while they fit in half a
    /// gibibyte: for each record 48 bytes, and for each of its keys 56 and its text.
    pub proof fn small_sorts_are_not_refused(self, keys: Seq<SortKey>, header: bool, most: int)
        requires
            self.wf(),
            self.indexed(),
            0 < keys.len(),
            keys.len() * 24 + 48 <= usize::MAX,
            0 <= most,
            forall|row: int, c: int|
                #![trigger self.sort_key(row, keys[c], header)]
                0 <= row < self.index.rows && 0 <= c < keys.len() ==> (self.sort_key(
                    row,
                    keys[c],
                    header,
                ) matches Ok(key) && (key matches KeyView::Text(text) ==> vstd::utf8::encode_utf8(
                    text,
                ).len() <= most)),
            self.index.rows * (48 + keys.len() * 24) + self.index.rows * (keys.len() * (most + 32))
                <= 536_870_912,
        ensures
            self.sort_outcome(keys, header) is Ok,
    {
        let n = self.index.rows as int;
        let width = keys.len() * (most + 32);
        assert(0 <= n * width) by (nonlinear_arith)
            requires
                0 <= n,
                width == keys.len() * (most + 32),
                0 <= most,
        ;
        assert(base_cost(n, keys.len() as int) <= 536_870_912);
        self.sort_cost_is_small(keys, header, n, most);
    }
}

/// The part of a sort specification names these letters, with a minus sign before them or a
/// plus sign or none, `:n` behind them or nothing, and white space around it all.
pub open spec fn is_key_text(
    part: Seq<char>,
    from: int,
    to: int,
    letters: Seq<char>,
    descending: bool,
    numeric: bool,
) -> bool {
    &&& 0 <= from <= to <= part.len()
    &&& forall|i: int| 0 <= i < from ==> is_white_space(#[trigger] part[i])
    &&& forall|i: int| to <= i < part.len() ==> is_white_space(#[trigger] part[i])
    &&& is_letters(letters)
    &&& {
        let text = part.subrange(from, to);
        let end = if numeric {
            seq![':', 'n']
        } else {
            Seq::empty()
        };
        ||| descending && text == seq!['-'] + letters + end
        ||| !descending && text == letters + end
        ||| !descending && text == seq!['+'] + letters + end
    }
}

proof fn letters_are_plain(letters: Seq<char>)
    requires
        is_letters(letters),
    ensures
        letters.len() > 0,
        forall|i: int|
            0 <= i < letters.len() ==> !is_white_space(#[trigger] letters[i]) && letters[i] != '-'
                && letters[i] != '+' && letters[i] != ':',
{
    assert forall|i: int| 0 <= i < letters.len() implies !is_white_space(#[trigger] letters[i])
        && letters[i] != '-' && letters[i] != '+' && letters[i] != ':' by {
        assert(crate::a1::is_letter(letters[i]));
    }
}

proof fn key_text_is_read(
    part: Seq<char>,
    from: int,
    to: int,
    letters: Seq<char>,
    descending: bool,
    numeric: bool,
)
    requires
        is_key_text(part, from, to, letters, descending, numeric),
    ensures
        key_parts(part) == (descending, letters, numeric),
{
    letters_are_plain(letters);
    let text = part.subrange(from, to);
    let end = if numeric {
        seq![':', 'n']
    } else {
        Seq::empty()
    };
    let l = letters.len() as int;
    assert(letters[0] == letters[0] && letters[l - 1] == letters[l - 1]);
    assert(!is_white_space('-') && !is_white_space('+') && !is_white_space('n'));
    assert(text.len() > 0);
    assert(text[0] == part[from]);
    assert(text.last() == part[to - 1]);
    assert(!is_white_space(text[0]));
    assert(text.last() == if numeric {
        'n'
    } else {
        letters[l - 1]
    });
    crate::ranked::trimming_takes_white_space(part, from, to);
    let unsigned = letters + end;
    let n = unsigned.len() as int;
    assert(unsigned[0] == letters[0]);
    assert((seq!['-'] + letters + end).skip(1) =~= unsigned);
    assert((seq!['+'] + letters + end).skip(1) =~= unsigned);
    assert((seq!['-'] + letters + end)[0] == '-');
    assert((seq!['+'] + letters + end)[0] == '+');
    if numeric {
        assert(unsigned[n - 2] == ':' && unsigned[n - 1] == 'n');
        assert(unsigned.take(n - 2) =~= letters);
    } else {
        assert(unsigned =~= letters);
        if n >= 2 {
            assert(letters[n - 2] != ':');
        }
    }
}

/// A sort specification gives a key for each of its parts, in their order, with the column,
/// the direction and the kind that the part names.
pub proof fn every_part_is_a_sort_key(
    s: Seq<char>,
    keys: Vec<SortKey>,
    i: int,
    from: int,
    to: int,
    letters: Seq<char>,
    descending: bool,
    numeric: bool,
)
    requires
        sort_result(s, Ok(keys)),
        0 <= i < parts(s, ',').len(),
        is_key_text(parts(s, ',')[i], from, to, letters, descending, numeric),
    ensures
        keys@.len() == parts(s, ',').len(),
        keys@[i].column + 1 == column_value(letters),
        keys@[i].descending == descending,
        keys@[i].numeric == numeric,
{
    key_text_is_read(parts(s, ',')[i], from, to, letters, descending, numeric);
    assert(crate::sort::key_at(parts(s, ','), i) == Ok::<SortKey, Error>(keys@[i]));
    crate::a1::column_letters_read_back(letters);
}

/// A sort specification whose parts name different columns is not refused.
pub proof fn good_specifications_are_not_refused(
    s: Seq<char>,
    r: Result<Vec<SortKey>, Error>,
    letters: Seq<Seq<char>>,
    descending: Seq<bool>,
    numeric: Seq<bool>,
    spans: Seq<(int, int)>,
)
    requires
        sort_result(s, r),
        letters.len() == parts(s, ',').len(),
        forall|i: int|
            0 <= i < letters.len() ==> is_key_text(
                parts(s, ',')[i],
                spans[i].0,
                spans[i].1,
                #[trigger] letters[i],
                descending[i],
                numeric[i],
            ) && column_value(letters[i]) <= usize::MAX,
        forall|i: int, j: int|
            0 <= i < j < letters.len() ==> column_value(#[trigger] letters[i]) != column_value(
                #[trigger] letters[j],
            ),
    ensures
        r is Ok,
{
    let list = parts(s, ',');
    assert forall|i: int| 0 <= i < list.len() implies (key_of(#[trigger] list[i]) matches Ok(key)
        && key.column + 1 == column_value(letters[i])) by {
        assert(is_key_text(
            list[i],
            spans[i].0,
            spans[i].1,
            letters[i],
            descending[i],
            numeric[i],
        ));
        key_text_is_read(
            list[i],
            spans[i].0,
            spans[i].1,
            letters[i],
            descending[i],
            numeric[i],
        );
        crate::a1::column_letters_read_back(letters[i]);
    }
    if let Err(error) = r {
        let i = choose|i: int|
            {
                &&& 0 <= i < list.len()
                &&& forall|j: int| 0 <= j < i ==> crate::sort::key_at(list, j) is Ok
                &&& #[trigger] crate::sort::key_at(list, i) == Err::<SortKey, Error>(error)
            };
        assert(key_of(list[i]) is Ok);
        let j = choose|j: int|
            0 <= j < i && key_of(#[trigger] list[j]) is Ok && key_of(list[j])->Ok_0.column
                == key_of(list[i])->Ok_0.column;
        assert(column_value(letters[j]) != column_value(letters[i]));
    }
}

/// Options that go together are accepted: a file is named, edits and a sort are for
/// something, and no option stands beside one that excludes it.
pub proof fn agreeing_options_are_accepted(o: OptionsView)
    requires
        o.path is Some,
        !o.sheets,
        o.edits_requested ==> o.dry_run || o.output is Some,
        !(o.dry_run && o.output is Some),
        o.find matches Some(text) ==> o.read is None && o.output is None && !o.check && (text.len()
            > 0 || o.exact),
        o.check ==> o.read is None && !o.edits_requested && !o.dry_run && o.output is None && o.sort
            is None,
        !o.header ==> o.sort is Some,
        o.sort matches Some(spec) ==> (o.read is Some || o.find is Some || o.dry_run || o.output
            is Some) && exists|keys: Vec<SortKey>| #[trigger] sort_result(spec, Ok(keys)),
        o.exact || o.ignore_case || o.columns is Some || o.from is Some || o.limit is Some
            ==> o.find is Some,
    ensures
        combined(o) == Outcome::Open(o),
{
    if let Some(spec) = o.sort {
        let keys = choose|keys: Vec<SortKey>| #[trigger] sort_result(spec, Ok(keys));
        crate::sort::sort_result_is(spec, Ok(keys));
    }
}

} // verus!
