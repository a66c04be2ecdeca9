//! What a search finds, and what it leaves out.
use crate::a1::Address;
use crate::find::{FindQuery, FindResult};
use crate::records::{has_rows, row_of};
use crate::sheet::Sheet;
use crate::text::{folded, occurs, occurs_at};
use vstd::prelude::*;

verus! {

/// A search by part finds its text in a value wherever it stands, however long what comes
/// before and after it, and in no value that does not hold it.
pub proof fn any_part_of_a_value_matches(
    query: FindQuery,
    value: Seq<char>,
    a: Seq<char>,
    b: Seq<char>,
)
    requires
        !query.exact,
    ensures
        !query.ignore_case && value == a + query.text@ + b ==> query.value_matches(value),
        query.ignore_case && folded(value) == a + folded(query.text@) + b ==> query.value_matches(
            value,
        ),
        !query.ignore_case && query.value_matches(value) ==> exists|x: Seq<char>, y: Seq<char>|
            value == #[trigger] (x + query.text@ + y),
        query.ignore_case && query.value_matches(value) ==> exists|x: Seq<char>, y: Seq<char>|
            folded(value) == #[trigger] (x + folded(query.text@) + y),
{
    let (all, text) = if query.ignore_case {
        (folded(value), folded(query.text@))
    } else {
        (value, query.text@)
    };
    if all == a + text + b {
        let k = a.len() as int;
        assert(all.subrange(k, k + text.len()) =~= text);
        assert(occurs_at(all, text, k));
    }
    if occurs(all, text) {
        let k = choose|k: int| occurs_at(all, text, k);
        assert(all =~= all.take(k) + text + all.skip(k + text.len()));
    }
}

/// An exact search matches its text and nothing else; where case does not count, whatever is
/// the same in lower case.
pub proof fn only_whole_values_match_exactly(query: FindQuery, value: Seq<char>)
    requires
        query.exact,
    ensures
        !query.ignore_case ==> (query.value_matches(value) <==> value == query.text@),
        query.ignore_case ==> (query.value_matches(value) <==> folded(value) == folded(
            query.text@,
        )),
{
}

/// The two characters are the same letter of either case, or the same character.
pub open spec fn same_letter(a: char, b: char) -> bool {
    ||| a == b
    ||| 'A' <= a <= 'Z' && b as int == a as int + 32
    ||| 'A' <= b <= 'Z' && a as int == b as int + 32
}

/// ASCII texts are the same where case does not count exactly where their letters are.
pub proof fn ascii_case_does_not_count(a: Seq<char>, b: Seq<char>)
    requires
        vstd::utf8::is_ascii_chars(a),
        vstd::utf8::is_ascii_chars(b),
    ensures
        folded(a) == folded(b) <==> a.len() == b.len() && forall|i: int|
            0 <= i < a.len() ==> same_letter(#[trigger] a[i], b[i]),
        folded(a).len() == a.len(),
{
    if a.len() == b.len() && forall|i: int|
        0 <= i < a.len() ==> same_letter(#[trigger] a[i], b[i]) {
        assert forall|i: int| 0 <= i < a.len() implies folded(a)[i] == folded(b)[i] by {
            assert(same_letter(a[i], b[i]));
        }
        assert(folded(a) =~= folded(b));
    }
    if folded(a) == folded(b) {
        assert(folded(a).len() == folded(b).len());
        assert forall|i: int| 0 <= i < a.len() implies same_letter(#[trigger] a[i], b[i]) by {
            assert(folded(a)[i] == folded(b)[i]);
        }
    }
}

/// The source record that a row of the view shows.
pub open spec fn record_in(sheet: Sheet, row: u64) -> u64 {
    match sheet.order {
        Some(order) => order.rows@[row as int].row,
        None => row,
    }
}

/// The view has this row.
pub open spec fn is_row(sheet: Sheet, row: u64) -> bool {
    match sheet.order {
        Some(order) => row < order.rows@.len(),
        None => has_rows(sheet.data@, sheet.delimiter, (row + 1) as nat),
    }
}

/// The cell of the view has this text: the edit of its source cell, else its field.
pub open spec fn has_text(sheet: Sheet, at: Address, text: Seq<char>) -> bool {
    let record = record_in(sheet, at.0);
    let fields = row_of(sheet.data@, sheet.delimiter, record as nat);
    is_row(sheet, at.0) && if sheet.edits@.contains_key((record, at.1)) {
        sheet.edits@[(record, at.1)] == text
    } else {
        at.1 < fields.len() && fields[at.1 as int] == text
    }
}

/// The cell is in a column that is searched, and its text matches.
pub open spec fn is_wanted(sheet: Sheet, query: FindQuery, at: Address, text: Seq<char>) -> bool {
    &&& has_text(sheet, at, text)
    &&& (query.columns matches Some(columns) ==> columns@.contains(at.1))
    &&& query.value_matches(text)
}

/// A page holds every wanted cell from where it starts up to where the next one does, or up to
/// the end of the view, with the text that is shown there, and it holds no other.
pub proof fn pages_hold_every_wanted_cell(
    sheet: Sheet,
    query: FindQuery,
    from: Address,
    limit: usize,
    page: FindResult,
    at: Address,
    text: Seq<char>,
)
    requires
        sheet.wf(),
        sheet.is_page(query, from, limit, page),
    ensures
        ({
            let inside = (at.0 > from.0 || at.0 == from.0 && at.1 >= from.1) && (
            page.next matches Some(next) ==> at.0 < next.0 || at.0 == next.0 && at.1 < next.1);
            is_wanted(sheet, query, at, text) && inside <==> exists|i: int|
                {
                    &&& 0 <= i < page.matches@.len()
                    &&& (#[trigger] page.matches@[i]).0 == at
                    &&& page.matches@[i].1@ == text
                }
        }),
        page.next is Some ==> page.matches@.len() == limit,
        page.next is None ==> page.matches@.len() < limit,
{
    let list = page.matches@;
    if is_wanted(sheet, query, at, text) {
        assert(sheet.hit(query, at));
        assert(sheet.shown(at) == Some(text));
        let inside = (at.0 > from.0 || at.0 == from.0 && at.1 >= from.1) && (
        page.next matches Some(next) ==> at.0 < next.0 || at.0 == next.0 && at.1 < next.1);
        if inside {
            if page.next is None {
                let rows = choose|rows: int|
                    #[trigger] sheet.has_length(rows) && sheet.collected(query, from, list, rows, 0);
                if sheet.order is None && at.0 >= rows {
                    assert(crate::records::readable(sheet.data@, sheet.delimiter, rows as nat));
                }
                assert(at.0 < rows);
            }
            assert(crate::cells::holds(list, at));
            let i = crate::cells::place(list, at);
            assert(list[i].0 == at);
            assert(sheet.shown(at) == Some(list[i].1@));
        }
    }
    if exists|i: int|
        0 <= i < list.len() && (#[trigger] list[i]).0 == at && list[i].1@ == text {
        let i = choose|i: int|
            0 <= i < list.len() && (#[trigger] list[i]).0 == at && list[i].1@ == text;
        assert(sheet.hit(query, list[i].0));
        assert(sheet.shown(at) == Some(text));
    }
}

} // verus!
