//! What reads show, and what lists of edits leave behind.
use crate::a1::Address;
use crate::error::Error;
use crate::json::Json;
use crate::matched::{has_text, record_in};
use crate::ops::{
    all_admitted, edit_of, edits_made, entries_edits, field_of, has_made, history_made,
    patch_edits, shows, Read,
};
use crate::sheet::{history, Sheet};
use crate::workbook::Format;
use vstd::prelude::*;

verus! {

/// The formula of a source cell: what follows `=` in its edit, in an XLSX workbook, else what
/// the workbook holds of it.
pub open spec fn has_formula(sheet: Sheet, record: u64, col: usize, formula: Seq<char>) -> bool {
    sheet.workbook matches Some(book) && {
        let at = (record, col);
        let typed = book.format == Format::Xlsx && sheet.edits@.contains_key(at)
            && sheet.edits@[at].len() > 0 && sheet.edits@[at][0] == '=';
        if typed {
            sheet.edits@[at] == seq!['='] + formula
        } else {
            book.formulas@.contains_key(at) && book.formulas@[at] == formula
        }
    }
}

impl Sheet {
    /// A formula goes with its record: the one of a cell of the view is that of the source
    /// cell that is shown there.
    pub proof fn formulas_belong_to_records(self, row: u64, col: usize, formula: Seq<char>)
        requires
            self.order matches Some(order) ==> row < order.rows@.len(),
        ensures
            self.formula_of(row, col) == Some(formula) <==> has_formula(
                self,
                record_in(self, row),
                col,
                formula,
            ),
    {
        let at = (record_in(self, row), col);
        assert(at == self.key(row, col));
        if let Some(book) = self.workbook {
            if self.edits@.contains_key(at) && self.edits@[at].len() > 0 {
                let text = self.edits@[at];
                assert((seq!['='] + formula).skip(1) =~= formula);
                if text[0] == '=' {
                    assert(text =~= seq!['='] + text.skip(1));
                }
            }
        }
    }

    /// A record keeps its formulas in any order: two views of one source with the same edits
    /// give the same formula wherever they show the same record.
    pub proof fn records_keep_their_formulas(self, other: Sheet, r: u64, s: u64, col: usize)
        requires
            self.same_source(other),
            self.edits@ == other.edits@,
            self.order matches Some(order) ==> r < order.rows@.len(),
            other.order matches Some(order) ==> s < order.rows@.len(),
            record_in(self, r) == record_in(other, s),
        ensures
            self.formula_of(r, col) == other.formula_of(s, col),
    {
        if let Some(formula) = self.formula_of(r, col) {
            self.formulas_belong_to_records(r, col, formula);
            other.formulas_belong_to_records(s, col, formula);
        }
        if let Some(formula) = other.formula_of(s, col) {
            self.formulas_belong_to_records(r, col, formula);
            other.formulas_belong_to_records(s, col, formula);
        }
    }
}

/// A read shows every cell of its rectangle: its text where it has one, an empty text in an
/// XLSX row past its values, else nothing; and with it every formula of the rectangle.
pub proof fn reads_show_every_cell(sheet: Sheet, read: Read, row: u64, col: usize)
    requires
        sheet.wf(),
        shows(sheet, read),
        read.range.first.0 <= row <= read.range.last.0,
        read.range.first.1 <= col <= read.range.last.1,
    ensures
        ({
            let i = row - read.range.first.0;
            let j = col - read.range.first.1;
            let xlsx = sheet.workbook matches Some(book) && book.format == Format::Xlsx;
            &&& read.rows@.len() == read.range.last.0 - read.range.first.0 + 1
            &&& read.rows@[i]@.len() == read.range.last.1 - read.range.first.1 + 1
            &&& match read.rows@[i]@[j] {
                Some(text) => has_text(sheet, (row, col), text@) || xlsx && text@.len() == 0
                    && col < 16_384 && forall|t: Seq<char>| !has_text(sheet, (row, col), t),
                None => forall|t: Seq<char>| !has_text(sheet, (row, col), t),
            }
            &&& read.formulas is Some == sheet.workbook is Some
            &&& forall|formula: Seq<char>| #[trigger]
                has_formula(sheet, record_in(sheet, row), col, formula) <==> (
                read.formulas matches Some(cells) && cells@.contains_key((row, col)) && cells@[(
                    row,
                    col,
                )] == formula)
        }),
{
    let i = row - read.range.first.0;
    let j = col - read.range.first.1;
    let text = read.rows@[i]@[j];
    assert(crate::sheet::text_view(text) == crate::ops::read_value(sheet, row as int, col as int));
    if sheet.order is None {
        assert(crate::records::has_rows(sheet.data@, sheet.delimiter, (row + 1) as nat)) by {
            assert forall|k: nat| k < row + 1 implies #[trigger] crate::records::readable(
                sheet.data@,
                sheet.delimiter,
                k,
            ) by {}
        }
    }
    assert forall|formula: Seq<char>| #[trigger]
        has_formula(sheet, record_in(sheet, row), col, formula) <==> (
        read.formulas matches Some(cells) && cells@.contains_key((row, col)) && cells@[(
            row,
            col,
        )] == formula) by {
        sheet.formulas_belong_to_records(row, col, formula);
        if read.formulas is Some {
            let cells = read.formulas->0@;
            let at: Address = (row, col);
            assert(cells.contains_key(at) <==> sheet.formula_of(at.0, at.1) is Some);
            assert(cells.contains_key(at) ==> sheet.formula_of(at.0, at.1) == Some(cells[at]));
        }
    }
}

/// Two rows of the view show different records.
proof fn rows_show_different_records(sheet: Sheet, a: Address, b: Address)
    requires
        sheet.wf(),
        a.0 < sheet.view_rows(),
        b.0 < sheet.view_rows(),
        a != b,
    ensures
        sheet.key(a.0, a.1) != sheet.key(b.0, b.1),
{
    if let Some(order) = sheet.order {
        if a.0 < b.0 {
            assert(order.rows@[a.0 as int].row != order.rows@[b.0 as int].row);
        } else if b.0 < a.0 {
            assert(order.rows@[b.0 as int].row != order.rows@[a.0 as int].row);
        }
    }
}

/// The texts of a cell that no edit of the list is of stay as they were.
proof fn other_cells_stay(
    sheet: Sheet,
    edits: Seq<(Address, Seq<char>)>,
    from: int,
    n: int,
    at: Address,
)
    requires
        sheet.wf(),
        0 <= from <= n <= edits.len(),
        all_admitted(sheet, edits, n),
        at.0 < sheet.view_rows(),
        forall|i: int| from <= i < n ==> (#[trigger] edits[i]).0 != at,
    ensures
        ({
            let key = sheet.key(at.0, at.1);
            let (a, b) = (edits_made(sheet, edits, from), edits_made(sheet, edits, n));
            a.contains_key(key) == b.contains_key(key) && (a.contains_key(key) ==> a[key] == b[key])
        }),
    decreases n,
{
    if from < n {
        other_cells_stay(sheet, edits, from, n - 1, at);
        let cell = edits[n - 1].0;
        assert(sheet.set_rule(cell.0, cell.1, edits[n - 1].1) is Ok);
        rows_show_different_records(sheet, cell, at);
    }
}

/// Once a list of edits is made, every cell shows the last text that the list gives it. A
/// cell that the list does not name shows what it showed before.
pub proof fn cells_show_their_last_edit(
    before: Sheet,
    after: Sheet,
    edits: Seq<(Address, Seq<char>)>,
    i: int,
    at: Address,
)
    requires
        before.wf(),
        all_admitted(before, edits, edits.len() as int),
        has_made(before, after, edits, edits.len() as int),
        after.same_source(before),
        after.index == before.index,
        after.order == before.order,
        -1 <= i < edits.len(),
        i >= 0 ==> edits[i].0 == at,
        forall|j: int| i < j < edits.len() ==> (#[trigger] edits[j]).0 != at,
        at.0 < before.view_rows(),
    ensures
        i >= 0 ==> has_text(after, at, edits[i].1) || before.is_xlsx() && edits[i].1.len() == 0
            && !after.edits@.contains_key((record_in(after, at.0), at.1)),
        i < 0 ==> forall|text: Seq<char>| #[trigger]
            has_text(after, at, text) <==> has_text(before, at, text),
{
    other_cells_stay(before, edits, i + 1, edits.len() as int, at);
    let key = before.key(at.0, at.1);
    assert(key == (record_in(after, at.0), at.1));
    if i >= 0 {
        assert(before.set_rule(at.0, at.1, edits[i].1) is Ok);
        if before.order is None {
            assert(crate::records::has_rows(before.data@, before.delimiter, (at.0 + 1) as nat)) by {
                assert forall|k: nat| k < at.0 + 1 implies #[trigger] crate::records::readable(
                    before.data@,
                    before.delimiter,
                    k,
                ) by {}
            }
        }
    } else {
        assert(edits_made(before, edits, 0) == before.edits@);
    }
}

/// The edits once the steps of the history beyond the first `n` are taken back, the last
/// first.
pub open spec fn taken_back(
    edits: Map<Address, Seq<char>>,
    steps: Seq<(Address, Option<Seq<char>>)>,
    n: nat,
) -> Map<Address, Seq<char>>
    decreases steps.len(),
{
    if steps.len() <= n {
        edits
    } else {
        let (at, text) = steps.last();
        taken_back(
            match text {
                Some(t) => edits.insert(at, t),
                None => edits.remove(at),
            },
            steps.drop_last(),
            n,
        )
    }
}

/// Whatever a list of edits made can be taken back step by step: the edits and the history
/// from before the list come back.
pub proof fn lists_of_edits_can_be_undone(
    before: Sheet,
    after: Sheet,
    edits: Seq<(Address, Seq<char>)>,
    n: int,
)
    requires
        has_made(before, after, edits, n),
        0 <= n <= edits.len(),
    ensures
        ({
            let (old_steps, steps) = (history(before.undo@), history(after.undo@));
            &&& steps.len() >= old_steps.len()
            &&& steps.take(old_steps.len() as int) == old_steps
            &&& taken_back(after.edits@, steps, old_steps.len()) == before.edits@
        }),
{
    steps_are_taken_back(before, edits, n);
}

proof fn steps_are_taken_back(before: Sheet, edits: Seq<(Address, Seq<char>)>, n: int)
    requires
        0 <= n <= edits.len(),
    ensures
        ({
            let (old_steps, steps) = (history(before.undo@), history_made(before, edits, n));
            &&& steps.len() >= old_steps.len()
            &&& steps.take(old_steps.len() as int) == old_steps
            &&& taken_back(edits_made(before, edits, n), steps, old_steps.len()) == before.edits@
        }),
    decreases n,
{
    let old_steps = history(before.undo@);
    if n <= 0 {
        assert(old_steps.take(old_steps.len() as int) =~= old_steps);
    } else {
        steps_are_taken_back(before, edits, n - 1);
        let earlier = edits_made(before, edits, n - 1);
        let made = edits_made(before, edits, n);
        let steps = history_made(before, edits, n);
        let fewer = history_made(before, edits, n - 1);
        let (at, value) = edits[n - 1];
        let key = before.key(at.0, at.1);
        if crate::ops::makes_change(before, earlier, at, value) {
            assert(steps.drop_last() =~= fewer);
            assert(steps.take(old_steps.len() as int) =~= fewer.take(old_steps.len() as int));
            match crate::sheet::held(earlier, key) {
                Some(text) => {
                    assert(made.insert(key, text) =~= earlier);
                },
                None => {
                    assert(made.remove(key) =~= earlier);
                },
            }
        } else {
            assert(made =~= earlier);
        }
    }
}

/// The entry is an object of a cell and a value, and nothing else.
pub open spec fn is_entry(entry: Json, cell: Seq<char>, value: Seq<char>) -> bool {
    entry matches Json::Object(fields) && fields@.len() == 2 && {
        ||| {
            &&& fields@[0].0@ == "cell"@
            &&& fields@[1].0@ == "value"@
            &&& (fields@[0].1 matches Json::Text(text) && text@ == cell)
            &&& (fields@[1].1 matches Json::Text(text) && text@ == value)
        }
        ||| {
            &&& fields@[1].0@ == "cell"@
            &&& fields@[0].0@ == "value"@
            &&& (fields@[1].1 matches Json::Text(text) && text@ == cell)
            &&& (fields@[0].1 matches Json::Text(text) && text@ == value)
        }
    }
}

/// An entry of a patch gives an edit exactly where it holds a cell that reads and a value.
proof fn entries_hold_a_cell_and_a_value(entry: Json, at: Address, value: Seq<char>)
    ensures
        edit_of(entry) == Ok::<(Address, Seq<char>), Error>((at, value)) <==> exists|cell: Seq<char>|
            #[trigger] is_entry(entry, cell, value) && crate::a1::cell_of(cell) == Ok::<
                Address,
                crate::a1::A1Error,
            >(at),
{
    reveal_strlit("cell");
    reveal_strlit("value");
    assert("cell"@.len() == 4 && "value"@.len() == 5);
    if let Json::Object(fields) = entry {
        let list = fields@;
        if list.len() == 2 {
            let rest = list.skip(1);
            assert(rest.len() == 1 && rest[0] == list[1]);
            assert(rest.skip(1).len() == 0);
            assert forall|key: Seq<char>| #[trigger] field_of(list, key) == (if list[0].0@ == key {
                Some(list[0].1)
            } else if list[1].0@ == key {
                Some(list[1].1)
            } else {
                None
            }) by {
                assert(field_of(rest.skip(1), key) is None);
                assert(field_of(rest, key) == if rest[0].0@ == key {
                    Some(rest[0].1)
                } else {
                    None
                });
            }
            assert(field_of(list, "cell"@) is Some || field_of(list, "cell"@) is None);
            assert(field_of(list, "value"@) is Some || field_of(list, "value"@) is None);
            if edit_of(entry) == Ok::<(Address, Seq<char>), Error>((at, value)) {
                if let Some(Json::Text(cell)) = field_of(list, "cell"@) {
                    assert(is_entry(entry, cell@, value));
                }
            }
        }
    }
}

/// A patch gives an edit for every entry, in order; it is refused where an entry is, and
/// where it is no list.
pub proof fn patches_give_every_edit(patch: Json, i: int)
    ensures
        patch_edits(patch) is Ok ==> patch is List,
        patch matches Json::List(list) ==> (patch_edits(patch) is Ok <==> forall|k: int|
            0 <= k < list@.len() ==> edit_of(#[trigger] list@[k]) is Ok),
        patch matches Json::List(list) ==> (patch_edits(patch) matches Ok(edits) ==> edits.len()
            == list@.len() && (0 <= i < list@.len() ==> exists|cell: Seq<char>|
            {
                &&& #[trigger] is_entry(list@[i], cell, edits[i].1)
                &&& crate::a1::cell_of(cell) == Ok::<Address, crate::a1::A1Error>(edits[i].0)
            })),
{
    if let Json::List(list) = patch {
        entries_in_order(list@, list@.len() as int, i);
        if patch_edits(patch) is Ok && 0 <= i < list@.len() {
            let edit = patch_edits(patch)->Ok_0[i];
            entries_hold_a_cell_and_a_value(list@[i], edit.0, edit.1);
        }
    }
}

proof fn entries_in_order(list: Seq<Json>, n: int, i: int)
    requires
        0 <= n <= list.len(),
    ensures
        entries_edits(list, n) is Ok <==> forall|k: int|
            0 <= k < n ==> edit_of(#[trigger] list[k]) is Ok,
        entries_edits(list, n) matches Ok(edits) ==> edits.len() == n && (0 <= i < n ==> edit_of(
            list[i],
        ) == Ok::<(Address, Seq<char>), Error>(edits[i])),
    decreases n,
{
    if n > 0 {
        entries_in_order(list, n - 1, i);
        if entries_edits(list, n) is Ok {
            assert forall|k: int| 0 <= k < n implies edit_of(#[trigger] list[k]) is Ok by {
                if k == n - 1 {
                    assert(edit_of(list[n - 1]) is Ok);
                }
            }
        }
    }
}

} // verus!
