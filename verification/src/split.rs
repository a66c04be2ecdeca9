//! What splitting repeated rows and cells of an ODS table keeps: how far they reach, and
//! where every edited one stands.
use crate::a1::Address;
use crate::cells::before;
use crate::error::Error;
use crate::ods_patch::{
    after_cols, after_rows, cell_markup, cells_named, distance, edited_row, is_before_col,
    new_cell, repeated_markup, split_cell, split_row, trailing_cells,
};
use crate::package::TABLE;
use crate::xlsx::after_row;
use crate::xml::Xml;
use vstd::prelude::*;

verus! {

/// What stands in place of a repeated element: so many repetitions of it, or one of them
/// with the edit of an entry.
pub enum Piece {
    Kept(int),
    Edited(int),
}

/// How many rows or columns a piece takes.
pub open spec fn width(piece: Piece) -> int {
    match piece {
        Piece::Kept(count) => count,
        Piece::Edited(_) => 1,
    }
}

/// How many rows or columns the first `n` pieces take.
pub open spec fn reach(pieces: Seq<Piece>, n: int) -> int
    decreases n,
{
    if n <= 0 {
        0
    } else {
        reach(pieces, n - 1) + width(pieces[n - 1])
    }
}

/// So many repetitions, where there are any.
pub open spec fn kept(count: int) -> Seq<Piece> {
    if count > 0 {
        seq![Piece::Kept(count)]
    } else {
        Seq::empty()
    }
}

/// The texts of pieces one after another, or the first error among them.
pub open spec fn together(texts: Seq<Result<Seq<u8>, Error>>) -> Result<Seq<u8>, Error>
    decreases texts.len(),
{
    if texts.len() == 0 {
        Ok(Seq::empty())
    } else {
        match texts[0] {
            Err(error) => Err(error),
            Ok(first) => match together(texts.skip(1)) {
                Err(error) => Err(error),
                Ok(rest) => Ok(first + rest),
            },
        }
    }
}

/// The pieces that take the place of a cell that reaches from column `cursor` up to column
/// `to`.
pub open spec fn cell_pieces(
    entries: Seq<(Address, String)>,
    k: int,
    row: u64,
    cursor: usize,
    to: usize,
) -> Seq<Piece>
    decreases entries.len() - k,
{
    if !is_before_col(entries, k, row, to) {
        kept(distance(cursor as int, to as int))
    } else {
        let col = entries[k].0.1;
        kept(distance(cursor as int, col as int)) + seq![Piece::Edited(k)] + cell_pieces(
            entries,
            k + 1,
            row,
            (col + 1) as usize,
            to,
        )
    }
}

/// The text of a piece of cell `j`.
pub open spec fn cell_text(
    doc: Xml,
    text: Seq<u8>,
    scopes: Seq<Option<String>>,
    j: int,
    entries: Seq<(Address, String)>,
    piece: Piece,
) -> Result<Seq<u8>, Error> {
    match piece {
        Piece::Kept(count) => repeated_markup(
            doc,
            text,
            j,
            "number-columns-repeated"@,
            count,
            None,
        ),
        Piece::Edited(e) => cell_markup(doc, text, scopes, j, entries[e].1@),
    }
}

/// The pieces that take the place of a row that reaches from row `cursor` up to row `to`.
pub open spec fn row_pieces(entries: Seq<(Address, String)>, k: int, cursor: u64, to: u64) -> Seq<
    Piece,
>
    decreases entries.len() - k,
{
    if k >= entries.len() || entries[k].0.0 >= to {
        kept(distance(cursor as int, to as int))
    } else {
        let number = entries[k].0.0;
        proof {
            crate::xlsx::after_row_goes_on(entries, number, k + 1);
        }
        kept(distance(cursor as int, number as int)) + seq![Piece::Edited(k)] + row_pieces(
            entries,
            after_row(entries, number, k + 1),
            (number + 1) as u64,
            to,
        )
    }
}

/// The text of a piece of row element `j`. An edited one holds the edits of its row from its
/// entry on.
pub open spec fn row_text(
    doc: Xml,
    text: Seq<u8>,
    scopes: Seq<Option<String>>,
    j: int,
    entries: Seq<(Address, String)>,
    piece: Piece,
) -> Result<Seq<u8>, Error> {
    match piece {
        Piece::Kept(count) => repeated_markup(
            doc,
            text,
            j,
            "number-rows-repeated"@,
            count,
            None,
        ),
        Piece::Edited(e) => edited_row(doc, text, scopes, j, entries, e, entries[e].0.0),
    }
}

/// The entries are in the order of their cells.
pub open spec fn in_order(entries: Seq<(Address, String)>) -> bool {
    forall|i: int, j: int|
        0 <= i < j < entries.len() ==> before((#[trigger] entries[i]).0, (#[trigger] entries[j]).0)
}

/// The reach of joined pieces.
proof fn reach_joins(a: Seq<Piece>, b: Seq<Piece>, n: int)
    requires
        0 <= n <= a.len() + b.len(),
    ensures
        reach(a + b, n) == if n <= a.len() {
            reach(a, n)
        } else {
            reach(a, a.len() as int) + reach(b, n - a.len())
        },
    decreases n,
{
    if n > 0 {
        reach_joins(a, b, n - 1);
        if n <= a.len() {
            assert((a + b)[n - 1] == a[n - 1]);
        } else {
            assert((a + b)[n - 1] == b[n - 1 - a.len()]);
            assert(reach(b, 0) == 0);
        }
    }
}

proof fn kept_reaches(count: int)
    requires
        count >= 0,
    ensures
        reach(kept(count), kept(count).len() as int) == count,
{
    if count > 0 {
        assert(reach(kept(count), 0) == 0);
        assert(reach(kept(count), 1) == count);
    }
}

/// Texts of joined pieces: repetitions, one edit, and the rest.
proof fn together_unfolds(
    head: Seq<Result<Seq<u8>, Error>>,
    one: Result<Seq<u8>, Error>,
    rest: Seq<Result<Seq<u8>, Error>>,
)
    requires
        head.len() <= 1,
    ensures
        together(head + seq![one] + rest) == match together(head) {
            Err(error) => Err(error),
            Ok(a) => match one {
                Err(error) => Err(error),
                Ok(b) => match together(rest) {
                    Err(error) => Err(error),
                    Ok(c) => Ok(a + b + c),
                },
            },
        },
{
    let all = head + seq![one] + rest;
    let tail = seq![one] + rest;
    assert(tail.skip(1) =~= rest);
    assert(tail[0] == one);
    assert(together(tail) == match one {
        Err(error) => Err(error),
        Ok(b) => match together(rest) {
            Err(error) => Err(error),
            Ok(c) => Ok(b + c),
        },
    });
    if head.len() == 0 {
        assert(all =~= tail);
        if let (Ok(b), Ok(c)) = (one, together(rest)) {
            assert(Seq::<u8>::empty() + b + c =~= b + c);
        }
    } else {
        assert(all.skip(1) =~= tail);
        assert(all[0] == head[0]);
        assert(head.skip(1) =~= Seq::empty());
        assert(together(head.skip(1)) == Ok::<Seq<u8>, Error>(Seq::empty()));
        if let Ok(a) = head[0] {
            assert(a + Seq::<u8>::empty() =~= a);
            if let (Ok(b), Ok(c)) = (one, together(rest)) {
                assert(a + (b + c) =~= a + b + c);
            }
        }
    }
}

/// What takes the place of a cell is its pieces one after another.
pub proof fn cell_splits_into_pieces(
    doc: Xml,
    text: Seq<u8>,
    scopes: Seq<Option<String>>,
    j: int,
    entries: Seq<(Address, String)>,
    k: int,
    row: u64,
    cursor: usize,
    to: usize,
)
    ensures
        split_cell(doc, text, scopes, j, entries, k, row, cursor, to) == together(
            cell_pieces(entries, k, row, cursor, to).map_values(
                |p: Piece| cell_text(doc, text, scopes, j, entries, p),
            ),
        ),
    decreases entries.len() - k,
{
    let shown = |p: Piece| cell_text(doc, text, scopes, j, entries, p);
    let name = "number-columns-repeated"@;
    if !is_before_col(entries, k, row, to) {
        let count = distance(cursor as int, to as int);
        one_piece_text(shown, count, repeated_markup(doc, text, j, name, count, None));
    } else {
        let col = entries[k].0.1;
        let count = distance(cursor as int, col as int);
        let rest = cell_pieces(entries, k + 1, row, (col + 1) as usize, to);
        cell_splits_into_pieces(
            doc,
            text,
            scopes,
            j,
            entries,
            k + 1,
            row,
            (col + 1) as usize,
            to,
        );
        one_piece_text(shown, count, repeated_markup(doc, text, j, name, count, None));
        let head = kept(count).map_values(shown);
        together_unfolds(head, shown(Piece::Edited(k)), rest.map_values(shown));
        assert((kept(count) + seq![Piece::Edited(k)] + rest).map_values(shown) =~= head + seq![
            shown(Piece::Edited(k)),
        ] + rest.map_values(shown));
    }
}

/// The text of repetitions, where there are any, is that of their piece.
proof fn one_piece_text(
    shown: spec_fn(Piece) -> Result<Seq<u8>, Error>,
    count: int,
    text: Result<Seq<u8>, Error>,
)
    requires
        count > 0 ==> shown(Piece::Kept(count)) == text,
        count <= 0 ==> text == Ok::<Seq<u8>, Error>(Seq::empty()),
    ensures
        together(kept(count).map_values(shown)) == text,
{
    let all = kept(count).map_values(shown);
    if count > 0 {
        assert(all[0] == text);
        assert(all.skip(1) =~= Seq::empty());
        assert(together(all.skip(1)) == Ok::<Seq<u8>, Error>(Seq::empty()));
        if let Ok(bytes) = text {
            assert(bytes + Seq::<u8>::empty() =~= bytes);
        }
    }
}

/// What takes the place of a row element is its pieces one after another.
pub proof fn row_splits_into_pieces(
    doc: Xml,
    text: Seq<u8>,
    scopes: Seq<Option<String>>,
    j: int,
    entries: Seq<(Address, String)>,
    k: int,
    cursor: u64,
    to: u64,
)
    ensures
        split_row(doc, text, scopes, j, entries, k, cursor, to) == together(
            row_pieces(entries, k, cursor, to).map_values(
                |p: Piece| row_text(doc, text, scopes, j, entries, p),
            ),
        ),
    decreases entries.len() - k,
{
    let shown = |p: Piece| row_text(doc, text, scopes, j, entries, p);
    let name = "number-rows-repeated"@;
    if k >= entries.len() || entries[k].0.0 >= to {
        let count = distance(cursor as int, to as int);
        one_piece_text(shown, count, repeated_markup(doc, text, j, name, count, None));
    } else {
        let number = entries[k].0.0;
        let next = after_row(entries, number, k + 1);
        let count = distance(cursor as int, number as int);
        let rest = row_pieces(entries, next, (number + 1) as u64, to);
        crate::xlsx::after_row_goes_on(entries, number, k + 1);
        row_splits_into_pieces(
            doc,
            text,
            scopes,
            j,
            entries,
            next,
            (number + 1) as u64,
            to,
        );
        one_piece_text(shown, count, repeated_markup(doc, text, j, name, count, None));
        let head = kept(count).map_values(shown);
        together_unfolds(head, shown(Piece::Edited(k)), rest.map_values(shown));
        assert((kept(count) + seq![Piece::Edited(k)] + rest).map_values(shown) =~= head + seq![
            shown(Piece::Edited(k)),
        ] + rest.map_values(shown));
    }
}

/// Splitting a cell around edits keeps the columns: the repetitions of its pieces add up to
/// the columns it reached over, every edited piece stands at the column of its entry, and
/// every edit of those columns has one. The edits left are not before the next cell.
pub proof fn split_cells_keep_their_columns(
    entries: Seq<(Address, String)>,
    k: int,
    row: u64,
    cursor: usize,
    to: usize,
)
    requires
        in_order(entries),
        cells_named(entries),
        0 <= k <= entries.len(),
        cursor <= to,
        is_before_col(entries, k, row, to) ==> cursor <= entries[k].0.1,
    ensures
        ({
            let pieces = cell_pieces(entries, k, row, cursor, to);
            &&& reach(pieces, pieces.len() as int) == to - cursor
            &&& forall|p: int|
                0 <= p < pieces.len() ==> match #[trigger] pieces[p] {
                    Piece::Kept(count) => count > 0,
                    Piece::Edited(e) => {
                        &&& k <= e < after_cols(entries, k, row, to) <= entries.len()
                        &&& entries[e].0.0 == row
                        &&& entries[e].0.1 == cursor + reach(pieces, p)
                    },
                }
            &&& forall|e: int|
                k <= e < after_cols(entries, k, row, to) ==> #[trigger] pieces.contains(
                    Piece::Edited(e),
                )
            &&& !is_before_col(entries, after_cols(entries, k, row, to), row, to)
        }),
    decreases entries.len() - k,
{
    let pieces = cell_pieces(entries, k, row, cursor, to);
    if !is_before_col(entries, k, row, to) {
        kept_reaches(distance(cursor as int, to as int));
    } else {
        let col = entries[k].0.1;
        let count = distance(cursor as int, col as int);
        let next = (col + 1) as usize;
        let head = kept(count);
        let front = head + seq![Piece::Edited(k)];
        let rest = cell_pieces(entries, k + 1, row, next, to);
        if is_before_col(entries, k + 1, row, to) {
            assert(before(entries[k].0, entries[k + 1].0));
        }
        split_cells_keep_their_columns(entries, k + 1, row, next, to);
        kept_reaches(count);
        reach_joins(head, seq![Piece::Edited(k)], front.len() as int);
        assert(reach(seq![Piece::Edited(k)], 0) == 0);
        assert(reach(seq![Piece::Edited(k)], 1) == 1);
        assert(reach(front, front.len() as int) == count + 1);
        assert(pieces =~= front + rest);
        reach_joins(front, rest, pieces.len() as int);
        assert forall|p: int| 0 <= p < pieces.len() implies match #[trigger] pieces[p] {
            Piece::Kept(n) => n > 0,
            Piece::Edited(e) => {
                &&& k <= e < after_cols(entries, k, row, to) <= entries.len()
                &&& entries[e].0.0 == row
                &&& entries[e].0.1 == cursor + reach(pieces, p)
            },
        } by {
            reach_joins(front, rest, p);
            if p < front.len() {
                reach_joins(head, seq![Piece::Edited(k)], p);
                assert(pieces[p] == front[p]);
                if p < head.len() {
                    assert(front[p] == head[p]);
                } else {
                    assert(front[p] == Piece::Edited(k));
                    cols_go_on(entries, k, row, to);
                }
            } else {
                assert(pieces[p] == rest[p - front.len()]);
                assert(reach(rest, 0) == 0);
            }
        }
        assert forall|e: int| k <= e < after_cols(entries, k, row, to) implies
            #[trigger] pieces.contains(Piece::Edited(e)) by {
            if e == k {
                assert(pieces[front.len() - 1] == Piece::Edited(k));
            } else {
                assert(rest.contains(Piece::Edited(e)));
                let p = choose|p: int| 0 <= p < rest.len() && rest[p] == Piece::Edited(e);
                assert(pieces[front.len() + p] == Piece::Edited(e));
            }
        }
    }
}

/// Splitting a row element around edits keeps the rows: the repetitions of its pieces add up
/// to the rows it reached over, every edited piece stands at the row of its entry, and every
/// edit of those rows is of one of them. The edits left are not before the next row.
pub proof fn split_rows_keep_their_numbers(
    entries: Seq<(Address, String)>,
    k: int,
    cursor: u64,
    to: u64,
)
    requires
        in_order(entries),
        cells_named(entries),
        0 <= k <= entries.len(),
        cursor <= to,
        k < entries.len() && entries[k].0.0 < to ==> cursor <= entries[k].0.0,
    ensures
        ({
            let pieces = row_pieces(entries, k, cursor, to);
            &&& reach(pieces, pieces.len() as int) == to - cursor
            &&& forall|p: int|
                0 <= p < pieces.len() ==> match #[trigger] pieces[p] {
                    Piece::Kept(count) => count > 0,
                    Piece::Edited(e) => {
                        &&& k <= e < after_rows(entries, k, to) <= entries.len()
                        &&& entries[e].0.0 == cursor + reach(pieces, p)
                    },
                }
            &&& forall|e: int|
                k <= e < after_rows(entries, k, to) ==> has_row_of(
                    pieces,
                    entries,
                    #[trigger] entries[e].0.0,
                )
            &&& after_rows(entries, k, to) < entries.len() ==> to <= entries[after_rows(
                entries,
                k,
                to,
            )].0.0
        }),
    decreases entries.len() - k,
{
    let pieces = row_pieces(entries, k, cursor, to);
    if k >= entries.len() || entries[k].0.0 >= to {
        kept_reaches(distance(cursor as int, to as int));
    } else {
        let number = entries[k].0.0;
        let count = distance(cursor as int, number as int);
        let after = after_row(entries, number, k + 1);
        let next = (number + 1) as u64;
        let head = kept(count);
        let front = head + seq![Piece::Edited(k)];
        let rest = row_pieces(entries, after, next, to);
        row_entries(entries, number, k + 1, to);
        if after < entries.len() {
            assert(before(entries[k].0, entries[after].0));
        }
        split_rows_keep_their_numbers(entries, after, next, to);
        kept_reaches(count);
        reach_joins(head, seq![Piece::Edited(k)], front.len() as int);
        assert(reach(seq![Piece::Edited(k)], 0) == 0);
        assert(reach(seq![Piece::Edited(k)], 1) == 1);
        assert(reach(front, front.len() as int) == count + 1);
        assert(pieces =~= front + rest);
        reach_joins(front, rest, pieces.len() as int);
        assert forall|p: int| 0 <= p < pieces.len() implies match #[trigger] pieces[p] {
            Piece::Kept(n) => n > 0,
            Piece::Edited(e) => {
                &&& k <= e < after_rows(entries, k, to) <= entries.len()
                &&& entries[e].0.0 == cursor + reach(pieces, p)
            },
        } by {
            reach_joins(front, rest, p);
            if p < front.len() {
                reach_joins(head, seq![Piece::Edited(k)], p);
                assert(pieces[p] == front[p]);
                if p < head.len() {
                    assert(front[p] == head[p]);
                } else {
                    assert(front[p] == Piece::Edited(k));
                }
            } else {
                assert(pieces[p] == rest[p - front.len()]);
                assert(reach(rest, 0) == 0);
            }
        }
        assert forall|e: int| k <= e < after_rows(entries, k, to) implies has_row_of(
            pieces,
            entries,
            #[trigger] entries[e].0.0,
        ) by {
            if e < after {
                assert(entries[e].0.0 == number);
                assert(pieces[front.len() - 1] == Piece::Edited(k));
            } else {
                assert(has_row_of(rest, entries, entries[e].0.0));
                let p = choose|p: int|
                    0 <= p < rest.len() && ((#[trigger] rest[p]) matches Piece::Edited(i)
                        && entries[i].0.0 == entries[e].0.0);
                assert(pieces[front.len() + p] == rest[p]);
            }
        }
    }
}

/// One of the pieces is of this row.
pub open spec fn has_row_of(
    pieces: Seq<Piece>,
    entries: Seq<(Address, String)>,
    row: u64,
) -> bool {
    exists|p: int|
        0 <= p < pieces.len() && ((#[trigger] pieces[p]) matches Piece::Edited(e)
            && entries[e].0.0 == row)
}

/// The entries of a row, and those of the rows before a row, within the list.
proof fn row_entries(entries: Seq<(Address, String)>, number: u64, k: int, to: u64)
    requires
        0 < k <= entries.len(),
        number < to,
    ensures
        k <= after_row(entries, number, k) <= after_rows(entries, k, to) <= entries.len(),
        after_rows(entries, after_row(entries, number, k), to) == after_rows(entries, k, to),
        forall|e: int|
            k <= e < after_row(entries, number, k) ==> (#[trigger] entries[e]).0.0 == number,
        after_row(entries, number, k) < entries.len() ==> entries[after_row(
            entries,
            number,
            k,
        )].0.0 != number,
    decreases entries.len() - k,
{
    if k < entries.len() && entries[k].0.0 == number {
        row_entries(entries, number, k + 1, to);
    } else {
        rows_go_on(entries, k, to);
    }
}

proof fn rows_go_on(entries: Seq<(Address, String)>, k: int, to: u64)
    requires
        0 <= k <= entries.len(),
    ensures
        k <= after_rows(entries, k, to) <= entries.len(),
    decreases entries.len() - k,
{
    if k < entries.len() && entries[k].0.0 < to {
        rows_go_on(entries, k + 1, to);
    }
}

/// The pieces that follow the cells of a row, which end at column `col`: the edited ones,
/// and empty cells before them.
pub open spec fn trailing_pieces(
    entries: Seq<(Address, String)>,
    k: int,
    number: u64,
    col: usize,
) -> Seq<Piece>
    decreases entries.len() - k,
{
    if k >= entries.len() || entries[k].0.0 != number {
        Seq::empty()
    } else {
        let at = entries[k].0.1;
        kept(distance(col as int, at as int)) + seq![Piece::Edited(k)] + trailing_pieces(
            entries,
            k + 1,
            number,
            (at + 1) as usize,
        )
    }
}

/// The text of a piece that follows the cells of a row.
pub open spec fn trailing_text(entries: Seq<(Address, String)>, piece: Piece) -> Seq<char> {
    match piece {
        Piece::Kept(count) => "<table:table-cell xmlns:table=\""@ + TABLE@
            + "\" table:number-columns-repeated=\""@ + crate::text::decimal(count as nat)
            + "\"/>"@,
        Piece::Edited(e) => new_cell(entries[e].1@),
    }
}

/// What follows the cells of a row is its pieces one after another.
pub proof fn trailing_cells_are_pieces(
    entries: Seq<(Address, String)>,
    k: int,
    number: u64,
    col: usize,
)
    ensures
        trailing_cells(entries, k, number, col) == texts_of(
            entries,
            trailing_pieces(entries, k, number, col),
        ),
    decreases entries.len() - k,
{
    if k < entries.len() && entries[k].0.0 == number {
        let pieces = trailing_pieces(entries, k, number, col);
        let at = entries[k].0.1;
        let count = distance(col as int, at as int);
        let rest = trailing_pieces(entries, k + 1, number, (at + 1) as usize);
        trailing_cells_are_pieces(entries, k + 1, number, (at + 1) as usize);
        if count > 0 {
            assert(pieces[0] == Piece::Kept(count));
            assert(pieces.skip(1)[0] == Piece::Edited(k));
            assert(pieces.skip(1).skip(1) =~= rest);
            assert(texts_of(entries, pieces.skip(1)) == new_cell(entries[k].1@) + texts_of(
                entries,
                rest,
            ));
        } else {
            assert(pieces[0] == Piece::Edited(k));
            assert(pieces.skip(1) =~= rest);
        }
        assert(texts_of(entries, pieces) =~= trailing_cells(entries, k, number, col));
    }
}

/// Cells that follow those of a row stand at the columns of their entries: the pieces before
/// an edited one reach from `col` up to its column.
pub proof fn trailing_cells_stand_at_their_columns(
    entries: Seq<(Address, String)>,
    k: int,
    number: u64,
    col: usize,
)
    requires
        in_order(entries),
        cells_named(entries),
        0 <= k <= entries.len(),
        k < entries.len() && entries[k].0.0 == number ==> col <= entries[k].0.1,
    ensures
        ({
            let pieces = trailing_pieces(entries, k, number, col);
            &&& forall|p: int|
                0 <= p < pieces.len() ==> match #[trigger] pieces[p] {
                    Piece::Kept(count) => count > 0,
                    Piece::Edited(e) => {
                        &&& k <= e < after_row(entries, number, k) <= entries.len()
                        &&& entries[e].0 == (number, (col + reach(pieces, p)) as usize)
                    },
                }
            &&& forall|e: int|
                k <= e < after_row(entries, number, k) ==> #[trigger] pieces.contains(
                    Piece::Edited(e),
                )
        }),
    decreases entries.len() - k,
{
    let pieces = trailing_pieces(entries, k, number, col);
    crate::xlsx::after_row_goes_on(entries, number, k);
    if k < entries.len() && entries[k].0.0 == number {
        let at = entries[k].0.1;
        let count = distance(col as int, at as int);
        let next = (at + 1) as usize;
        let head = kept(count);
        let front = head + seq![Piece::Edited(k)];
        let rest = trailing_pieces(entries, k + 1, number, next);
        if k + 1 < entries.len() {
            assert(before(entries[k].0, entries[k + 1].0));
        }
        trailing_cells_stand_at_their_columns(entries, k + 1, number, next);
        crate::xlsx::after_row_goes_on(entries, number, k + 1);
        kept_reaches(count);
        reach_joins(head, seq![Piece::Edited(k)], front.len() as int);
        assert(reach(seq![Piece::Edited(k)], 0) == 0);
        assert(reach(seq![Piece::Edited(k)], 1) == 1);
        assert(reach(front, front.len() as int) == count + 1);
        assert(pieces =~= front + rest);
        assert forall|p: int| 0 <= p < pieces.len() implies match #[trigger] pieces[p] {
            Piece::Kept(n) => n > 0,
            Piece::Edited(e) => {
                &&& k <= e < after_row(entries, number, k) <= entries.len()
                &&& entries[e].0 == (number, (col + reach(pieces, p)) as usize)
            },
        } by {
            reach_joins(front, rest, p);
            if p < front.len() {
                reach_joins(head, seq![Piece::Edited(k)], p);
                assert(pieces[p] == front[p]);
                if p < head.len() {
                    assert(front[p] == head[p]);
                } else {
                    assert(front[p] == Piece::Edited(k));
                }
            } else {
                assert(pieces[p] == rest[p - front.len()]);
                assert(reach(rest, 0) == 0);
            }
        }
        assert forall|e: int| k <= e < after_row(entries, number, k) implies
            #[trigger] pieces.contains(Piece::Edited(e)) by {
            if e == k {
                assert(pieces[front.len() - 1] == Piece::Edited(k));
            } else {
                assert(rest.contains(Piece::Edited(e)));
                let p = choose|p: int| 0 <= p < rest.len() && rest[p] == Piece::Edited(e);
                assert(pieces[front.len() + p] == Piece::Edited(e));
            }
        }
    }
}

/// The texts of pieces that follow the cells of a row.
pub open spec fn texts_of(entries: Seq<(Address, String)>, pieces: Seq<Piece>) -> Seq<char>
    decreases pieces.len(),
{
    if pieces.len() == 0 {
        Seq::empty()
    } else {
        trailing_text(entries, pieces[0]) + texts_of(entries, pieces.skip(1))
    }
}

/// The entries up to a column go on from the first, and within the list.
proof fn cols_go_on(entries: Seq<(Address, String)>, k: int, row: u64, to: usize)
    requires
        0 <= k <= entries.len(),
    ensures
        k <= after_cols(entries, k, row, to) <= entries.len(),
        is_before_col(entries, k, row, to) ==> k < after_cols(entries, k, row, to),
    decreases entries.len() - k,
{
    if is_before_col(entries, k, row, to) {
        cols_go_on(entries, k + 1, row, to);
    }
}

} // verus!
