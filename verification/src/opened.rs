//! What opening a sheet of a workbook gives: which sheets there are, which is taken, and what
//! its cells hold.
use crate::a1::Address;
use crate::book::{is_import, selected, sheet_named, ChosenView, GridView};
use crate::error::Error;
use crate::inside::{
    holds_value, holds_value_in, values_are_of_the_first_attribute,
    values_are_of_the_first_full_attribute,
};
use crate::package::{
    archive_refusal, directory, members_refusal, name_start, relationship, relationships_of,
    sheets_from, tables_from, target_of, zip_members, Listed, PACKAGE_LIMIT, TABLE, XML_LIMIT,
};
use crate::records::row_of;
use crate::sheet::Sheet;
use crate::tree::{value, value_in};
use crate::xml::{Xml, XmlNode};
use vstd::prelude::*;

verus! {

/// The text of a cell in a range that was read: none outside it.
pub open spec fn cell_text(grid: GridView, row: int, col: int) -> Seq<char> {
    match grid.start {
        Some(first) => if row >= first.0 && col >= first.1 && row - first.0 < grid.rows.len() && col
            - first.1 < grid.rows[row - first.0].len() {
            grid.rows[row - first.0][col - first.1]
        } else {
            Seq::empty()
        },
        None => Seq::empty(),
    }
}

/// The range reaches over so many rows and columns.
pub open spec fn reaches(grid: GridView, rows: int, cols: int) -> bool {
    match grid.end {
        Some(last) => rows == last.0 + 1 && cols == last.1 + 1,
        None => rows == 0 && cols == 0,
    }
}

/// An opened sheet holds the values that were read, cell for cell, over the rectangle that
/// values and formulas reach, and every formula. A text with tabs or line breaks stands in
/// place of what was read. The one value that does not read back is a first one that begins
/// with the character of the byte order mark.
pub proof fn opened_sheets_hold_every_cell(
    sheet: Sheet,
    path: Seq<char>,
    chosen: ChosenView,
    values: GridView,
    formulas: Option<GridView>,
    a: (int, int),
    b: (int, int),
    row: int,
    col: int,
)
    requires
        is_import(sheet, path, chosen, values, formulas),
        reaches(values, a.0, a.1),
        match formulas {
            Some(grid) => reaches(grid, b.0, b.1),
            None => b == (0int, 0int),
        },
        ({
            let rows = if a.0 > b.0 {
                a.0
            } else {
                b.0
            };
            let cols = if a.1 > b.1 {
                a.1
            } else {
                b.1
            };
            0 <= row < rows <= u64::MAX && 0 <= col < cols <= usize::MAX
        }),
        !crate::records::starts_with_mark(
            if chosen.marks.overrides.contains_key((0u64, 0usize)) {
                chosen.marks.overrides[(0u64, 0usize)]
            } else {
                cell_text(values, 0, 0)
            },
        ),
    ensures
        ({
            let rows = if a.0 > b.0 {
                a.0
            } else {
                b.0
            };
            let cols = if a.1 > b.1 {
                a.1
            } else {
                b.1
            };
            let at: Address = (row as u64, col as usize);
            let fields = row_of(sheet.data@, 44, row as nat);
            &&& crate::index::has_exactly(sheet.data@, 44, rows as nat)
            &&& fields.len() == cols
            &&& fields[col] == if chosen.marks.overrides.contains_key(at) {
                chosen.marks.overrides[at]
            } else {
                cell_text(values, row, col)
            }
            &&& sheet.workbook matches Some(book) && {
                let formula = match formulas {
                    Some(grid) => cell_text(grid, row, col),
                    None => Seq::empty(),
                };
                &&& book.formulas@.contains_key(at) <==> formula.len() > 0
                &&& formula.len() > 0 ==> book.formulas@[at] == formula
                &&& book.protected@ == chosen.marks.protected
                &&& book.name@ == chosen.name
                &&& book.part@ == chosen.part
                &&& book.format == chosen.format
            }
            &&& sheet.edits@.dom() == Set::<Address>::empty()
            &&& sheet.order is None
        }),
{
    let (rows, cols) = crate::book::extent(values, formulas);
    let overrides = chosen.marks.overrides;
    let all = crate::book::imported_rows(values, overrides, rows, cols);
    assert(crate::save::holds_exactly(sheet.data@, 44, all));
    assert(all[row] == crate::book::imported_row(values, overrides, row, cols));
    assert(all[row][col] == crate::book::imported(values, overrides, row, col));
    assert(sheet.edits@.dom() =~= Set::<Address>::empty());
}

/// A sheet is taken by its name, the first of those that have it; without a name the first
/// of all is taken. It is refused where there is none.
pub proof fn sheets_are_taken_by_name(
    list: Seq<(Seq<char>, Seq<char>)>,
    name: Seq<char>,
    i: int,
)
    ensures
        selected(list, Some(name)) == Ok::<int, Seq<char>>(i) <==> 0 <= i < list.len()
            && list[i].0 == name && forall|k: int| 0 <= k < i ==> (#[trigger] list[k]).0 != name,
        selected(list, Some(name)) is Err <==> forall|k: int|
            0 <= k < list.len() ==> (#[trigger] list[k]).0 != name,
        selected(list, None) == (if list.len() > 0 {
            Ok::<int, Seq<char>>(0)
        } else {
            Err(Error::NoSheets.message())
        }),
{
    named_is_first(list, name, 0);
    let n = sheet_named(list, name, 0);
    if 0 <= i < list.len() && list[i].0 == name && forall|k: int|
        0 <= k < i ==> (#[trigger] list[k]).0 != name {
        if i < n {
            assert(list[i].0 != name);
        } else if n < i {
            assert(list[n].0 != name);
        }
    }
}

proof fn named_is_first(list: Seq<(Seq<char>, Seq<char>)>, name: Seq<char>, i: int)
    requires
        0 <= i <= list.len(),
    ensures
        ({
            let n = sheet_named(list, name, i);
            &&& i <= n <= list.len()
            &&& n < list.len() ==> list[n].0 == name
            &&& forall|k: int| i <= k < n ==> (#[trigger] list[k]).0 != name
        }),
    decreases list.len() - i,
{
    if i < list.len() && list[i].0 != name {
        named_is_first(list, name, i + 1);
    }
}

/// The node is a table of an ODS document.
pub open spec fn is_table(node: XmlNode) -> bool {
    node.element && node.name@ == "table"@ && (node.namespace matches Some(n) && n@ == TABLE@)
}

/// The places are those of all nodes from `i` on that are meant, in order.
pub open spec fn are_places(
    nodes: Seq<XmlNode>,
    meant: spec_fn(XmlNode) -> bool,
    i: int,
    places: Seq<int>,
) -> bool {
    &&& forall|k: int|
        0 <= k < places.len() ==> i <= #[trigger] places[k] < nodes.len() && meant(nodes[places[k]])
    &&& forall|k: int, l: int|
        0 <= k < l < places.len() ==> #[trigger] places[k] < #[trigger] places[l]
    &&& forall|n: int|
        i <= n < nodes.len() && meant(#[trigger] nodes[n]) ==> places.contains(n)
}

/// Without the first place, the places are those of the nodes after it.
proof fn places_go_on(
    nodes: Seq<XmlNode>,
    meant: spec_fn(XmlNode) -> bool,
    i: int,
    places: Seq<int>,
)
    requires
        0 <= i < nodes.len(),
        are_places(nodes, meant, i, places),
    ensures
        meant(nodes[i]) ==> places.len() > 0 && places[0] == i && are_places(
            nodes,
            meant,
            i + 1,
            places.skip(1),
        ),
        !meant(nodes[i]) ==> are_places(nodes, meant, i + 1, places),
{
    if meant(nodes[i]) {
        assert(places.contains(i));
        let k = choose|k: int| 0 <= k < places.len() && places[k] == i;
        if k > 0 {
            assert(places[0] < places[k]);
        }
        let rest = places.skip(1);
        assert forall|l: int| 0 <= l < rest.len() implies i + 1 <= #[trigger] rest[l]
            < nodes.len() && meant(nodes[rest[l]]) by {
            assert(rest[l] == places[l + 1]);
            assert(places[0] < places[l + 1]);
        }
        assert forall|l: int, m: int| 0 <= l < m < rest.len() implies #[trigger] rest[l]
            < #[trigger] rest[m] by {
            assert(places[l + 1] < places[m + 1]);
        }
        assert forall|n: int| i + 1 <= n < nodes.len() && meant(#[trigger] nodes[n]) implies
            rest.contains(n) by {
            assert(places.contains(n));
            let l = choose|l: int| 0 <= l < places.len() && places[l] == n;
            assert(rest[l - 1] == n);
        }
    } else {
        assert forall|l: int| 0 <= l < places.len() implies i + 1 <= #[trigger] places[l]
            < nodes.len() && meant(nodes[places[l]]) by {
            assert(meant(nodes[places[l]]));
        }
    }
}

/// The node has no table name.
pub open spec fn is_nameless(doc: Xml, n: int) -> bool {
    forall|text: Seq<char>| !holds_value_in(doc.attributes@[n]@, TABLE@, "name"@, text)
}

/// The sheets of an ODS document are its tables: each of them, by its name and in order.
pub proof fn every_table_is_a_sheet(doc: Xml, i: int, places: Seq<int>, k: int)
    requires
        0 <= i <= doc.nodes@.len(),
        are_places(doc.nodes@, |n: XmlNode| is_table(n), i, places),
    ensures
        tables_from(doc, i) matches Ok(list) ==> list.len() == places.len(),
        tables_from(doc, i) matches Ok(list) ==> (0 <= k < places.len() ==> holds_value_in(
            doc.attributes@[places[k]]@,
            TABLE@,
            "name"@,
            list[k].0,
        ) && list[k].1 == "content.xml"@),
        tables_from(doc, i) is Err ==> exists|n: int|
            0 <= n < places.len() && is_nameless(doc, #[trigger] places[n]),
    decreases doc.nodes@.len() - i,
{
    let meant = |n: XmlNode| is_table(n);
    if i < doc.nodes@.len() {
        places_go_on(doc.nodes@, meant, i, places);
        if meant(doc.nodes@[i]) {
            let rest = places.skip(1);
            every_table_is_a_sheet(doc, i + 1, rest, k - 1);
            let name = value_in(doc, i, TABLE@, "name"@);
            match name {
                Some(text) => {
                    values_are_of_the_first_full_attribute(doc, i, TABLE@, "name"@, text);
                    if tables_from(doc, i) is Err {
                        let n = choose|n: int|
                            0 <= n < rest.len() && is_nameless(doc, #[trigger] rest[n]);
                        assert(places[n + 1] == rest[n]);
                    } else if 0 < k < places.len() {
                        assert(places[k] == rest[k - 1]);
                    }
                },
                None => {
                    assert forall|t: Seq<char>|
                        !holds_value_in(doc.attributes@[i]@, TABLE@, "name"@, t) by {
                        values_are_of_the_first_full_attribute(doc, i, TABLE@, "name"@, t);
                    }
                    assert(is_nameless(doc, places[0]));
                },
            }
        } else {
            every_table_is_a_sheet(doc, i + 1, places, k);
        }
    } else {
        if places.len() > 0 {
            assert(places[0] < doc.nodes@.len());
        }
    }
}

/// Node `rel` is the first relationship with this identifier.
pub open spec fn is_relationship(rels: Xml, id: Seq<char>, rel: int) -> bool {
    &&& 0 <= rel < rels.nodes@.len()
    &&& holds_value(rels.attributes@[rel]@, "Id"@, id)
    &&& forall|n: int|
        0 <= n < rel ==> !holds_value((#[trigger] rels.attributes@[n])@, "Id"@, id)
}

proof fn relationship_is_first(rels: Xml, id: Seq<char>, i: int)
    requires
        0 <= i <= rels.nodes@.len(),
        forall|n: int| 0 <= n < i ==> !holds_value((#[trigger] rels.attributes@[n])@, "Id"@, id),
    ensures
        relationship(rels, id, i) < rels.nodes@.len() ==> is_relationship(
            rels,
            id,
            relationship(rels, id, i),
        ),
    decreases rels.nodes@.len() - i,
{
    if i < rels.nodes@.len() {
        values_are_of_the_first_attribute(rels, i, "Id"@, id);
        if value(rels, i, "Id"@) != Some(id) {
            relationship_is_first(rels, id, i + 1);
        }
    }
}

/// The sheet element leads, by its identifier and the target of that relationship, to the
/// part.
pub open spec fn leads_to(
    book: Xml,
    rels: Xml,
    base: Seq<char>,
    n: int,
    sheet: (Seq<char>, Seq<char>),
) -> bool {
    &&& holds_value(book.attributes@[n]@, "name"@, sheet.0)
    &&& exists|id: Seq<char>, rel: int, target: Seq<char>|
        {
            &&& #[trigger] holds_value(book.attributes@[n]@, "id"@, id)
            &&& #[trigger] is_relationship(rels, id, rel)
            &&& #[trigger] holds_value(rels.attributes@[rel]@, "Target"@, target)
            &&& !holds_value(rels.attributes@[rel]@, "TargetMode"@, "External"@)
            &&& target_of(base, target) == Ok::<Seq<char>, Error>(sheet.1)
        }
}

/// The sheets of an XLSX workbook are its sheet elements: each of them in order, by its name
/// and with the part that its relationship leads to.
pub proof fn every_sheet_element_is_a_sheet(
    book: Xml,
    rels: Xml,
    base: Seq<char>,
    i: int,
    places: Seq<int>,
    k: int,
)
    requires
        0 <= i <= book.nodes@.len(),
        are_places(book.nodes@, |n: XmlNode| n.name@ == "sheet"@, i, places),
    ensures
        sheets_from(book, rels, base, i) matches Ok(list) ==> list.len() == places.len(),
        sheets_from(book, rels, base, i) matches Ok(list) ==> (0 <= k < places.len() ==> leads_to(
            book,
            rels,
            base,
            places[k],
            list[k],
        )),
    decreases book.nodes@.len() - i,
{
    let meant = |n: XmlNode| n.name@ == "sheet"@;
    if i < book.nodes@.len() {
        places_go_on(book.nodes@, meant, i, places);
        if meant(book.nodes@[i]) {
            let rest = places.skip(1);
            every_sheet_element_is_a_sheet(book, rels, base, i + 1, rest, k - 1);
            if let Ok(list) = sheets_from(book, rels, base, i) {
                let name = value(book, i, "name"@)->0;
                let id = value(book, i, "id"@)->0;
                let rel = relationship(rels, id, 0);
                values_are_of_the_first_attribute(book, i, "name"@, name);
                values_are_of_the_first_attribute(book, i, "id"@, id);
                relationship_is_first(rels, id, 0);
                let target = value(rels, rel, "Target"@)->0;
                values_are_of_the_first_attribute(rels, rel, "Target"@, target);
                values_are_of_the_first_attribute(rels, rel, "TargetMode"@, "External"@);
                assert(leads_to(book, rels, base, i, list[0]));
                if 0 < k < places.len() {
                    assert(places[k] == rest[k - 1]);
                    assert(list[k] == sheets_from(book, rels, base, i + 1)->Ok_0[k - 1]);
                }
            }
        } else {
            every_sheet_element_is_a_sheet(book, rels, base, i + 1, places, k);
        }
    } else {
        if places.len() > 0 {
            assert(places[0] < book.nodes@.len());
        }
    }
}

/// The relationships of a part lie beside it in `_rels`, under its name.
pub proof fn relationships_lie_beside_their_part(path: Seq<char>, name: Seq<char>)
    requires
        path.len() == 0 || path.last() == '/',
        forall|i: int| 0 <= i < name.len() ==> #[trigger] name[i] != '/',
    ensures
        directory(path + name) == path,
        relationships_of(path + name) == path + "_rels/"@ + name + ".rels"@,
{
    let part = path + name;
    name_starts_after_the_path(path, name, part.len() as int);
    assert(part.take(path.len() as int) =~= path);
    assert(part.skip(path.len() as int) =~= name);
}

proof fn name_starts_after_the_path(path: Seq<char>, name: Seq<char>, n: int)
    requires
        path.len() == 0 || path.last() == '/',
        forall|i: int| 0 <= i < name.len() ==> #[trigger] name[i] != '/',
        path.len() <= n <= path.len() + name.len(),
    ensures
        name_start(path + name, n) == path.len(),
    decreases n,
{
    if n > path.len() {
        assert((path + name)[n - 1] == name[n - 1 - path.len()]);
        name_starts_after_the_path(path, name, n - 1);
    } else if n > 0 {
        assert((path + name)[n - 1] == path.last());
    }
}

/// The list of members is fine: each reads, none has the name of another, they are no larger
/// than a package may be, and no XML member is larger than one may be. `sums` are the bytes
/// of the members before each.
pub open spec fn is_fine(list: Seq<Listed>, sums: Seq<int>, i: int) -> bool {
    let bytes = (list[i]->Ok_0).1;
    &&& list[i] is Ok
    &&& forall|k: int|
        0 <= k < i ==> (#[trigger] list[k] matches Ok(m) ==> m.0 != (list[i]->Ok_0).0)
    &&& sums[i] + bytes <= PACKAGE_LIMIT
    &&& crate::text::ends_with((list[i]->Ok_0).0, ".xml"@) ==> bytes <= XML_LIMIT
}

/// A package is refused exactly where one of its members is not fine.
pub proof fn packages_are_refused_for_their_members(
    data: Seq<u8>,
    list: Seq<Listed>,
    sums: Seq<int>,
)
    requires
        zip_members(data) == Ok::<Seq<Listed>, Seq<char>>(list),
        sums.len() == list.len() + 1,
        sums[0] == 0,
        forall|i: int|
            0 <= i < list.len() && (#[trigger] list[i]) is Ok ==> sums[i + 1] == sums[i]
                + (list[i]->Ok_0).1,
    ensures
        archive_refusal(data) is None <==> forall|i: int|
            0 <= i < list.len() ==> #[trigger] is_fine(list, sums, i),
{
    members_are_refused(list, sums, 0);
}

proof fn members_are_refused(list: Seq<Listed>, sums: Seq<int>, i: int)
    requires
        0 <= i <= list.len(),
        sums.len() == list.len() + 1,
        forall|k: int|
            0 <= k < list.len() && (#[trigger] list[k]) is Ok ==> sums[k + 1] == sums[k]
                + (list[k]->Ok_0).1,
    ensures
        members_refusal(list, i, sums[i]) is None <==> forall|k: int|
            i <= k < list.len() ==> #[trigger] is_fine(list, sums, k),
    decreases list.len() - i,
{
    if i < list.len() {
        if is_fine(list, sums, i) {
            assert(list[i] is Ok);
            assert(!crate::package::listed_before(list, i, (list[i]->Ok_0).0));
            members_are_refused(list, sums, i + 1);
        } else if list[i] is Ok {
            let name = (list[i]->Ok_0).0;
            if !(forall|k: int| 0 <= k < i ==> (#[trigger] list[k] matches Ok(m) ==> m.0 != name)) {
                assert(crate::package::listed_before(list, i, name));
            }
        }
    }
}

} // verus!
