//! Workbooks whose cells can be read: what a reader of cells takes without checking it, and
//! whether a package has it.
use crate::a1::{cell_of, parse_cell};
use crate::package::{
    archive, archive_refusal, listed_names, part_text, read_xml, zip_members,
};
use crate::text::{
    all_digits, chars, contains, digit_char, find_char, found_at, has_start, is_digit, joined, number,
    occurs_at, parse_number, parts, same, small, small_letters, split, string, views,
};
use crate::workbook::{check_size, fits, Format, COLUMN_LIMIT, ROW_LIMIT};
use crate::xml::{
    attribute_views, parse_xml, xml_attributes, xml_error, xml_nodes, AttributeView, NodeView, Xml,
    XmlAttribute, XmlNode, NODE_LIMIT,
};
use vstd::prelude::*;

verus! {

/// The part reads as text and parses.
pub open spec fn is_well_formed(data: Seq<u8>, name: Seq<char>) -> bool {
    part_text(data, name) matches Ok(text) && xml_error(text) is None
}

/// The bytes begin with the signature of a compound file.
pub open spec fn is_compound(data: Seq<u8>) -> bool {
    &&& data.len() >= 8
    &&& data[0] == 0xd0 && data[1] == 0xcf && data[2] == 0x11 && data[3] == 0xe0
    &&& data[4] == 0xa1 && data[5] == 0xb1 && data[6] == 0x1a && data[7] == 0xe1
}

/// A member name as a reader that takes either case and either slash compares it.
pub open spec fn folded(name: Seq<char>) -> Seq<char> {
    name.map_values(
        |c: char|
            if c == '\\' {
                '/'
            } else {
                small(c)
            },
    )
}

/// The first of the names from `i` on that reads so when it is folded.
pub open spec fn member_named(names: Seq<Seq<char>>, name: Seq<char>, i: int) -> int
    decreases names.len() - i,
{
    if i >= names.len() {
        names.len() as int
    } else if folded(names[i]) == name {
        i
    } else {
        member_named(names, name, i + 1)
    }
}

/// The nodes of a part.
pub open spec fn nodes_of(data: Seq<u8>, name: Seq<char>) -> Seq<NodeView> {
    xml_nodes(part_text(data, name)->Ok_0, NODE_LIMIT)->Ok_0
}

/// The attributes of the nodes of a part.
pub open spec fn lists_of(data: Seq<u8>, name: Seq<char>) -> Seq<Seq<AttributeView>> {
    xml_attributes(part_text(data, name)->Ok_0, NODE_LIMIT)->Ok_0
}

/// One of the attributes has this name and value.
pub open spec fn has_value(list: Seq<AttributeView>, name: Seq<char>, value: Seq<char>) -> bool {
    exists|j: int|
        0 <= j < list.len() && (#[trigger] list[j]).name == name && list[j].value == value
}

/// The member that a target of the workbook's relationships leads to.
pub open spec fn path_of(target: Seq<char>) -> Seq<char> {
    if occurs_at(target, "/xl/"@, 0) {
        target.skip(1)
    } else if occurs_at(target, "xl/"@, 0) {
        target
    } else {
        "xl/"@ + target
    }
}

/// One of the attributes is a target that leads to the path.
pub open spec fn has_target(list: Seq<AttributeView>, path: Seq<char>) -> bool {
    exists|j: int|
        0 <= j < list.len() && (#[trigger] list[j]).name == "Target"@ && folded(
            path_of(list[j].value),
        ) == path
}

/// The relationship with this id may lead to the path.
pub open spec fn id_leads(
    nodes: Seq<NodeView>,
    lists: Seq<Seq<AttributeView>>,
    id: Seq<char>,
    path: Seq<char>,
) -> bool {
    exists|r: int|
        0 <= r < nodes.len() && (#[trigger] nodes[r]).element && nodes[r].name == "Relationship"@
            && has_value(lists[r], "Id"@, id) && has_target(lists[r], path)
}

/// One of the attributes is an id that may lead to the path.
pub open spec fn has_id(
    list: Seq<AttributeView>,
    rels: Seq<NodeView>,
    rel_lists: Seq<Seq<AttributeView>>,
    path: Seq<char>,
) -> bool {
    exists|j: int|
        0 <= j < list.len() && (#[trigger] list[j]).name == "id"@ && id_leads(
            rels,
            rel_lists,
            list[j].value,
            path,
        )
}

/// The sheet with this name may lead to the path.
pub open spec fn name_leads(
    book: Seq<NodeView>,
    lists: Seq<Seq<AttributeView>>,
    rels: Seq<NodeView>,
    rel_lists: Seq<Seq<AttributeView>>,
    sheet: Seq<char>,
    path: Seq<char>,
) -> bool {
    exists|k: int|
        0 <= k < book.len() && (#[trigger] book[k]).element && book[k].name == "sheet"@
            && has_value(lists[k], "name"@, sheet) && has_id(lists[k], rels, rel_lists, path)
}

/// A text without control characters.
pub open spec fn is_plain(text: Seq<char>) -> bool {
    forall|i: int| 0 <= i < text.len() ==> ' ' <= #[trigger] text[i]
}

/// The first place from `k` on where an encoding is declared.
pub open spec fn declared_at(text: Seq<char>, k: int) -> int
    decreases text.len() - k,
{
    if k >= text.len() || occurs_at(text, "encoding"@, k) {
        k
    } else {
        declared_at(text, k + 1)
    }
}

/// The text declares no encoding, or its own.
pub open spec fn is_declared(text: Seq<char>) -> bool {
    let k = declared_at(text, 0);
    ||| k >= text.len()
    ||| occurs_at(text, "encoding=\"UTF-8\""@, k)
    ||| occurs_at(text, "encoding=\"utf-8\""@, k)
    ||| occurs_at(text, "encoding='UTF-8'"@, k)
    ||| occurs_at(text, "encoding='utf-8'"@, k)
}

/// The part parses, and is in the encoding that it declares.
pub open spec fn is_legible(data: Seq<u8>, name: Seq<char>) -> bool {
    is_well_formed(data, name) && is_declared(part_text(data, name)->Ok_0)
}

/// The member may hold the sheet with this name: by its place, and by the workbook and its
/// relationships where they are legible. Names with control characters, and targets with
/// references, are not told apart.
pub open spec fn may_hold(
    data: Seq<u8>,
    names: Seq<Seq<char>>,
    sheet: Seq<char>,
    member: Seq<char>,
) -> bool {
    let book = member_named(names, "xl/workbook.xml"@, 0);
    let rels = member_named(names, "xl/_rels/workbook.xml.rels"@, 0);
    let path = folded(member);
    &&& {
        ||| occurs_at(path, "xl/worksheets"@, 0)
        ||| occurs_at(path, "xl/chartsheets"@, 0)
        ||| occurs_at(path, "xl/dialogsheets"@, 0)
    }
    &&& book < names.len() && rels < names.len()
    &&& {
        ||| !is_plain(sheet)
        ||| !is_plain(path)
        ||| path.contains('&')
        ||| !is_legible(data, names[book])
        ||| !is_legible(data, names[rels])
        ||| name_leads(
            nodes_of(data, names[book]),
            lists_of(data, names[book]),
            nodes_of(data, names[rels]),
            lists_of(data, names[rels]),
            sheet,
            path,
        )
    }
}

/// The node begins what a shared string shows: a text or a run in a string of the list.
pub open spec fn begins_string(nodes: Seq<NodeView>, m: int) -> bool {
    &&& nodes[m].element
    &&& nodes[m].name == "t"@ || nodes[m].name == "r"@
    &&& nodes[m].parent matches Some(k) && k < nodes.len() && {
        &&& nodes[k as int].name == "si"@
        &&& nodes[k as int].parent matches Some(p) && p < nodes.len() && {
            &&& nodes[p as int].name == "sst"@
            &&& nodes[p as int].parent == Some(0usize)
        }
    }
}

/// The node is a list of strings inside another element, or a string that is not one of the
/// list's own.
pub open spec fn is_inner(nodes: Seq<NodeView>, m: int) -> bool {
    nodes[m].element && {
        ||| nodes[m].name == "sst"@ && nodes[m].parent != Some(0usize)
        ||| nodes[m].name == "si"@ && !(nodes[m].parent matches Some(p) && p < nodes.len()
            && nodes[p as int].name == "sst"@ && nodes[p as int].parent == Some(0usize))
    }
}

/// How many shared strings begin from node `m` on, each counted at its first text or run;
/// `last` is the string counted last. An inner list or string ends the count.
pub open spec fn strings_from(nodes: Seq<NodeView>, m: int, last: Option<usize>) -> nat
    decreases nodes.len() - m,
{
    if m >= nodes.len() || is_inner(nodes, m) {
        0
    } else if begins_string(nodes, m) && nodes[m].parent != last {
        1 + strings_from(nodes, m + 1, nodes[m].parent)
    } else {
        strings_from(nodes, m + 1, last)
    }
}

/// How many shared strings a package has, where they can be read.
pub open spec fn string_count(data: Seq<u8>, names: Seq<Seq<char>>) -> nat {
    let i = member_named(names, "xl/sharedstrings.xml"@, 0);
    if i < names.len() && is_well_formed(data, names[i]) {
        strings_from(nodes_of(data, names[i]), 0, None)
    } else {
        0
    }
}

/// The cell that a node is inside of, at whatever depth.
pub open spec fn cell_over(nodes: Seq<NodeView>, k: int) -> Option<int>
    decreases k,
{
    match nodes[k].parent {
        Some(p) => if p < k {
            if nodes[p as int].name == "c"@ {
                Some(p as int)
            } else {
                cell_over(nodes, p as int)
            }
        } else {
            None
        },
        None => None,
    }
}

/// The node has one child, a text with a number below `count`.
pub open spec fn is_index(nodes: Seq<NodeView>, k: int, count: nat) -> bool {
    &&& k + 1 < nodes.len()
    &&& nodes[k + 1].is_text
    &&& (nodes[k + 1].parent matches Some(p) && p == k)
    &&& (nodes[k + 1].text matches Some(text) && text.len() > 0 && all_digits(text) && number(text)
        < count)
    &&& !(k + 2 < nodes.len() && (nodes[k + 2].parent matches Some(p) && p == k))
}

/// A value inside a cell that holds a shared string is the index of one of the first `count`.
pub open spec fn is_good_value(
    nodes: Seq<NodeView>,
    lists: Seq<Seq<AttributeView>>,
    k: int,
    count: nat,
) -> bool {
    nodes[k].element && nodes[k].name == "v"@ ==> (cell_over(nodes, k) matches Some(p)
        ==> !has_value(lists[p], "t"@, "s"@) || is_index(nodes, k, count))
}

/// How many decimal digits a text has.
pub open spec fn digits_in(s: Seq<char>) -> nat
    decreases s.len(),
{
    if s.len() == 0 {
        0
    } else {
        digits_in(s.drop_last()) + if is_digit(s.last()) {
            1nat
        } else {
            0
        }
    }
}

/// How many ASCII letters a text has.
pub open spec fn letters_in(s: Seq<char>) -> nat
    decreases s.len(),
{
    if s.len() == 0 {
        0
    } else {
        letters_in(s.drop_last()) + if crate::a1::is_letter(s.last()) {
            1nat
        } else {
            0
        }
    }
}

/// The most digits of an address that is read into 32 bits.
pub const SHORT_DIGITS: usize = 9;

/// The most letters of an address that is read into 32 bits.
pub const SHORT_LETTERS: usize = 6;

/// The text has no more digits and letters than an address that is read into 32 bits.
pub open spec fn is_short(s: Seq<char>) -> bool {
    digits_in(s) <= SHORT_DIGITS && letters_in(s) <= SHORT_LETTERS
}

/// Every attribute with this name is short.
pub open spec fn are_short(list: Seq<AttributeView>, name: Seq<char>) -> bool {
    forall|j: int|
        0 <= j < list.len() && (#[trigger] list[j]).name == name ==> is_short(list[j].value)
}

/// The range has short ends, and the first is not past the second.
pub open spec fn is_ordered(s: Seq<char>) -> bool {
    let ends = parts(s, ':');
    &&& forall|i: int| 0 <= i < ends.len() ==> is_short(#[trigger] ends[i])
    &&& ends.len() == 2 ==> match (cell_of(ends[0]), cell_of(ends[1])) {
        (Ok(a), Ok(b)) => a.0 <= b.0 && a.1 <= b.1,
        _ => true,
    }
}

/// Every attribute with this name is a range in order.
pub open spec fn are_ordered(list: Seq<AttributeView>, name: Seq<char>) -> bool {
    forall|j: int|
        0 <= j < list.len() && (#[trigger] list[j]).name == name ==> is_ordered(list[j].value)
}

/// The value of the first attribute from `j` on with this name and without a namespace.
pub open spec fn plain_value(list: Seq<AttributeView>, name: Seq<char>, j: int) -> Option<Seq<char>>
    decreases list.len() - j,
{
    if j >= list.len() {
        None
    } else if list[j].name == name && list[j].namespace is None {
        Some(list[j].value)
    } else {
        plain_value(list, name, j + 1)
    }
}

/// A cell is inside no other and has a short address, a row has a short number, and the
/// dimension of a sheet is in order.
pub open spec fn is_good_place(
    nodes: Seq<NodeView>,
    lists: Seq<Seq<AttributeView>>,
    k: int,
) -> bool {
    nodes[k].element ==> {
        &&& nodes[k].name == "c"@ ==> cell_over(nodes, k) is None && (plain_value(
            lists[k],
            "r"@,
            0,
        ) matches Some(r) && is_short(r))
        &&& nodes[k].name == "row"@ ==> are_short(lists[k], "r"@)
        &&& nodes[k].name == "dimension"@ ==> are_ordered(lists[k], "ref"@)
    }
}

/// A node of a sheet has a good place and value.
pub open spec fn is_good_node(
    nodes: Seq<NodeView>,
    lists: Seq<Seq<AttributeView>>,
    k: int,
    count: nat,
) -> bool {
    is_good_place(nodes, lists, k) && is_good_value(nodes, lists, k, count)
}

/// The rows and columns up to a cell, where the node is one.
pub open spec fn reach_of(
    nodes: Seq<NodeView>,
    lists: Seq<Seq<AttributeView>>,
    k: int,
) -> (int, int) {
    if nodes[k].element && nodes[k].name == "c"@ {
        match plain_value(lists[k], "r"@, 0) {
            Some(r) => match cell_of(r) {
                Ok(at) => (at.0 + 1, at.1 + 1),
                Err(_) => (0, 0),
            },
            None => (0, 0),
        }
    } else {
        (0, 0)
    }
}

/// The rows and columns up to the last cells among the first `n` nodes.
pub open spec fn extent_of(
    nodes: Seq<NodeView>,
    lists: Seq<Seq<AttributeView>>,
    n: int,
) -> (int, int)
    decreases n,
{
    if n <= 0 {
        (0, 0)
    } else {
        let a = extent_of(nodes, lists, n - 1);
        let b = reach_of(nodes, lists, n - 1);
        (
            if a.0 > b.0 {
                a.0
            } else {
                b.0
            },
            if a.1 > b.1 {
                a.1
            } else {
                b.1
            },
        )
    }
}

/// The cells of a sheet have places, lie within the limits, and hold one of the first `count`
/// shared strings where they hold one.
pub open spec fn are_good_cells(
    nodes: Seq<NodeView>,
    lists: Seq<Seq<AttributeView>>,
    count: nat,
) -> bool {
    let (rows, cols) = extent_of(nodes, lists, nodes.len() as int);
    &&& fits(rows, cols)
    &&& forall|k: int| 0 <= k < nodes.len() ==> #[trigger] is_good_node(nodes, lists, k, count)
}

/// The names in a formula from `i` on are such as fit an address that is read into 32 bits:
/// before it stand so many letters and, after them, digits of a name.
pub open spec fn is_calm(s: Seq<char>, i: int, letters: nat, digits: nat, quoted: bool) -> bool
    decreases s.len() - i,
{
    if i >= s.len() {
        true
    } else if s[i] == '"' {
        is_calm(s, i + 1, 0, 0, !quoted)
    } else if quoted {
        is_calm(s, i + 1, 0, 0, true)
    } else if crate::a1::is_letter(s[i]) {
        is_calm(
            s,
            i + 1,
            if digits > 0 {
                1
            } else {
                letters + 1
            },
            0,
            false,
        )
    } else if is_digit(s[i]) {
        letters <= SHORT_LETTERS && digits < SHORT_DIGITS && is_calm(
            s,
            i + 1,
            letters,
            digits + 1,
            false,
        )
    } else {
        is_calm(s, i + 1, 0, 0, false)
    }
}

/// A node without children, or with one that is a calm text.
pub open spec fn is_calm_node(nodes: Seq<NodeView>, k: int) -> bool {
    k + 1 < nodes.len() && (nodes[k + 1].parent matches Some(p) && p == k) ==> {
        &&& nodes[k + 1].is_text
        &&& (nodes[k + 1].text matches Some(text) && is_calm(text, 0, 0, 0, false))
        &&& !(k + 2 < nodes.len() && (nodes[k + 2].parent matches Some(p) && p == k))
    }
}

/// The range that a formula is shared over is in order and within a sheet, and does not start
/// above the cell.
pub open spec fn is_good_share(s: Seq<char>, cell: Option<Seq<char>>) -> bool {
    let ends = parts(s, ':');
    &&& is_ordered(s)
    &&& forall|i: int|
        0 <= i < ends.len() ==> (cell_of(#[trigger] ends[i]) matches Ok(a) ==> a.0 < ROW_LIMIT
            && a.1 < COLUMN_LIMIT)
    &&& cell matches Some(r) ==> match (cell_of(r), cell_of(ends[0])) {
        (Ok(a), Ok(b)) => a.0 <= b.0,
        _ => true,
    }
}

/// The most digits of the number of a shared formula.
pub const SHARE_DIGITS: usize = 7;

/// The address of the cell that a node is inside of.
pub open spec fn address_over(
    nodes: Seq<NodeView>,
    lists: Seq<Seq<AttributeView>>,
    k: int,
) -> Option<Seq<char>> {
    match cell_over(nodes, k) {
        Some(p) => plain_value(lists[p], "r"@, 0),
        None => None,
    }
}

/// The attributes of a shared formula are good.
pub open spec fn is_good_attribute(a: AttributeView, cell: Option<Seq<char>>) -> bool {
    &&& a.name == "si"@ ==> digits_in(a.value) <= SHARE_DIGITS
    &&& a.name == "ref"@ ==> is_good_share(a.value, cell)
}

/// A shared formula is over a good range and holds calm names.
pub open spec fn is_good_formula(
    nodes: Seq<NodeView>,
    lists: Seq<Seq<AttributeView>>,
    k: int,
) -> bool {
    nodes[k].element && has_value(lists[k], "t"@, "shared"@) ==> {
        &&& is_calm_node(nodes, k)
        &&& forall|j: int|
            0 <= j < lists[k].len() ==> is_good_attribute(
                #[trigger] lists[k][j],
                address_over(nodes, lists, k),
            )
    }
}

/// The formulas of a part are good, and its text is not set apart.
pub open spec fn are_good_formulas(data: Seq<u8>, name: Seq<char>) -> bool {
    &&& !crate::text::occurs(part_text(data, name)->Ok_0, "<![CDATA["@)
    &&& forall|k: int|
        0 <= k < nodes_of(data, name).len() ==> #[trigger] is_good_formula(
            nodes_of(data, name),
            lists_of(data, name),
            k,
        )
}

/// The part holds cells, and formulas where they are asked for, that can be read.
pub open spec fn is_good_sheet(data: Seq<u8>, name: Seq<char>, count: nat, formulas: bool) -> bool {
    &&& is_well_formed(data, name)
    &&& are_good_cells(nodes_of(data, name), lists_of(data, name), count)
    &&& formulas ==> are_good_formulas(data, name)
}

/// How often a bracket opens in a text.
pub open spec fn brackets_in(s: Seq<char>) -> nat
    decreases s.len(),
{
    if s.len() == 0 {
        0
    } else {
        brackets_in(s.drop_last()) + if s.last() == '[' {
            1nat
        } else {
            0
        }
    }
}

/// The most brackets of a number format.
pub const BRACKETS: usize = 255;

/// The attributes of the styles open no more brackets than are counted.
pub open spec fn are_good_styles(data: Seq<u8>, names: Seq<Seq<char>>) -> bool {
    let i = member_named(names, "xl/styles.xml"@, 0);
    i < names.len() ==> is_well_formed(data, names[i]) && {
        let lists = lists_of(data, names[i]);
        forall|k: int, j: int|
            0 <= k < lists.len() && 0 <= j < lists[k].len() ==> brackets_in(
                (#[trigger] lists[k][j]).value,
            ) <= BRACKETS
    }
}

/// The parts that may hold the sheet with this name can be read, and so can the styles.
pub open spec fn are_good_parts(data: Seq<u8>, sheet: Seq<char>, formulas: bool) -> bool {
    let names = listed_names(zip_members(data)->Ok_0);
    &&& are_good_styles(data, names)
    &&& forall|i: int|
        0 <= i < names.len() && may_hold(data, names, sheet, #[trigger] names[i]) ==> is_good_sheet(
            data,
            names[i],
            string_count(data, names),
            formulas,
        )
}

/// The cells of the sheet of an XLSX workbook with this name can be read, and its formulas
/// where they are asked for.
pub open spec fn is_sound_xlsx(data: Seq<u8>, sheet: Seq<char>, formulas: bool) -> bool {
    !is_compound(data) && are_good_parts(data, sheet, formulas)
}

/// The repetition of a row or a cell of a table.
pub open spec fn is_repetition(name: Seq<char>) -> bool {
    name == "number-rows-repeated"@ || name == "number-columns-repeated"@
}

/// The node is a cell of a table.
pub open spec fn is_table_cell(node: NodeView) -> bool {
    node.name == "table-cell"@ || node.name == "covered-table-cell"@
}

/// How often a cell can be repeated.
pub open spec fn is_good_count(s: Seq<char>) -> bool {
    s.len() > 0 && all_digits(s) && 1 <= number(s) <= ROW_LIMIT
}

/// Every repetition among the attributes is a good one.
pub open spec fn are_good_counts(list: Seq<AttributeView>) -> bool {
    forall|j: int|
        0 <= j < list.len() && is_repetition((#[trigger] list[j]).name) ==> is_good_count(
            list[j].value,
        )
}

/// The columns that a node takes: as many as it is repeated, or one.
pub open spec fn columns_of(list: Seq<AttributeView>, j: int) -> nat
    decreases list.len() - j,
{
    if j >= list.len() {
        1
    } else if list[j].name == "number-columns-repeated"@ {
        number(list[j].value)
    } else {
        columns_of(list, j + 1)
    }
}

/// The columns that the cells inside node `p` among the first `n` nodes take.
pub open spec fn columns_in(
    nodes: Seq<NodeView>,
    lists: Seq<Seq<AttributeView>>,
    p: int,
    n: int,
) -> nat
    decreases n,
{
    if n <= 0 {
        0
    } else {
        columns_in(nodes, lists, p, n - 1) + if is_table_cell(nodes[n - 1]) && nodes[n - 1].parent
            == Some(p as usize) {
            columns_of(lists[n - 1], 0)
        } else {
            0
        }
    }
}

/// The most columns of a row.
pub const WIDTH: u64 = 2_147_483_647;

/// The rows and cells of a table are repeated no more often than a sheet has rows, and no row
/// is wider than can be counted.
pub open spec fn are_good_tables(
    nodes: Seq<NodeView>,
    lists: Seq<Seq<AttributeView>>,
) -> bool {
    &&& forall|k: int|
        0 <= k < nodes.len() && (nodes[k].name == "table-row"@ || is_table_cell(nodes[k]))
            ==> #[trigger] are_good_counts(lists[k])
    &&& forall|p: int|
        0 <= p < nodes.len() ==> #[trigger] columns_in(nodes, lists, p, nodes.len() as int) <= WIDTH
}

/// The cells of the sheets of an ODS workbook can be read.
pub open spec fn is_sound_ods(data: Seq<u8>) -> bool {
    &&& is_well_formed(data, "content.xml"@)
    &&& are_good_tables(nodes_of(data, "content.xml"@), lists_of(data, "content.xml"@))
}

/// The cells of the sheet with this name can be read, and its formulas where they are asked
/// for.
pub open spec fn is_sound(
    data: Seq<u8>,
    format: Format,
    sheet: Seq<char>,
    formulas: bool,
) -> bool {
    match format {
        Format::Ods => is_sound_ods(data),
        Format::Xlsx => is_sound_xlsx(data, sheet, formulas),
    }
}

fn fold_name(name: &str) -> (r: String)
    ensures
        r@ == folded(name@),
{
    let mut all = small_letters(name);
    let mut i: usize = 0;
    while i < all.len()
        invariant
            i <= all@.len() == name@.len(),
            forall|k: int| 0 <= k < i ==> all@[k] == folded(name@)[k],
            forall|k: int| i <= k < all@.len() ==> all@[k] == small(name@[k]),
        decreases all@.len() - i,
    {
        if all[i] == '\\' {
            all[i] = '/';
        }
        i = i + 1;
    }
    let text = string(&all, 0, all.len());
    assert(text@ =~= folded(name@));
    text
}

fn find_member(names: &Vec<String>, name: &str) -> (r: usize)
    ensures
        r <= names@.len(),
        r == member_named(views(names@), name@, 0),
{
    let mut i: usize = 0;
    while i < names.len()
        invariant
            i <= names@.len(),
            member_named(views(names@), name@, 0) == member_named(views(names@), name@, i as int),
        decreases names@.len() - i,
    {
        let path = fold_name(names[i].as_str());
        assert(views(names@)[i as int] == names@[i as int]@);
        if same(path.as_str(), name) {
            return i;
        }
        i = i + 1;
    }
    i
}

/// The nodes of a document with their characters.
spec fn node_views(doc: Xml) -> Seq<NodeView> {
    doc.nodes@.map_values(|n: XmlNode| n@)
}

/// The attributes of a document with their characters.
spec fn list_views(doc: Xml) -> Seq<Seq<AttributeView>> {
    doc.attributes@.map_values(|l: Vec<XmlAttribute>| attribute_views(l@))
}

fn is_parent(node: &XmlNode, k: usize) -> (r: bool)
    ensures
        r == (node@.parent == Some(k)),
{
    match node.parent {
        Some(p) => p == k,
        None => false,
    }
}

fn is_begin(doc: &Xml, m: usize) -> (r: bool)
    requires
        m < doc.nodes@.len(),
    ensures
        r == begins_string(node_views(*doc), m as int),
{
    let node = &doc.nodes[m];
    assert(node_views(*doc)[m as int] == node@);
    if !node.element || !(same(node.name.as_str(), "t") || same(node.name.as_str(), "r")) {
        return false;
    }
    let k: usize = match node.parent {
        Some(k) => k,
        None => {
            return false;
        },
    };
    if k >= doc.nodes.len() || !same(doc.nodes[k].name.as_str(), "si") {
        return false;
    }
    let p: usize = match doc.nodes[k].parent {
        Some(p) => p,
        None => {
            return false;
        },
    };
    p < doc.nodes.len() && same(doc.nodes[p].name.as_str(), "sst") && is_parent(&doc.nodes[p], 0)
}

/// A part that was read: its text and its tree.
struct Part {
    text: String,
    doc: Xml,
}

impl Part {
    spec fn is_of(self, data: Seq<u8>, name: Seq<char>) -> bool {
        &&& part_text(data, name) == Ok::<Seq<char>, Seq<char>>(self.text@)
        &&& node_views(self.doc) == nodes_of(data, name)
        &&& list_views(self.doc) == lists_of(data, name)
        &&& self.doc.attributes@.len() == self.doc.nodes@.len()
    }
}

fn load(data: &[u8], name: &str) -> (r: Option<Part>)
    ensures
        r is Some == is_well_formed(data@, name@),
        r matches Some(part) ==> part.is_of(data@, name@),
{
    match read_xml(data, name) {
        Err(_) => None,
        Ok(text) => match parse_xml(text.as_str()) {
            Err(_) => None,
            Ok(doc) => Some(Part { text, doc }),
        },
    }
}

fn is_inner_node(doc: &Xml, m: usize) -> (r: bool)
    requires
        m < doc.nodes@.len(),
    ensures
        r == is_inner(node_views(*doc), m as int),
{
    let node = &doc.nodes[m];
    assert(node_views(*doc)[m as int] == node@);
    if !node.element {
        return false;
    }
    if same(node.name.as_str(), "sst") && !is_parent(node, 0) {
        return true;
    }
    if !same(node.name.as_str(), "si") {
        return false;
    }
    match node.parent {
        Some(p) => !(p < doc.nodes.len() && same(doc.nodes[p].name.as_str(), "sst") && is_parent(
            &doc.nodes[p],
            0,
        )),
        None => true,
    }
}

fn count_strings(doc: &Xml) -> (r: usize)
    ensures
        r == strings_from(node_views(*doc), 0, None),
{
    let ghost nodes = node_views(*doc);
    let mut count: usize = 0;
    let mut last: Option<usize> = None;
    let mut m: usize = 0;
    while m < doc.nodes.len()
        invariant
            nodes == node_views(*doc),
            count <= m <= doc.nodes@.len(),
            strings_from(nodes, 0, None) == count + strings_from(nodes, m as int, last),
        decreases doc.nodes@.len() - m,
    {
        let node = &doc.nodes[m];
        assert(nodes[m as int] == node@);
        if is_inner_node(doc, m) {
            return count;
        }
        if is_begin(doc, m) {
            let counted = match (node.parent, last) {
                (Some(k), Some(l)) => k == l,
                _ => false,
            };
            if !counted {
                count = count + 1;
                last = node.parent;
            }
        }
        m = m + 1;
    }
    count
}

fn find_value(list: &Vec<XmlAttribute>, name: &str, value: &str) -> (r: bool)
    ensures
        r == has_value(attribute_views(list@), name@, value@),
{
    let ghost all = attribute_views(list@);
    let mut j: usize = 0;
    while j < list.len()
        invariant
            all == attribute_views(list@),
            j <= list@.len(),
            forall|i: int|
                0 <= i < j ==> !((#[trigger] all[i]).name == name@ && all[i].value == value@),
        decreases list@.len() - j,
    {
        assert(all[j as int] == list@[j as int]@);
        if same(list[j].name.as_str(), name) && same(list[j].value.as_str(), value) {
            return true;
        }
        j = j + 1;
    }
    false
}

fn member_path(target: &str) -> (r: String)
    ensures
        r@ == path_of(target@),
{
    if has_start(target, "/xl/") {
        proof {
            reveal_strlit("/xl/");
            assert(target@.subrange(1, target@.len() as int) =~= target@.skip(1));
        }
        let all = chars(target);
        string(&all, 1, all.len())
    } else if has_start(target, "xl/") {
        target.to_owned()
    } else {
        joined("xl/", target)
    }
}

fn find_target(list: &Vec<XmlAttribute>, path: &str) -> (r: bool)
    ensures
        r == has_target(attribute_views(list@), path@),
{
    let ghost all = attribute_views(list@);
    let mut j: usize = 0;
    while j < list.len()
        invariant
            all == attribute_views(list@),
            j <= list@.len(),
            forall|i: int|
                0 <= i < j ==> !((#[trigger] all[i]).name == "Target"@ && folded(
                    path_of(all[i].value),
                ) == path@),
        decreases list@.len() - j,
    {
        assert(all[j as int] == list@[j as int]@);
        if same(list[j].name.as_str(), "Target") {
            let found = fold_name(member_path(list[j].value.as_str()).as_str());
            if same(found.as_str(), path) {
                return true;
            }
        }
        j = j + 1;
    }
    false
}

fn follow_id(rels: &Xml, id: &str, path: &str) -> (r: bool)
    requires
        rels.attributes@.len() == rels.nodes@.len(),
    ensures
        r == id_leads(node_views(*rels), list_views(*rels), id@, path@),
{
    let ghost nodes = node_views(*rels);
    let ghost lists = list_views(*rels);
    let mut k: usize = 0;
    while k < rels.nodes.len()
        invariant
            nodes == node_views(*rels),
            lists == list_views(*rels),
            rels.attributes@.len() == rels.nodes@.len(),
            k <= rels.nodes@.len(),
            forall|i: int|
                0 <= i < k ==> !((#[trigger] nodes[i]).element && nodes[i].name == "Relationship"@
                    && has_value(lists[i], "Id"@, id@) && has_target(lists[i], path@)),
        decreases rels.nodes@.len() - k,
    {
        let node = &rels.nodes[k];
        assert(nodes[k as int] == node@);
        assert(lists[k as int] == attribute_views(rels.attributes@[k as int]@));
        if node.element && same(node.name.as_str(), "Relationship") && find_value(
            &rels.attributes[k],
            "Id",
            id,
        ) && find_target(&rels.attributes[k], path) {
            return true;
        }
        k = k + 1;
    }
    false
}

fn follow_ids(list: &Vec<XmlAttribute>, rels: &Xml, path: &str) -> (r: bool)
    requires
        rels.attributes@.len() == rels.nodes@.len(),
    ensures
        r == has_id(attribute_views(list@), node_views(*rels), list_views(*rels), path@),
{
    let ghost all = attribute_views(list@);
    let mut j: usize = 0;
    while j < list.len()
        invariant
            all == attribute_views(list@),
            rels.attributes@.len() == rels.nodes@.len(),
            j <= list@.len(),
            forall|i: int|
                0 <= i < j ==> !((#[trigger] all[i]).name == "id"@ && id_leads(
                    node_views(*rels),
                    list_views(*rels),
                    all[i].value,
                    path@,
                )),
        decreases list@.len() - j,
    {
        assert(all[j as int] == list@[j as int]@);
        if same(list[j].name.as_str(), "id") && follow_id(rels, list[j].value.as_str(), path) {
            return true;
        }
        j = j + 1;
    }
    false
}

fn follow_name(book: &Xml, rels: &Xml, sheet: &str, path: &str) -> (r: bool)
    requires
        book.attributes@.len() == book.nodes@.len(),
        rels.attributes@.len() == rels.nodes@.len(),
    ensures
        r == name_leads(
            node_views(*book),
            list_views(*book),
            node_views(*rels),
            list_views(*rels),
            sheet@,
            path@,
        ),
{
    let ghost nodes = node_views(*book);
    let ghost lists = list_views(*book);
    let mut k: usize = 0;
    while k < book.nodes.len()
        invariant
            nodes == node_views(*book),
            lists == list_views(*book),
            book.attributes@.len() == book.nodes@.len(),
            rels.attributes@.len() == rels.nodes@.len(),
            k <= book.nodes@.len(),
            forall|i: int|
                0 <= i < k ==> !((#[trigger] nodes[i]).element && nodes[i].name == "sheet"@
                    && has_value(lists[i], "name"@, sheet@) && has_id(
                    lists[i],
                    node_views(*rels),
                    list_views(*rels),
                    path@,
                )),
        decreases book.nodes@.len() - k,
    {
        let node = &book.nodes[k];
        assert(nodes[k as int] == node@);
        assert(lists[k as int] == attribute_views(book.attributes@[k as int]@));
        if node.element && same(node.name.as_str(), "sheet") && find_value(
            &book.attributes[k],
            "name",
            sheet,
        ) && follow_ids(&book.attributes[k], rels, path) {
            return true;
        }
        k = k + 1;
    }
    false
}

fn has_char(text: &str, c: char) -> (r: bool)
    ensures
        r == text@.contains(c),
{
    let all = chars(text);
    let i: usize = find_char(&all, 0, c);
    if i < all.len() {
        assert(text@[i as int] == c);
        true
    } else {
        false
    }
}

fn check_plain(text: &str) -> (r: bool)
    ensures
        r == is_plain(text@),
{
    let all = chars(text);
    let mut i: usize = 0;
    while i < all.len()
        invariant
            all@ == text@,
            i <= all@.len(),
            forall|k: int| 0 <= k < i ==> ' ' <= #[trigger] all@[k],
        decreases all@.len() - i,
    {
        if !(all[i] >= ' ') {
            assert(!(' ' <= text@[i as int]));
            return false;
        }
        i = i + 1;
    }
    true
}

fn find_declaration(all: &Vec<char>) -> (r: usize)
    ensures
        r == declared_at(all@, 0),
        r <= all@.len(),
{
    let word = chars("encoding");
    let mut k: usize = 0;
    while k < all.len()
        invariant
            word@ == "encoding"@,
            k <= all@.len(),
            declared_at(all@, 0) == declared_at(all@, k as int),
        decreases all@.len() - k,
    {
        if found_at(all, &word, k) {
            return k;
        }
        k = k + 1;
    }
    k
}

fn check_declared(text: &str) -> (r: bool)
    ensures
        r == is_declared(text@),
{
    let all = chars(text);
    let k: usize = find_declaration(&all);
    k >= all.len() || found_at(&all, &chars("encoding=\"UTF-8\""), k) || found_at(
        &all,
        &chars("encoding=\"utf-8\""),
        k,
    ) || found_at(&all, &chars("encoding='UTF-8'"), k) || found_at(
        &all,
        &chars("encoding='utf-8'"),
        k,
    )
}

fn load_legible(data: &[u8], name: &str) -> (r: Option<Part>)
    ensures
        r is Some == is_legible(data@, name@),
        r matches Some(part) ==> part.is_of(data@, name@),
{
    match load(data, name) {
        None => None,
        Some(part) => if check_declared(part.text.as_str()) {
            Some(part)
        } else {
            None
        },
    }
}

/// The workbook and its relationships, where they are legible, and the names they are under.
struct Book<'a> {
    names: &'a Vec<String>,
    book: Option<Part>,
    rels: Option<Part>,
}

impl<'a> Book<'a> {
    spec fn is_of(self, data: Seq<u8>) -> bool {
        let names = views(self.names@);
        let book = member_named(names, "xl/workbook.xml"@, 0);
        let rels = member_named(names, "xl/_rels/workbook.xml.rels"@, 0);
        &&& book < names.len()
        &&& rels < names.len()
        &&& self.book is Some == is_legible(data, names[book])
        &&& (self.book matches Some(part) ==> part.is_of(data, names[book]))
        &&& self.rels is Some == is_legible(data, names[rels])
        &&& (self.rels matches Some(part) ==> part.is_of(data, names[rels]))
    }

    fn holds_sheet(&self, Ghost(data): Ghost<Seq<u8>>, sheet: &str, member: &str) -> (r: bool)
        requires
            self.is_of(data),
        ensures
            r == may_hold(data, views(self.names@), sheet@, member@),
    {
        let path = fold_name(member);
        if !(has_start(path.as_str(), "xl/worksheets") || has_start(path.as_str(), "xl/chartsheets")
            || has_start(path.as_str(), "xl/dialogsheets")) {
            return false;
        }
        if !check_plain(sheet) || !check_plain(path.as_str()) || has_char(path.as_str(), '&') {
            return true;
        }
        match (&self.book, &self.rels) {
            (Some(book), Some(rels)) => follow_name(&book.doc, &rels.doc, sheet, path.as_str()),
            _ => true,
        }
    }
}

/// Whether a text is a number below `count`.
fn is_below(text: &str, count: usize) -> (r: bool)
    ensures
        r == (text@.len() > 0 && all_digits(text@) && number(text@) < count),
{
    let all = chars(text);
    let mut i: usize = 0;
    while i < all.len()
        invariant
            all@ == text@,
            i <= all@.len(),
            forall|k: int| 0 <= k < i ==> crate::text::is_digit(#[trigger] all@[k]),
        decreases all@.len() - i,
    {
        if !digit_char(all[i]) {
            assert(!crate::text::is_digit(text@[i as int]));
            return false;
        }
        i = i + 1;
    }
    assert(all@.subrange(0, all@.len() as int) =~= text@);
    match parse_number(&all, 0, all.len()) {
        Some(n) => all.len() > 0 && n < count as u64,
        None => false,
    }
}

/// What can be read with its formulas can be read without them.
pub proof fn sound_without_formulas(data: Seq<u8>, format: Format, sheet: Seq<char>)
    requires
        is_sound(data, format, sheet, true),
    ensures
        is_sound(data, format, sheet, false),
{
}

fn count_digits(text: &str) -> (r: usize)
    ensures
        r == digits_in(text@),
{
    let all = chars(text);
    let mut n: usize = 0;
    let mut i: usize = 0;
    assert(text@.take(0) =~= Seq::empty());
    while i < all.len()
        invariant
            all@ == text@,
            n <= i <= all@.len(),
            n == digits_in(text@.take(i as int)),
        decreases all@.len() - i,
    {
        assert(text@.take(i + 1).drop_last() =~= text@.take(i as int));
        if digit_char(all[i]) {
            n = n + 1;
        }
        i = i + 1;
    }
    assert(text@.take(text@.len() as int) =~= text@);
    n
}

fn letter_char(c: char) -> (r: bool)
    ensures
        r == crate::a1::is_letter(c),
{
    ('a' <= c && c <= 'z') || ('A' <= c && c <= 'Z')
}

fn count_letters(text: &str) -> (r: usize)
    ensures
        r == letters_in(text@),
{
    let all = chars(text);
    let mut n: usize = 0;
    let mut i: usize = 0;
    assert(text@.take(0) =~= Seq::empty());
    while i < all.len()
        invariant
            all@ == text@,
            n <= i <= all@.len(),
            n == letters_in(text@.take(i as int)),
        decreases all@.len() - i,
    {
        assert(text@.take(i + 1).drop_last() =~= text@.take(i as int));
        if letter_char(all[i]) {
            n = n + 1;
        }
        i = i + 1;
    }
    assert(text@.take(text@.len() as int) =~= text@);
    n
}

fn count_brackets(text: &str) -> (r: usize)
    ensures
        r == brackets_in(text@),
{
    let all = chars(text);
    let mut n: usize = 0;
    let mut i: usize = 0;
    assert(text@.take(0) =~= Seq::empty());
    while i < all.len()
        invariant
            all@ == text@,
            n <= i <= all@.len(),
            n == brackets_in(text@.take(i as int)),
        decreases all@.len() - i,
    {
        assert(text@.take(i + 1).drop_last() =~= text@.take(i as int));
        if all[i] == '[' {
            n = n + 1;
        }
        i = i + 1;
    }
    assert(text@.take(text@.len() as int) =~= text@);
    n
}

fn check_short(text: &str) -> (r: bool)
    ensures
        r == is_short(text@),
{
    count_digits(text) <= SHORT_DIGITS && count_letters(text) <= SHORT_LETTERS
}

fn check_all_short(list: &Vec<XmlAttribute>, name: &str) -> (r: bool)
    ensures
        r == are_short(attribute_views(list@), name@),
{
    let ghost all = attribute_views(list@);
    let mut j: usize = 0;
    while j < list.len()
        invariant
            all == attribute_views(list@),
            j <= list@.len(),
            forall|i: int|
                0 <= i < j && (#[trigger] all[i]).name == name@ ==> is_short(all[i].value),
        decreases list@.len() - j,
    {
        assert(all[j as int] == list@[j as int]@);
        if same(list[j].name.as_str(), name) && !check_short(list[j].value.as_str()) {
            return false;
        }
        j = j + 1;
    }
    true
}

fn check_ends(ends: &Vec<String>) -> (r: bool)
    ensures
        r == forall|i: int| 0 <= i < ends@.len() ==> is_short(#[trigger] views(ends@)[i]),
{
    let mut i: usize = 0;
    while i < ends.len()
        invariant
            i <= ends@.len(),
            forall|k: int| 0 <= k < i ==> is_short(#[trigger] views(ends@)[k]),
        decreases ends@.len() - i,
    {
        assert(views(ends@)[i as int] == ends@[i as int]@);
        if !check_short(ends[i].as_str()) {
            return false;
        }
        i = i + 1;
    }
    true
}

fn check_ordered(text: &str) -> (r: bool)
    ensures
        r == is_ordered(text@),
{
    let ends = split(text, ':');
    if !check_ends(&ends) {
        return false;
    }
    if ends.len() != 2 {
        return true;
    }
    assert(views(ends@)[0] == ends@[0]@ && views(ends@)[1] == ends@[1]@);
    match (parse_cell(ends[0].as_str()), parse_cell(ends[1].as_str())) {
        (Ok(a), Ok(b)) => a.0 <= b.0 && a.1 <= b.1,
        _ => true,
    }
}

fn check_all_ordered(list: &Vec<XmlAttribute>, name: &str) -> (r: bool)
    ensures
        r == are_ordered(attribute_views(list@), name@),
{
    let ghost all = attribute_views(list@);
    let mut j: usize = 0;
    while j < list.len()
        invariant
            all == attribute_views(list@),
            j <= list@.len(),
            forall|i: int|
                0 <= i < j && (#[trigger] all[i]).name == name@ ==> is_ordered(all[i].value),
        decreases list@.len() - j,
    {
        assert(all[j as int] == list@[j as int]@);
        if same(list[j].name.as_str(), name) && !check_ordered(list[j].value.as_str()) {
            return false;
        }
        j = j + 1;
    }
    true
}

fn find_plain<'a>(list: &'a Vec<XmlAttribute>, name: &str) -> (r: Option<&'a str>)
    ensures
        match r {
            Some(value) => plain_value(attribute_views(list@), name@, 0) == Some(value@),
            None => plain_value(attribute_views(list@), name@, 0) is None,
        },
{
    let ghost all = attribute_views(list@);
    let mut j: usize = 0;
    while j < list.len()
        invariant
            all == attribute_views(list@),
            j <= list@.len(),
            plain_value(all, name@, 0) == plain_value(all, name@, j as int),
        decreases list@.len() - j,
    {
        assert(all[j as int] == list@[j as int]@);
        if same(list[j].name.as_str(), name) && list[j].namespace.is_none() {
            return Some(list[j].value.as_str());
        }
        j = j + 1;
    }
    None
}

/// The cell that each node is inside of.
fn cells_over(doc: &Xml) -> (r: Vec<Option<usize>>)
    ensures
        r@.len() == doc.nodes@.len(),
        forall|k: int|
            0 <= k < r@.len() ==> match #[trigger] r@[k] {
                Some(p) => p < doc.nodes@.len() && cell_over(node_views(*doc), k) == Some(p as int),
                None => cell_over(node_views(*doc), k) is None,
            },
{
    let ghost nodes = node_views(*doc);
    let mut over: Vec<Option<usize>> = Vec::new();
    while over.len() < doc.nodes.len()
        invariant
            nodes == node_views(*doc),
            over@.len() <= doc.nodes@.len(),
            forall|k: int|
                0 <= k < over@.len() ==> match #[trigger] over@[k] {
                    Some(p) => p < doc.nodes@.len() && cell_over(nodes, k) == Some(p as int),
                    None => cell_over(nodes, k) is None,
                },
        decreases doc.nodes@.len() - over@.len(),
    {
        let k: usize = over.len();
        assert(nodes[k as int] == doc.nodes@[k as int]@);
        let found: Option<usize> = match doc.nodes[k].parent {
            Some(p) => if p < k {
                assert(nodes[p as int] == doc.nodes@[p as int]@);
                if same(doc.nodes[p].name.as_str(), "c") {
                    Some(p)
                } else {
                    over[p]
                }
            } else {
                None
            },
            None => None,
        };
        over.push(found);
    }
    over
}

fn check_place(doc: &Xml, over: &Vec<Option<usize>>, k: usize) -> (r: bool)
    requires
        k < doc.nodes@.len(),
        doc.attributes@.len() == doc.nodes@.len(),
        over@.len() == doc.nodes@.len(),
        over@[k as int] is None == (cell_over(node_views(*doc), k as int) is None),
    ensures
        r == is_good_place(node_views(*doc), list_views(*doc), k as int),
{
    let node = &doc.nodes[k];
    assert(node_views(*doc)[k as int] == node@);
    assert(list_views(*doc)[k as int] == attribute_views(doc.attributes@[k as int]@));
    if !node.element {
        return true;
    }
    if same(node.name.as_str(), "c") {
        if over[k].is_some() {
            return false;
        }
        match find_plain(&doc.attributes[k], "r") {
            Some(r) => {
                if !check_short(r) {
                    return false;
                }
            },
            None => {
                return false;
            },
        }
    }
    if same(node.name.as_str(), "row") && !check_all_short(&doc.attributes[k], "r") {
        return false;
    }
    !same(node.name.as_str(), "dimension") || check_all_ordered(&doc.attributes[k], "ref")
}

fn is_index_node(doc: &Xml, k: usize, count: usize) -> (r: bool)
    requires
        k < doc.nodes@.len(),
    ensures
        r == is_index(node_views(*doc), k as int, count as nat),
{
    let ghost nodes = node_views(*doc);
    if doc.nodes.len() - k < 2 {
        return false;
    }
    let child = &doc.nodes[k + 1];
    assert(nodes[k + 1] == child@);
    if !child.is_text || !is_parent(child, k) {
        return false;
    }
    match &child.text {
        Some(text) => {
            if !is_below(text.as_str(), count) {
                return false;
            }
        },
        None => {
            return false;
        },
    }
    !(doc.nodes.len() - k > 2 && is_parent(&doc.nodes[k + 2], k))
}

fn check_value(doc: &Xml, over: &Vec<Option<usize>>, k: usize, count: usize) -> (r: bool)
    requires
        k < doc.nodes@.len(),
        doc.attributes@.len() == doc.nodes@.len(),
        over@.len() == doc.nodes@.len(),
        match over@[k as int] {
            Some(p) => p < doc.nodes@.len() && cell_over(node_views(*doc), k as int) == Some(
                p as int,
            ),
            None => cell_over(node_views(*doc), k as int) is None,
        },
    ensures
        r == is_good_value(node_views(*doc), list_views(*doc), k as int, count as nat),
{
    let node = &doc.nodes[k];
    assert(node_views(*doc)[k as int] == node@);
    if !node.element || !same(node.name.as_str(), "v") {
        return true;
    }
    match over[k] {
        None => true,
        Some(p) => {
            assert(list_views(*doc)[p as int] == attribute_views(doc.attributes@[p as int]@));
            !find_value(&doc.attributes[p], "t", "s") || is_index_node(doc, k, count)
        },
    }
}

fn reach_to(doc: &Xml, k: usize) -> (r: (u64, u64))
    requires
        k < doc.nodes@.len(),
        doc.attributes@.len() == doc.nodes@.len(),
    ensures
        (r.0 as int, r.1 as int) == reach_of(node_views(*doc), list_views(*doc), k as int),
{
    let node = &doc.nodes[k];
    assert(node_views(*doc)[k as int] == node@);
    assert(list_views(*doc)[k as int] == attribute_views(doc.attributes@[k as int]@));
    if !node.element || !same(node.name.as_str(), "c") {
        return (0, 0);
    }
    match find_plain(&doc.attributes[k], "r") {
        Some(r) => match parse_cell(r) {
            Ok(at) => (at.0 + 1, at.1 as u64 + 1),
            Err(_) => (0, 0),
        },
        None => (0, 0),
    }
}

fn check_cells_of(doc: &Xml, over: &Vec<Option<usize>>, count: usize) -> (r: bool)
    requires
        doc.attributes@.len() == doc.nodes@.len(),
        over@.len() == doc.nodes@.len(),
        forall|k: int|
            0 <= k < over@.len() ==> match #[trigger] over@[k] {
                Some(p) => p < doc.nodes@.len() && cell_over(node_views(*doc), k) == Some(p as int),
                None => cell_over(node_views(*doc), k) is None,
            },
    ensures
        r == are_good_cells(node_views(*doc), list_views(*doc), count as nat),
{
    let ghost nodes = node_views(*doc);
    let ghost lists = list_views(*doc);
    let mut rows: u64 = 0;
    let mut cols: u64 = 0;
    let mut k: usize = 0;
    while k < doc.nodes.len()
        invariant
            nodes == node_views(*doc),
            lists == list_views(*doc),
            doc.attributes@.len() == doc.nodes@.len(),
            over@.len() == doc.nodes@.len(),
            forall|i: int|
                0 <= i < over@.len() ==> match #[trigger] over@[i] {
                    Some(p) => p < doc.nodes@.len() && cell_over(nodes, i) == Some(p as int),
                    None => cell_over(nodes, i) is None,
                },
            k <= doc.nodes@.len(),
            (rows as int, cols as int) == extent_of(nodes, lists, k as int),
            forall|i: int|
                0 <= i < k ==> #[trigger] is_good_node(nodes, lists, i, count as nat),
        decreases doc.nodes@.len() - k,
    {
        assert(over@[k as int] == over@[k as int]);
        if !check_place(doc, over, k) || !check_value(doc, over, k, count) {
            assert(!is_good_node(nodes, lists, k as int, count as nat));
            return false;
        }
        let (row, col) = reach_to(doc, k);
        if row >= rows {
            rows = row;
        }
        if col >= cols {
            cols = col;
        }
        k = k + 1;
    }
    check_size(rows, cols).is_ok()
}

fn check_calm(text: &str) -> (r: bool)
    ensures
        r == is_calm(text@, 0, 0, 0, false),
{
    let all = chars(text);
    let mut i: usize = 0;
    let mut letters: usize = 0;
    let mut digits: usize = 0;
    let mut quoted = false;
    while i < all.len()
        invariant
            all@ == text@,
            letters <= i <= all@.len(),
            digits <= i,
            is_calm(text@, 0, 0, 0, false) == is_calm(
                text@,
                i as int,
                letters as nat,
                digits as nat,
                quoted,
            ),
        decreases all@.len() - i,
    {
        let c = all[i];
        if c == '"' {
            letters = 0;
            digits = 0;
            quoted = !quoted;
        } else if quoted {
            letters = 0;
            digits = 0;
        } else if letter_char(c) {
            letters = if digits > 0 {
                1
            } else {
                letters + 1
            };
            digits = 0;
        } else if digit_char(c) {
            if letters > SHORT_LETTERS || digits >= SHORT_DIGITS {
                return false;
            }
            digits = digits + 1;
        } else {
            letters = 0;
            digits = 0;
        }
        i = i + 1;
    }
    true
}

fn check_calm_node(doc: &Xml, k: usize) -> (r: bool)
    requires
        k < doc.nodes@.len(),
    ensures
        r == is_calm_node(node_views(*doc), k as int),
{
    let ghost nodes = node_views(*doc);
    if doc.nodes.len() - k < 2 {
        return true;
    }
    let child = &doc.nodes[k + 1];
    assert(nodes[k + 1] == child@);
    if !is_parent(child, k) {
        return true;
    }
    if !child.is_text {
        return false;
    }
    match &child.text {
        Some(text) => {
            if !check_calm(text.as_str()) {
                return false;
            }
        },
        None => {
            return false;
        },
    }
    !(doc.nodes.len() - k > 2 && is_parent(&doc.nodes[k + 2], k))
}

fn check_ends_within(ends: &Vec<String>) -> (r: bool)
    ensures
        r == forall|i: int|
            0 <= i < ends@.len() ==> (cell_of(#[trigger] views(ends@)[i]) matches Ok(a) ==> a.0
                < ROW_LIMIT && a.1 < COLUMN_LIMIT),
{
    let mut i: usize = 0;
    while i < ends.len()
        invariant
            i <= ends@.len(),
            forall|k: int|
                0 <= k < i ==> (cell_of(#[trigger] views(ends@)[k]) matches Ok(a) ==> a.0
                    < ROW_LIMIT && a.1 < COLUMN_LIMIT),
        decreases ends@.len() - i,
    {
        assert(views(ends@)[i as int] == ends@[i as int]@);
        if let Ok(a) = parse_cell(ends[i].as_str()) {
            if a.0 >= ROW_LIMIT || a.1 >= COLUMN_LIMIT {
                return false;
            }
        }
        i = i + 1;
    }
    true
}

fn check_share(text: &str, cell: Option<&str>) -> (r: bool)
    ensures
        r == is_good_share(
            text@,
            match cell {
                Some(r) => Some(r@),
                None => None,
            },
        ),
{
    let ends = split(text, ':');
    if !check_ordered(text) || !check_ends_within(&ends) {
        return false;
    }
    proof {
        crate::text::parts_are_some(text@, ':');
        assert(views(ends@)[0] == ends@[0]@);
    }
    match cell {
        None => true,
        Some(r) => match (parse_cell(r), parse_cell(ends[0].as_str())) {
            (Ok(a), Ok(b)) => a.0 <= b.0,
            _ => true,
        },
    }
}

fn check_attributes(list: &Vec<XmlAttribute>, cell: Option<&str>) -> (r: bool)
    ensures
        r == forall|j: int|
            0 <= j < list@.len() ==> is_good_attribute(
                #[trigger] attribute_views(list@)[j],
                match cell {
                    Some(r) => Some(r@),
                    None => None,
                },
            ),
{
    let ghost all = attribute_views(list@);
    let ghost over = match cell {
        Some(r) => Some(r@),
        None => None,
    };
    let mut j: usize = 0;
    while j < list.len()
        invariant
            all == attribute_views(list@),
            over == (match cell {
                Some(r) => Some(r@),
                None => None,
            }),
            j <= list@.len(),
            forall|i: int| 0 <= i < j ==> is_good_attribute(#[trigger] all[i], over),
        decreases list@.len() - j,
    {
        assert(all[j as int] == list@[j as int]@);
        if same(list[j].name.as_str(), "si") && count_digits(list[j].value.as_str())
            > SHARE_DIGITS {
            assert(!is_good_attribute(all[j as int], over));
            return false;
        }
        if same(list[j].name.as_str(), "ref") && !check_share(list[j].value.as_str(), cell) {
            assert(!is_good_attribute(all[j as int], over));
            return false;
        }
        j = j + 1;
    }
    true
}

fn check_formula(doc: &Xml, over: &Vec<Option<usize>>, k: usize) -> (r: bool)
    requires
        k < doc.nodes@.len(),
        doc.attributes@.len() == doc.nodes@.len(),
        over@.len() == doc.nodes@.len(),
        match over@[k as int] {
            Some(p) => p < doc.nodes@.len() && cell_over(node_views(*doc), k as int) == Some(
                p as int,
            ),
            None => cell_over(node_views(*doc), k as int) is None,
        },
    ensures
        r == is_good_formula(node_views(*doc), list_views(*doc), k as int),
{
    let node = &doc.nodes[k];
    let list = &doc.attributes[k];
    assert(node_views(*doc)[k as int] == node@);
    assert(list_views(*doc)[k as int] == attribute_views(list@));
    if !node.element || !find_value(list, "t", "shared") {
        return true;
    }
    if !check_calm_node(doc, k) {
        return false;
    }
    let cell: Option<&str> = match over[k] {
        Some(p) => {
            assert(list_views(*doc)[p as int] == attribute_views(doc.attributes@[p as int]@));
            find_plain(&doc.attributes[p], "r")
        },
        None => None,
    };
    check_attributes(list, cell)
}

fn check_formulas(
    part: &Part,
    over: &Vec<Option<usize>>,
    Ghost(data): Ghost<Seq<u8>>,
    Ghost(name): Ghost<Seq<char>>,
) -> (r: bool)
    requires
        part.is_of(data, name),
        over@.len() == part.doc.nodes@.len(),
        forall|k: int|
            0 <= k < over@.len() ==> match #[trigger] over@[k] {
                Some(p) => p < part.doc.nodes@.len() && cell_over(node_views(part.doc), k) == Some(
                    p as int,
                ),
                None => cell_over(node_views(part.doc), k) is None,
            },
    ensures
        r == are_good_formulas(data, name),
{
    let doc = &part.doc;
    let ghost nodes = node_views(*doc);
    let ghost lists = list_views(*doc);
    if contains(&chars(part.text.as_str()), &chars("<![CDATA[")) {
        return false;
    }
    let mut k: usize = 0;
    while k < doc.nodes.len()
        invariant
            nodes == node_views(*doc),
            lists == list_views(*doc),
            nodes == nodes_of(data, name),
            lists == lists_of(data, name),
            doc.attributes@.len() == doc.nodes@.len(),
            over@.len() == doc.nodes@.len(),
            forall|i: int|
                0 <= i < over@.len() ==> match #[trigger] over@[i] {
                    Some(p) => p < doc.nodes@.len() && cell_over(nodes, i) == Some(p as int),
                    None => cell_over(nodes, i) is None,
                },
            k <= doc.nodes@.len(),
            forall|i: int| 0 <= i < k ==> #[trigger] is_good_formula(nodes, lists, i),
        decreases doc.nodes@.len() - k,
    {
        assert(over@[k as int] == over@[k as int]);
        if !check_formula(doc, over, k) {
            assert(!is_good_formula(nodes, lists, k as int));
            return false;
        }
        k = k + 1;
    }
    true
}

fn count_shared(data: &[u8], names: &Vec<String>) -> (r: usize)
    ensures
        r == string_count(data@, views(names@)),
{
    let i: usize = find_member(names, "xl/sharedstrings.xml");
    if i < names.len() {
        assert(views(names@)[i as int] == names@[i as int]@);
        match load(data, names[i].as_str()) {
            Some(part) => count_strings(&part.doc),
            None => 0,
        }
    } else {
        0
    }
}

fn check_sheet(data: &[u8], name: &str, count: usize, formulas: bool) -> (r: bool)
    ensures
        r == is_good_sheet(data@, name@, count as nat, formulas),
{
    match load(data, name) {
        Some(part) => {
            let over = cells_over(&part.doc);
            check_cells_of(&part.doc, &over, count) && (!formulas || check_formulas(
                &part,
                &over,
                Ghost(data@),
                Ghost(name@),
            ))
        },
        None => false,
    }
}

fn check_brackets(list: &Vec<XmlAttribute>) -> (r: bool)
    ensures
        r == forall|j: int|
            0 <= j < list@.len() ==> brackets_in((#[trigger] attribute_views(list@)[j]).value)
                <= BRACKETS,
{
    let ghost all = attribute_views(list@);
    let mut j: usize = 0;
    while j < list.len()
        invariant
            all == attribute_views(list@),
            j <= list@.len(),
            forall|i: int| 0 <= i < j ==> brackets_in((#[trigger] all[i]).value) <= BRACKETS,
        decreases list@.len() - j,
    {
        assert(all[j as int] == list@[j as int]@);
        if count_brackets(list[j].value.as_str()) > BRACKETS {
            return false;
        }
        j = j + 1;
    }
    true
}

fn check_styles(data: &[u8], names: &Vec<String>) -> (r: bool)
    ensures
        r == are_good_styles(data@, views(names@)),
{
    let i: usize = find_member(names, "xl/styles.xml");
    if i >= names.len() {
        return true;
    }
    assert(views(names@)[i as int] == names@[i as int]@);
    let part = match load(data, names[i].as_str()) {
        Some(part) => part,
        None => {
            return false;
        },
    };
    let doc = &part.doc;
    let ghost lists = list_views(*doc);
    let mut k: usize = 0;
    while k < doc.attributes.len()
        invariant
            lists == list_views(*doc),
            i == member_named(views(names@), "xl/styles.xml"@, 0),
            i < names@.len(),
            lists == lists_of(data@, views(names@)[i as int]),
            k <= doc.attributes@.len(),
            forall|m: int, j: int|
                0 <= m < k && 0 <= j < lists[m].len() ==> brackets_in((#[trigger] lists[m][j]).value)
                    <= BRACKETS,
        decreases doc.attributes@.len() - k,
    {
        assert(lists[k as int] == attribute_views(doc.attributes@[k as int]@));
        if !check_brackets(&doc.attributes[k]) {
            proof {
                let list = lists[k as int];
                let j = choose|j: int|
                    0 <= j < list.len() && brackets_in((#[trigger] list[j]).value) > BRACKETS;
                assert(brackets_in(lists[k as int][j].value) > BRACKETS);
            }
            return false;
        }
        k = k + 1;
    }
    true
}

fn check_parts(data: &[u8], names: &Vec<String>, sheet: &str, formulas: bool) -> (r: bool)
    requires
        views(names@) == listed_names(zip_members(data@)->Ok_0),
    ensures
        r == are_good_parts(data@, sheet@, formulas),
{
    let ghost all = views(names@);
    if !check_styles(data, names) {
        return false;
    }
    let book: usize = find_member(names, "xl/workbook.xml");
    let rels: usize = find_member(names, "xl/_rels/workbook.xml.rels");
    if book == names.len() || rels == names.len() {
        return true;
    }
    assert(all[book as int] == names@[book as int]@);
    assert(all[rels as int] == names@[rels as int]@);
    let workbook = Book {
        names,
        book: load_legible(data, names[book].as_str()),
        rels: load_legible(data, names[rels].as_str()),
    };
    let count: usize = count_shared(data, names);
    let mut i: usize = 0;
    while i < names.len()
        invariant
            all == views(names@),
            all == listed_names(zip_members(data@)->Ok_0),
            are_good_styles(data@, all),
            count == string_count(data@, all),
            workbook.names == names,
            workbook.is_of(data@),
            i <= names@.len(),
            forall|k: int|
                0 <= k < i && may_hold(data@, all, sheet@, #[trigger] all[k]) ==> is_good_sheet(
                    data@,
                    all[k],
                    string_count(data@, all),
                    formulas,
                ),
        decreases names@.len() - i,
    {
        assert(all[i as int] == names@[i as int]@);
        if workbook.holds_sheet(Ghost(data@), sheet, names[i].as_str()) && !check_sheet(
            data,
            names[i].as_str(),
            count,
            formulas,
        ) {
            return false;
        }
        i = i + 1;
    }
    true
}

fn repeats(name: &str) -> (r: bool)
    ensures
        r == is_repetition(name@),
{
    same(name, "number-rows-repeated") || same(name, "number-columns-repeated")
}

/// A count of repetitions, where it is a good one.
fn read_count(text: &str) -> (r: Option<u64>)
    ensures
        match r {
            Some(n) => is_good_count(text@) && n == number(text@),
            None => !is_good_count(text@),
        },
{
    if !is_below(text, ROW_LIMIT as usize + 1) {
        return None;
    }
    let all = chars(text);
    assert(all@.subrange(0, all@.len() as int) =~= text@);
    match parse_number(&all, 0, all.len()) {
        Some(n) => if n >= 1 {
            Some(n)
        } else {
            None
        },
        None => None,
    }
}

/// The columns that a node takes, where its repetitions are good.
fn read_columns(list: &Vec<XmlAttribute>) -> (r: Option<u64>)
    ensures
        r is Some == are_good_counts(attribute_views(list@)),
        r matches Some(n) ==> n == columns_of(attribute_views(list@), 0) && n <= ROW_LIMIT,
{
    let ghost all = attribute_views(list@);
    let mut columns: Option<u64> = None;
    let mut j: usize = 0;
    while j < list.len()
        invariant
            all == attribute_views(list@),
            j <= list@.len(),
            forall|i: int|
                0 <= i < j && is_repetition((#[trigger] all[i]).name) ==> is_good_count(
                    all[i].value,
                ),
            match columns {
                Some(n) => n == columns_of(all, 0) && n <= ROW_LIMIT,
                None => columns_of(all, 0) == columns_of(all, j as int),
            },
        decreases list@.len() - j,
    {
        assert(all[j as int] == list@[j as int]@);
        if repeats(list[j].name.as_str()) {
            match read_count(list[j].value.as_str()) {
                None => {
                    return None;
                },
                Some(n) => {
                    if columns.is_none() && same(list[j].name.as_str(), "number-columns-repeated") {
                        columns = Some(n);
                    }
                },
            }
        }
        j = j + 1;
    }
    match columns {
        Some(n) => Some(n),
        None => Some(1),
    }
}

/// The columns of the children of a node grow with the nodes.
proof fn columns_grow(
    nodes: Seq<NodeView>,
    lists: Seq<Seq<AttributeView>>,
    p: int,
    k: int,
    n: int,
)
    requires
        k <= n,
    ensures
        columns_in(nodes, lists, p, k) <= columns_in(nodes, lists, p, n),
    decreases n - k,
{
    if k < n {
        columns_grow(nodes, lists, p, k, n - 1);
    }
}

fn check_tables(doc: &Xml) -> (r: bool)
    requires
        doc.attributes@.len() == doc.nodes@.len(),
    ensures
        r == are_good_tables(node_views(*doc), list_views(*doc)),
{
    let ghost nodes = node_views(*doc);
    let ghost lists = list_views(*doc);
    let size: usize = doc.nodes.len();
    let mut sums: Vec<u64> = Vec::new();
    while sums.len() < size
        invariant
            sums@.len() <= size,
            forall|p: int| 0 <= p < sums@.len() ==> #[trigger] sums@[p] == 0,
        decreases size - sums@.len(),
    {
        sums.push(0);
    }
    let mut k: usize = 0;
    while k < size
        invariant
            nodes == node_views(*doc),
            lists == list_views(*doc),
            doc.attributes@.len() == doc.nodes@.len() == size,
            sums@.len() == size,
            k <= size,
            forall|p: int|
                0 <= p < size ==> #[trigger] sums@[p] == columns_in(nodes, lists, p, k as int)
                    && sums@[p] <= WIDTH,
            forall|m: int|
                0 <= m < k && (nodes[m].name == "table-row"@ || is_table_cell(nodes[m]))
                    ==> #[trigger] are_good_counts(lists[m]),
        decreases size - k,
    {
        let node = &doc.nodes[k];
        assert(nodes[k as int] == node@);
        assert(lists[k as int] == attribute_views(doc.attributes@[k as int]@));
        let is_cell = same(node.name.as_str(), "table-cell") || same(
            node.name.as_str(),
            "covered-table-cell",
        );
        let mut columns: u64 = 0;
        if is_cell || same(node.name.as_str(), "table-row") {
            match read_columns(&doc.attributes[k]) {
                Some(n) => {
                    columns = n;
                },
                None => {
                    assert(!are_good_counts(lists[k as int]));
                    return false;
                },
            }
        }
        let ghost before = sums@;
        if let Some(p) = node.parent {
            if is_cell && p < size {
                let sum: u64 = sums[p] + columns;
                if sum > WIDTH {
                    proof {
                        assert(before[p as int] == columns_in(nodes, lists, p as int, k as int));
                        columns_grow(nodes, lists, p as int, k + 1, nodes.len() as int);
                    }
                    return false;
                }
                sums[p] = sum;
            }
        }
        proof {
            assert forall|q: int| 0 <= q < size implies #[trigger] sums@[q] == columns_in(
                nodes,
                lists,
                q,
                k + 1,
            ) && sums@[q] <= WIDTH by {
                assert(before[q] == columns_in(nodes, lists, q, k as int));
            }
        }
        k = k + 1;
    }
    proof {
        assert forall|p: int| 0 <= p < nodes.len() implies #[trigger] columns_in(
            nodes,
            lists,
            p,
            nodes.len() as int,
        ) <= WIDTH by {
            assert(sums@[p] <= WIDTH);
        }
    }
    true
}

fn is_compound_file(data: &[u8]) -> (r: bool)
    ensures
        r == is_compound(data@),
{
    data.len() >= 8 && data[0] == 0xd0 && data[1] == 0xcf && data[2] == 0x11 && data[3] == 0xe0
        && data[4] == 0xa1 && data[5] == 0xb1 && data[6] == 0x1a && data[7] == 0xe1
}

/// Whether the cells of a sheet of a package that is not refused can be read, and its formulas
/// where they are asked for.
pub fn check_cells(data: &[u8], format: Format, sheet: &str, formulas: bool) -> (r: bool)
    requires
        archive_refusal(data@) is None,
    ensures
        r == is_sound(data@, format, sheet@, formulas),
{
    match format {
        Format::Ods => match load(data, "content.xml") {
            Some(part) => check_tables(&part.doc),
            None => false,
        },
        Format::Xlsx => !is_compound_file(data) && match archive(data) {
            Ok(names) => check_parts(data, &names, sheet, formulas),
            Err(_) => false,
        },
    }
}

} // verus!
