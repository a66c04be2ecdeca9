//! Patching the cells of an XLSX sheet.
use crate::a1::{cell_name, Address, Range};
use crate::cells::Cells;
use crate::error::Error;
use crate::text::{chars, decimal_text, parse_unsigned};
use crate::tree::{empty_element, find_end_tag};
use crate::workbook::{address, cell_range};
use crate::xml::{push_bytes, push_text, splice, utf8, Patch, PatchView, Xml};
use vstd::prelude::*;
use vstd::slice::slice_subrange;

verus! {

/// A character as XML text or as an attribute value.
pub open spec fn escaped_char(c: char) -> Seq<char> {
    if c == '&' {
        "&amp;"@
    } else if c == '<' {
        "&lt;"@
    } else if c == '>' {
        "&gt;"@
    } else if c == '"' {
        "&quot;"@
    } else if c == '\r' {
        "&#13;"@
    } else {
        seq![c]
    }
}

/// A text as XML text or as an attribute value.
pub open spec fn escaped(s: Seq<char>) -> Seq<char>
    decreases s.len(),
{
    if s.len() == 0 {
        Seq::empty()
    } else {
        escaped(s.drop_last()) + escaped_char(s.last())
    }
}

/// Escaping two texts one after the other is escaping both as one.
pub proof fn escaping_joins(a: Seq<char>, b: Seq<char>)
    ensures
        escaped(a + b) == escaped(a) + escaped(b),
    decreases b.len(),
{
    if b.len() == 0 {
        assert(a + b =~= a);
        assert(escaped(a) + escaped(b) =~= escaped(a));
    } else {
        escaping_joins(a, b.drop_last());
        assert((a + b).drop_last() =~= a + b.drop_last());
        assert(escaped(a + b) =~= escaped(a) + escaped(b));
    }
}

/// A character that stands for itself only in markup.
pub open spec fn is_markup(c: char) -> bool {
    c == '<' || c == '>' || c == '"' || c == '\r'
}

/// One of the references that escaping writes stands at a place.
pub open spec fn has_reference(s: Seq<char>, i: int) -> bool {
    ||| crate::text::occurs_at(s, "&amp;"@, i)
    ||| crate::text::occurs_at(s, "&lt;"@, i)
    ||| crate::text::occurs_at(s, "&gt;"@, i)
    ||| crate::text::occurs_at(s, "&quot;"@, i)
    ||| crate::text::occurs_at(s, "&#13;"@, i)
}

/// An escaped text holds no markup, and every ampersand in it begins a reference.
pub proof fn escaped_text_is_no_markup(s: Seq<char>)
    ensures
        forall|i: int| 0 <= i < escaped(s).len() ==> !is_markup(#[trigger] escaped(s)[i]),
        forall|i: int|
            0 <= i < escaped(s).len() && #[trigger] escaped(s)[i] == '&' ==> has_reference(
                escaped(s),
                i,
            ),
    decreases s.len(),
{
    if s.len() > 0 {
        let front = escaped(s.drop_last());
        let tail = escaped_char(s.last());
        let all = escaped(s);
        escaped_text_is_no_markup(s.drop_last());
        reveal_strlit("&amp;");
        reveal_strlit("&lt;");
        reveal_strlit("&gt;");
        reveal_strlit("&quot;");
        reveal_strlit("&#13;");
        assert forall|i: int| 0 <= i < all.len() implies !is_markup(#[trigger] all[i]) by {
            if i < front.len() {
                assert(all[i] == front[i]);
            } else {
                assert(all[i] == tail[i - front.len()]);
            }
        }
        assert forall|i: int| 0 <= i < all.len() && #[trigger] all[i] == '&' implies has_reference(
            all,
            i,
        ) by {
            if i < front.len() {
                assert(all[i] == front[i]);
                stays_at(front, tail, "&amp;"@, i);
                stays_at(front, tail, "&lt;"@, i);
                stays_at(front, tail, "&gt;"@, i);
                stays_at(front, tail, "&quot;"@, i);
                stays_at(front, tail, "&#13;"@, i);
            } else {
                assert(all[i] == tail[i - front.len()]);
                assert(i == front.len());
                assert(all.subrange(i, i + tail.len()) =~= tail);
            }
        }
    }
}

/// What stands at a place of a text stands there when the text goes on.
proof fn stays_at(front: Seq<char>, tail: Seq<char>, needle: Seq<char>, i: int)
    ensures
        crate::text::occurs_at(front, needle, i) ==> crate::text::occurs_at(
            front + tail,
            needle,
            i,
        ),
{
    if crate::text::occurs_at(front, needle, i) {
        assert((front + tail).subrange(i, i + needle.len()) =~= front.subrange(
            i,
            i + needle.len(),
        ));
    }
}

/// Append a character as XML text.
pub fn push_escaped(out: &mut String, c: char)
    ensures
        final(out)@ == old(out)@ + escaped_char(c),
{
    let ghost before = out@;
    if c == '&' {
        out.append("&amp;");
    } else if c == '<' {
        out.append("&lt;");
    } else if c == '>' {
        out.append("&gt;");
    } else if c == '"' {
        out.append("&quot;");
    } else if c == '\r' {
        out.append("&#13;");
    } else {
        out.push(c);
        assert(out@ =~= before + seq![c]);
    }
}

/// The characters from `from` on as XML text.
pub fn escape(all: &Vec<char>, from: usize) -> (r: String)
    requires
        from <= all@.len(),
    ensures
        r@ == escaped(all@.skip(from as int)),
{
    let ghost rest = all@.skip(from as int);
    let mut out = String::new();
    let mut i: usize = from;
    assert(rest.take(0) =~= Seq::empty());
    while i < all.len()
        invariant
            from <= i <= all@.len(),
            rest == all@.skip(from as int),
            out@ == escaped(rest.take(i - from)),
        decreases all@.len() - i,
    {
        assert(rest.take(i - from + 1).drop_last() =~= rest.take(i - from));
        push_escaped(&mut out, all[i]);
        i = i + 1;
    }
    assert(rest.take(rest.len() as int) =~= rest);
    out
}

/// A hexadecimal digit.
pub open spec fn is_hex(c: char) -> bool {
    '0' <= c <= '9' || 'a' <= c <= 'f' || 'A' <= c <= 'F'
}

/// Something that reads like an escape, such as `_x000D_`, stands at `i`.
pub open spec fn looks_escaped(s: Seq<char>, i: int) -> bool {
    &&& i + 7 <= s.len()
    &&& s[i] == '_'
    &&& s[i + 1] == 'x'
    &&& is_hex(s[i + 2])
    &&& is_hex(s[i + 3])
    &&& is_hex(s[i + 4])
    &&& is_hex(s[i + 5])
    &&& s[i + 6] == '_'
}

/// The first `n` characters as inline text: what reads like an escape has its first
/// character escaped.
pub open spec fn literal(s: Seq<char>, n: int) -> Seq<char>
    decreases n,
{
    if n <= 0 {
        Seq::empty()
    } else {
        literal(s, n - 1) + if looks_escaped(s, n - 1) {
            "_x005F_"@
        } else {
            seq![s[n - 1]]
        }
    }
}

fn hex_char(c: char) -> (r: bool)
    ensures
        r == is_hex(c),
{
    '0' <= c && c <= '9' || 'a' <= c && c <= 'f' || 'A' <= c && c <= 'F'
}

fn reads_escaped(all: &Vec<char>, i: usize) -> (r: bool)
    requires
        i < all@.len(),
    ensures
        r == looks_escaped(all@, i as int),
{
    all.len() - i >= 7 && all[i] == '_' && all[i + 1] == 'x' && hex_char(all[i + 2]) && hex_char(
        all[i + 3],
    ) && hex_char(all[i + 4]) && hex_char(all[i + 5]) && all[i + 6] == '_'
}

/// OOXML escape-looking literals are escaped before inline text is written.
fn literal_text(all: &Vec<char>) -> (r: String)
    ensures
        r@ == literal(all@, all@.len() as int),
{
    let mut out = String::new();
    let mut i: usize = 0;
    while i < all.len()
        invariant
            i <= all@.len(),
            out@ == literal(all@, i as int),
        decreases all@.len() - i,
    {
        let ghost before = out@;
        if reads_escaped(all, i) {
            out.append("_x005F_");
        } else {
            out.push(all[i]);
            assert(out@ =~= before + seq![all@[i as int]]);
        }
        i = i + 1;
    }
    out
}

/// An element child that a new value replaces.
pub open spec fn is_value_child(name: Seq<char>) -> bool {
    name == "v"@ || name == "is"@ || name == "f"@
}

/// The element children of node `i` from node `j` on that a new value keeps, as they are.
pub open spec fn kept_children(doc: Xml, text: Seq<u8>, i: int, j: int, end: int) -> Seq<u8>
    decreases end - j,
{
    if j >= end {
        Seq::empty()
    } else {
        let node = doc.nodes@[j];
        let rest = kept_children(doc, text, i, j + 1, end);
        if crate::tree::is_child(node, i) && node.element && !is_value_child(node.name@) {
            text.subrange(node.start as int, node.end as int) + rest
        } else {
            rest
        }
    }
}

/// The element children of a node that a new value keeps.
pub open spec fn tail_of(doc: Xml, text: Seq<u8>, i: int) -> Seq<u8> {
    kept_children(doc, text, i, i + 1, crate::tree::end_of(doc.nodes@, i))
}

fn tail(doc: &Xml, text: &[u8], i: usize) -> (r: Vec<u8>)
    requires
        i < doc.nodes@.len(),
        doc.wf(text@.len() as int),
    ensures
        r@ == tail_of(*doc, text@, i as int),
{
    let end = doc.end(i);
    let mut out: Vec<u8> = Vec::new();
    let mut j: usize = i + 1;
    assert(out@ + kept_children(*doc, text@, i as int, j as int, end as int) =~= tail_of(
        *doc,
        text@,
        i as int,
    ));
    while j < end
        invariant
            i < j <= end <= doc.nodes@.len(),
            doc.wf(text@.len() as int),
            out@ + kept_children(*doc, text@, i as int, j as int, end as int) == tail_of(
                *doc,
                text@,
                i as int,
            ),
        decreases end - j,
    {
        let ghost before = out@;
        let ghost rest = kept_children(*doc, text@, i as int, j + 1, end as int);
        assert(doc.nodes@[j as int].start <= doc.nodes@[j as int].end);
        if doc.child_of(j, i) && doc.nodes[j].element && !(doc.is_named(j, "v") || doc.is_named(
            j,
            "is",
        ) || doc.is_named(j, "f")) {
            push_bytes(&mut out, slice_subrange(text, doc.nodes[j].start, doc.nodes[j].end));
            assert(out@ + rest =~= before + (text@.subrange(
                doc.nodes@[j as int].start as int,
                doc.nodes@[j as int].end as int,
            ) + rest));
        }
        j = j + 1;
    }
    assert(out@ + Seq::<u8>::empty() =~= out@);
    out
}

/// `<name>`
pub open spec fn open_tag(name: Seq<u8>) -> Seq<u8> {
    utf8("<"@) + name + utf8(">"@)
}

/// `</name>`
pub open spec fn close_tag(name: Seq<u8>) -> Seq<u8> {
    utf8("</"@) + name + utf8(">"@)
}

/// Append `<name>`.
pub fn push_open(out: &mut Vec<u8>, name: &Vec<u8>)
    ensures
        final(out)@ == old(out)@ + open_tag(name@),
{
    let ghost before = out@;
    push_text(out, "<");
    push_bytes(out, name.as_slice());
    push_text(out, ">");
    assert(out@ =~= before + open_tag(name@));
}

/// Append `</name>`.
pub fn push_close(out: &mut Vec<u8>, name: &Vec<u8>)
    ensures
        final(out)@ == old(out)@ + close_tag(name@),
{
    let ghost before = out@;
    push_text(out, "</");
    push_bytes(out, name.as_slice());
    push_text(out, ">");
    assert(out@ =~= before + close_tag(name@));
}

/// The start tag of a cell: that of the stored cell without its type, or a new one, with
/// `kind` at its end.
pub open spec fn cell_start(
    doc: Xml,
    text: Seq<u8>,
    node: Option<usize>,
    parent: int,
    at: Address,
    kind: Seq<char>,
) -> Result<Seq<u8>, Error> {
    match node {
        Some(n) => doc.tag_of(text, n as int, seq![(""@, "t"@)], utf8(kind)),
        None => Ok(
            utf8("<"@) + doc.qualified_of(parent, "c"@) + utf8(" r=\""@) + utf8(
                crate::a1::name_of(at),
            ) + utf8("\""@) + utf8(kind) + utf8(">"@),
        ),
    }
}

/// A cell with a new value: a formula after `=`, else inline text. Other children of a
/// stored cell stay.
pub open spec fn cell_markup(
    doc: Xml,
    text: Seq<u8>,
    node: Option<usize>,
    parent: int,
    at: Address,
    value: Seq<char>,
) -> Result<Seq<u8>, Error> {
    let c = doc.qualified_of(
        match node {
            Some(n) => n as int,
            None => parent,
        },
        "c"@,
    );
    let f = doc.qualified_of(parent, "f"@);
    let is = doc.qualified_of(parent, "is"@);
    let t = doc.qualified_of(parent, "t"@);
    let tail = match node {
        Some(n) => tail_of(doc, text, n as int),
        None => Seq::empty(),
    };
    match crate::workbook::formula_part(value) {
        Some(formula) => match cell_start(doc, text, node, parent, at, ""@) {
            Err(error) => Err(error),
            Ok(start) => Ok(
                start + open_tag(f) + utf8(escaped(formula)) + close_tag(f) + tail + close_tag(c),
            ),
        },
        None => match cell_start(doc, text, node, parent, at, " t=\"inlineStr\""@) {
            Err(error) => Err(error),
            Ok(start) => Ok(
                start + open_tag(is) + (utf8("<"@) + t + utf8(" xml:space=\"preserve\">"@)) + utf8(
                    escaped(literal(value, value.len() as int)),
                ) + close_tag(t) + close_tag(is) + tail + close_tag(c),
            ),
        },
    }
}

fn start_of_cell(
    doc: &Xml,
    text: &[u8],
    node: Option<usize>,
    parent: usize,
    at: Address,
    kind: &str,
) -> (r: Result<Vec<u8>, Error>)
    requires
        doc.wf(text@.len() as int),
        parent < doc.nodes@.len(),
        node matches Some(n) ==> n < doc.nodes@.len(),
        at.0 < u64::MAX,
    ensures
        match r {
            Ok(tag) => cell_start(*doc, text@, node, parent as int, at, kind@) == Ok::<
                Seq<u8>,
                Error,
            >(tag@),
            Err(error) => cell_start(*doc, text@, node, parent as int, at, kind@) == Err::<
                Seq<u8>,
                Error,
            >(error),
        },
{
    match node {
        Some(n) => {
            let mut remove: Vec<(&str, &str)> = Vec::new();
            remove.push(("", "t"));
            let mut extra: Vec<u8> = Vec::new();
            push_text(&mut extra, kind);
            proof {
                assert(crate::tree::pair_views(remove@) =~= seq![(""@, "t"@)]);
                assert(extra@ =~= utf8(kind@));
            }
            doc.start_tag(text, n, &remove, &extra)
        },
        None => {
            let mut tag: Vec<u8> = Vec::new();
            push_text(&mut tag, "<");
            let name = doc.qualified(parent, "c");
            push_bytes(&mut tag, name.as_slice());
            push_text(&mut tag, " r=\"");
            push_text(&mut tag, cell_name(at).as_str());
            push_text(&mut tag, "\"");
            push_text(&mut tag, kind);
            push_text(&mut tag, ">");
            assert(tag@ =~= utf8("<"@) + name@ + utf8(" r=\""@) + utf8(crate::a1::name_of(at))
                + utf8("\""@) + utf8(kind@) + utf8(">"@));
            Ok(tag)
        },
    }
}

/// A cell with a new value. Non-value children such as extension metadata stay intact.
pub fn xlsx_cell(
    doc: &Xml,
    text: &[u8],
    node: Option<usize>,
    parent: usize,
    at: Address,
    value: &str,
) -> (r: Result<Vec<u8>, Error>)
    requires
        doc.wf(text@.len() as int),
        parent < doc.nodes@.len(),
        node matches Some(n) ==> n < doc.nodes@.len(),
        at.0 < u64::MAX,
    ensures
        match r {
            Ok(cell) => cell_markup(*doc, text@, node, parent as int, at, value@) == Ok::<
                Seq<u8>,
                Error,
            >(cell@),
            Err(error) => cell_markup(*doc, text@, node, parent as int, at, value@) == Err::<
                Seq<u8>,
                Error,
            >(error),
        },
{
    let c = match node {
        Some(n) => doc.qualified(n, "c"),
        None => doc.qualified(parent, "c"),
    };
    let kept = match node {
        Some(n) => tail(doc, text, n),
        None => Vec::new(),
    };
    let all = chars(value);
    if all.len() > 0 && all[0] == '=' {
        let f = doc.qualified(parent, "f");
        let mut cell = match start_of_cell(doc, text, node, parent, at, "") {
            Ok(start) => start,
            Err(error) => {
                return Err(error);
            },
        };
        push_open(&mut cell, &f);
        push_text(&mut cell, escape(&all, 1).as_str());
        push_close(&mut cell, &f);
        push_bytes(&mut cell, kept.as_slice());
        push_close(&mut cell, &c);
        return Ok(cell);
    }
    let is = doc.qualified(parent, "is");
    let t = doc.qualified(parent, "t");
    let inline = chars(literal_text(&all).as_str());
    assert(inline@.skip(0) =~= inline@);
    let mut cell = match start_of_cell(doc, text, node, parent, at, " t=\"inlineStr\"") {
        Ok(start) => start,
        Err(error) => {
            return Err(error);
        },
    };
    push_open(&mut cell, &is);
    let ghost before = cell@;
    push_text(&mut cell, "<");
    push_bytes(&mut cell, t.as_slice());
    push_text(&mut cell, " xml:space=\"preserve\">");
    assert(cell@ =~= before + (utf8("<"@) + t@ + utf8(" xml:space=\"preserve\">"@)));
    push_text(&mut cell, escape(&inline, 0).as_str());
    push_close(&mut cell, &t);
    push_close(&mut cell, &is);
    push_bytes(&mut cell, kept.as_slice());
    push_close(&mut cell, &c);
    Ok(cell)
}

/// The first node from `i` on with this name; the number of nodes where there is none.
pub open spec fn first_named(doc: Xml, name: Seq<char>, i: int) -> int
    decreases doc.nodes@.len() - i,
{
    if i >= doc.nodes@.len() {
        doc.nodes@.len() as int
    } else if doc.nodes@[i].name@ == name {
        i
    } else {
        first_named(doc, name, i + 1)
    }
}

/// The first node with this name; the number of nodes where there is none.
pub fn find_named(doc: &Xml, name: &str) -> (r: usize)
    ensures
        r == first_named(*doc, name@, 0),
        r <= doc.nodes@.len(),
{
    let mut i: usize = 0;
    while i < doc.nodes.len() && !doc.is_named(i, name)
        invariant
            i <= doc.nodes@.len(),
            first_named(*doc, name@, 0) == first_named(*doc, name@, i as int),
        decreases doc.nodes@.len() - i,
    {
        i = i + 1;
    }
    i
}

/// The zero-based number of a row element.
pub open spec fn row_number(doc: Xml, i: int) -> Result<u64, Error> {
    match crate::tree::value(doc, i, "r"@) {
        None => Err(Error::RowWithoutNumber),
        Some(value) => match crate::text::unsigned_of(value) {
            Err(error) => Err(error),
            Ok(n) => if n == 0 {
                Err(Error::RowNumber)
            } else {
                Ok((n - 1) as u64)
            },
        },
    }
}

fn read_row_number(doc: &Xml, i: usize) -> (r: Result<u64, Error>)
    requires
        i < doc.attributes@.len(),
    ensures
        r == row_number(*doc, i as int),
        r matches Ok(n) ==> n < u64::MAX,
{
    match doc.attribute(i, "r") {
        None => Err(Error::RowWithoutNumber),
        Some(a) => match parse_unsigned(a.value.as_str()) {
            Err(error) => Err(error),
            Ok(0) => Err(Error::RowNumber),
            Ok(n) => Ok(n - 1),
        },
    }
}

/// Node `j` is a cell of the row element `row`.
pub open spec fn is_cell_of(doc: Xml, row: int, j: int) -> bool {
    crate::tree::is_child(doc.nodes@[j], row) && doc.nodes@[j].name@ == "c"@
}

/// The address of a cell element.
pub open spec fn cell_address(doc: Xml, j: int) -> Result<Address, Error> {
    match crate::tree::value(doc, j, "r"@) {
        None => Err(Error::MissingCellAddress),
        Some(value) => crate::workbook::address_of(value),
    }
}

fn read_cell_address(doc: &Xml, j: usize) -> (r: Result<Address, Error>)
    requires
        j < doc.attributes@.len(),
    ensures
        r == cell_address(*doc, j as int),
{
    match doc.attribute(j, "r") {
        None => Err(Error::MissingCellAddress),
        Some(a) => address(a.value.as_str()),
    }
}

/// What is wrong with the first cell of a row, from node `j` on, whose address does not
/// read.
pub open spec fn cells_error(doc: Xml, row: int, j: int, end: int) -> Option<Error>
    decreases end - j,
{
    if j >= end {
        None
    } else if is_cell_of(doc, row, j) && cell_address(doc, j) is Err {
        Some(cell_address(doc, j)->Err_0)
    } else {
        cells_error(doc, row, j + 1, end)
    }
}

/// The first cell of a row, from node `j` on, with this address.
pub open spec fn cell_with(doc: Xml, row: int, j: int, end: int, at: Address) -> Option<usize>
    decreases end - j,
{
    if j >= end {
        None
    } else if is_cell_of(doc, row, j) && cell_address(doc, j) == Ok::<Address, Error>(at) {
        Some(j as usize)
    } else {
        cell_with(doc, row, j + 1, end, at)
    }
}

/// Where the first cell of a row, from node `j` on, past a column starts.
pub open spec fn cell_past(doc: Xml, row: int, j: int, end: int, col: usize) -> Option<int>
    decreases end - j,
{
    if j >= end {
        None
    } else if is_cell_of(doc, row, j) && (cell_address(doc, j) matches Ok(at) && at.1 > col) {
        Some(doc.nodes@[j].start as int)
    } else {
        cell_past(doc, row, j + 1, end, col)
    }
}

fn check_cells(doc: &Xml, row: usize, end: usize) -> (r: Result<(), Error>)
    requires
        doc.attributes@.len() == doc.nodes@.len(),
        row < end <= doc.nodes@.len(),
    ensures
        r == match cells_error(*doc, row as int, row + 1, end as int) {
            Some(error) => Err::<(), Error>(error),
            None => Ok(()),
        },
{
    let mut j: usize = row + 1;
    while j < end
        invariant
            doc.attributes@.len() == doc.nodes@.len(),
            row < j <= end <= doc.nodes@.len(),
            cells_error(*doc, row as int, row + 1, end as int) == cells_error(
                *doc,
                row as int,
                j as int,
                end as int,
            ),
        decreases end - j,
    {
        if doc.child_of(j, row) && doc.is_named(j, "c") {
            if let Err(error) = read_cell_address(doc, j) {
                return Err(error);
            }
        }
        j = j + 1;
    }
    Ok(())
}

fn find_cell(doc: &Xml, row: usize, end: usize, at: Address) -> (r: Option<usize>)
    requires
        doc.attributes@.len() == doc.nodes@.len(),
        row < end <= doc.nodes@.len(),
    ensures
        r == cell_with(*doc, row as int, row + 1, end as int, at),
        r matches Some(n) ==> n < end,
{
    let mut j: usize = row + 1;
    while j < end
        invariant
            doc.attributes@.len() == doc.nodes@.len(),
            row < j <= end <= doc.nodes@.len(),
            cell_with(*doc, row as int, row + 1, end as int, at) == cell_with(
                *doc,
                row as int,
                j as int,
                end as int,
                at,
            ),
        decreases end - j,
    {
        if doc.child_of(j, row) && doc.is_named(j, "c") {
            if let Ok(found) = read_cell_address(doc, j) {
                if found.0 == at.0 && found.1 == at.1 {
                    return Some(j);
                }
            }
        }
        j = j + 1;
    }
    None
}

/// Where a new cell of a row goes: before the first cell past it, else at the end of the
/// row.
pub open spec fn cell_place(doc: Xml, text: Seq<u8>, row: int, at: Address) -> Option<int> {
    let end = crate::tree::end_of(doc.nodes@, row);
    match cell_past(doc, row, row + 1, end, at.1) {
        Some(place) => Some(place),
        None => crate::tree::last_end_tag(
            text,
            doc.nodes@[row].start as int,
            doc.nodes@[row].end as int,
        ),
    }
}

fn find_place(doc: &Xml, text: &[u8], row: usize, end: usize, at: Address) -> (r: Option<usize>)
    requires
        doc.wf(text@.len() as int),
        row < end <= doc.nodes@.len(),
        end == crate::tree::end_of(doc.nodes@, row as int),
    ensures
        match r {
            Some(place) => cell_place(*doc, text@, row as int, at) == Some(place as int) && place
                <= text@.len(),
            None => cell_place(*doc, text@, row as int, at) is None,
        },
{
    let mut j: usize = row + 1;
    while j < end
        invariant
            doc.wf(text@.len() as int),
            row < j <= end <= doc.nodes@.len(),
            cell_past(*doc, row as int, row + 1, end as int, at.1) == cell_past(
                *doc,
                row as int,
                j as int,
                end as int,
                at.1,
            ),
            end == crate::tree::end_of(doc.nodes@, row as int),
        decreases end - j,
    {
        if doc.child_of(j, row) && doc.is_named(j, "c") {
            if let Ok(found) = read_cell_address(doc, j) {
                if found.1 > at.1 {
                    assert(doc.nodes@[j as int].start <= doc.nodes@[j as int].end);
                    return Some(doc.nodes[j].start);
                }
            }
        }
        j = j + 1;
    }
    assert(doc.nodes@[row as int].start <= doc.nodes@[row as int].end);
    find_end_tag(text, doc.nodes[row].start, doc.nodes[row].end)
}

/// The new cells of a row from entry `k` on, one after the other.
pub open spec fn new_cells(
    doc: Xml,
    text: Seq<u8>,
    parent: int,
    entries: Seq<(Address, String)>,
    k: int,
    row: u64,
) -> Result<Seq<u8>, Error>
    decreases entries.len() - k,
{
    if k >= entries.len() || entries[k].0.0 != row {
        Ok(Seq::empty())
    } else {
        match cell_markup(doc, text, None, parent, entries[k].0, entries[k].1@) {
            Err(error) => Err(error),
            Ok(cell) => match new_cells(doc, text, parent, entries, k + 1, row) {
                Err(error) => Err(error),
                Ok(rest) => Ok(cell + rest),
            },
        }
    }
}

/// No entry is of the last row number.
pub open spec fn rows_named(entries: Seq<(Address, String)>) -> bool {
    forall|k: int| 0 <= k < entries.len() ==> (#[trigger] entries[k]).0.0 < u64::MAX
}

/// The new cells of a row from entry `k` on, and the entry after them.
fn write_cells(
    doc: &Xml,
    text: &[u8],
    parent: usize,
    entries: &Vec<(Address, String)>,
    k: usize,
    row: u64,
) -> (r: Result<Vec<u8>, Error>)
    requires
        doc.wf(text@.len() as int),
        parent < doc.nodes@.len(),
        k <= entries@.len(),
        rows_named(entries@),
    ensures
        match r {
            Ok(body) => new_cells(*doc, text@, parent as int, entries@, k as int, row) == Ok::<
                Seq<u8>,
                Error,
            >(body@),
            Err(error) => new_cells(*doc, text@, parent as int, entries@, k as int, row) == Err::<
                Seq<u8>,
                Error,
            >(error),
        },
{
    let mut body: Vec<u8> = Vec::new();
    let mut i: usize = k;
    let ghost whole = new_cells(*doc, text@, parent as int, entries@, k as int, row);
    proof {
        if let Ok(all) = whole {
            assert(body@ + all =~= all);
        }
    }
    while i < entries.len() && entries[i].0.0 == row
        invariant
            doc.wf(text@.len() as int),
            parent < doc.nodes@.len(),
            k <= i <= entries@.len(),
            rows_named(entries@),
            whole == new_cells(*doc, text@, parent as int, entries@, k as int, row),
            match new_cells(*doc, text@, parent as int, entries@, i as int, row) {
                Ok(rest) => whole == Ok::<Seq<u8>, Error>(body@ + rest),
                Err(error) => whole == Err::<Seq<u8>, Error>(error),
            },
        decreases entries@.len() - i,
    {
        let ghost before = body@;
        assert(entries@[i as int].0.0 < u64::MAX);
        match xlsx_cell(doc, text, None, parent, entries[i].0, entries[i].1.as_str()) {
            Ok(cell) => {
                push_bytes(&mut body, cell.as_slice());
                proof {
                    if let Ok(rest) = new_cells(
                        *doc,
                        text@,
                        parent as int,
                        entries@,
                        i + 1,
                        row,
                    ) {
                        assert(before + (cell@ + rest) =~= body@ + rest);
                    }
                }
            },
            Err(error) => {
                return Err(error);
            },
        }
        i = i + 1;
    }
    assert(body@ + Seq::<u8>::empty() =~= body@);
    Ok(body)
}

/// An empty row element with new cells.
pub open spec fn expanded_row(
    doc: Xml,
    text: Seq<u8>,
    row: int,
    entries: Seq<(Address, String)>,
    k: int,
    number: u64,
) -> Result<Seq<u8>, Error> {
    match new_cells(doc, text, row, entries, k, number) {
        Err(error) => Err(error),
        Ok(body) => match doc.tag_of(text, row, Seq::empty(), Seq::empty()) {
            Err(error) => Err(error),
            Ok(tag) => Ok(tag + body + close_tag(doc.qualified_of(row, "row"@))),
        },
    }
}

/// What makes the edits of a row element, from entry `k` on: stored cells are replaced, new
/// ones inserted in column order, and an empty row element is expanded.
pub open spec fn row_patches(
    doc: Xml,
    text: Seq<u8>,
    row: int,
    entries: Seq<(Address, String)>,
    k: int,
    number: u64,
) -> Result<Seq<PatchView>, Error>
    decreases entries.len() - k,
{
    let node = doc.nodes@[row];
    let end = crate::tree::end_of(doc.nodes@, row);
    if k >= entries.len() || entries[k].0.0 != number {
        Ok(Seq::empty())
    } else {
        let (at, value) = entries[k];
        let cell = cell_with(doc, row, row + 1, end, at);
        let place = cell_place(doc, text, row, at);
        if cell is None && crate::tree::is_empty_element(
            text,
            node.start as int,
            node.end as int,
        ) {
            match expanded_row(doc, text, row, entries, k, number) {
                Err(error) => Err(error),
                Ok(bytes) => Ok(
                    seq![PatchView { start: node.start as int, end: node.end as int, bytes }],
                ),
            }
        } else if cell is None && place is None {
            Err(Error::MissingTagEnd)
        } else {
            match cell_markup(doc, text, cell, row, at, value@) {
                Err(error) => Err(error),
                Ok(bytes) => {
                    let patch = match cell {
                        Some(n) => PatchView {
                            start: doc.nodes@[n as int].start as int,
                            end: doc.nodes@[n as int].end as int,
                            bytes,
                        },
                        None => PatchView { start: place->0, end: place->0, bytes },
                    };
                    match row_patches(doc, text, row, entries, k + 1, number) {
                        Err(error) => Err(error),
                        Ok(rest) => Ok(seq![patch] + rest),
                    }
                },
            }
        }
    }
}

/// The patches are made, or refused, as the specification has it.
pub open spec fn are_patches(
    r: Result<Vec<Patch>, Error>,
    expected: Result<Seq<PatchView>, Error>,
    length: int,
) -> bool {
    match r {
        Ok(list) => expected == Ok::<Seq<PatchView>, Error>(crate::xml::patch_views(list@))
            && crate::xml::patches_within(crate::xml::patch_views(list@), length),
        Err(error) => expected == Err::<Seq<PatchView>, Error>(error),
    }
}

/// Patches so far, and one more.
pub proof fn one_more_patch(list: Seq<Patch>, patch: Patch, rest: Seq<PatchView>, length: int)
    requires
        crate::xml::patches_within(crate::xml::patch_views(list), length),
        patch.start <= patch.end <= length,
    ensures
        crate::xml::patch_views(list.push(patch)) == crate::xml::patch_views(list).push(patch@),
        crate::xml::patch_views(list.push(patch)) + rest == crate::xml::patch_views(list) + (seq![
            patch@,
        ] + rest),
        crate::xml::patches_within(crate::xml::patch_views(list.push(patch)), length),
{
    let now = crate::xml::patch_views(list.push(patch));
    let before = crate::xml::patch_views(list);
    assert(now =~= before.push(patch@));
    assert(now + rest =~= before + (seq![patch@] + rest));
    assert forall|i: int| 0 <= i < now.len() implies 0 <= (#[trigger] now[i]).start <= now[i].end
        <= length by {
        if i < before.len() {
            assert(now[i] == before[i]);
        }
    }
}

fn patch_row(
    doc: &Xml,
    text: &[u8],
    row: usize,
    entries: &Vec<(Address, String)>,
    first: usize,
    number: u64,
) -> (r: Result<Vec<Patch>, Error>)
    requires
        doc.wf(text@.len() as int),
        row < doc.nodes@.len(),
        first <= entries@.len(),
        rows_named(entries@),
    ensures
        are_patches(
            r,
            row_patches(*doc, text@, row as int, entries@, first as int, number),
            text@.len() as int,
        ),
{
    let end = doc.end(row);
    let (from, to): (usize, usize) = (doc.nodes[row].start, doc.nodes[row].end);
    let mut list: Vec<Patch> = Vec::new();
    let mut k: usize = first;
    let ghost whole = row_patches(*doc, text@, row as int, entries@, first as int, number);
    proof {
        assert(crate::xml::patch_views(list@) =~= Seq::empty());
        if let Ok(all) = whole {
            assert(crate::xml::patch_views(list@) + all =~= all);
        }
        assert(doc.nodes@[row as int].start <= doc.nodes@[row as int].end);
    }
    while k < entries.len() && entries[k].0.0 == number
        invariant
            doc.wf(text@.len() as int),
            row < end <= doc.nodes@.len(),
            end == crate::tree::end_of(doc.nodes@, row as int),
            from == doc.nodes@[row as int].start,
            to == doc.nodes@[row as int].end,
            from <= to <= text@.len(),
            first <= k <= entries@.len(),
            rows_named(entries@),
            crate::xml::patches_within(crate::xml::patch_views(list@), text@.len() as int),
            whole == row_patches(*doc, text@, row as int, entries@, first as int, number),
            match row_patches(*doc, text@, row as int, entries@, k as int, number) {
                Ok(rest) => whole == Ok::<Seq<PatchView>, Error>(
                    crate::xml::patch_views(list@) + rest,
                ),
                Err(error) => whole == Err::<Seq<PatchView>, Error>(error),
            },
        decreases entries@.len() - k,
    {
        let at = entries[k].0;
        assert(entries@[k as int].0.0 < u64::MAX);
        let cell = find_cell(doc, row, end, at);
        if cell.is_none() && empty_element(text, from, to) {
            // Empty row elements need to be expanded to insert a new cell.
            let body = match write_cells(doc, text, row, entries, k, number) {
                Ok(body) => body,
                Err(error) => {
                    return Err(error);
                },
            };
            let remove: Vec<(&str, &str)> = Vec::new();
            let extra: Vec<u8> = Vec::new();
            proof {
                assert(crate::tree::pair_views(remove@) =~= Seq::empty());
                assert(extra@ =~= Seq::empty());
            }
            let mut bytes = match doc.start_tag(text, row, &remove, &extra) {
                Ok(tag) => tag,
                Err(error) => {
                    return Err(error);
                },
            };
            push_bytes(&mut bytes, body.as_slice());
            let name = doc.qualified(row, "row");
            push_close(&mut bytes, &name);
            let patch = Patch { start: from, end: to, bytes };
            proof {
                one_more_patch(list@, patch, Seq::empty(), text@.len() as int);
                assert(seq![patch@] + Seq::<PatchView>::empty() =~= seq![patch@]);
                assert(crate::xml::patch_views(list@.push(patch)) + Seq::<PatchView>::empty()
                    =~= crate::xml::patch_views(list@.push(patch)));
            }
            list.push(patch);
            return Ok(list);
        }
        let (start, stop): (usize, usize) = match cell {
            Some(n) => {
                assert(doc.nodes@[n as int].start <= doc.nodes@[n as int].end);
                (doc.nodes[n].start, doc.nodes[n].end)
            },
            None => match find_place(doc, text, row, end, at) {
                Some(place) => (place, place),
                None => {
                    return Err(Error::MissingTagEnd);
                },
            },
        };
        let bytes = match xlsx_cell(doc, text, cell, row, at, entries[k].1.as_str()) {
            Ok(bytes) => bytes,
            Err(error) => {
                return Err(error);
            },
        };
        let patch = Patch { start, end: stop, bytes };
        proof {
            match row_patches(*doc, text@, row as int, entries@, k + 1, number) {
                Ok(rest) => {
                    one_more_patch(list@, patch, rest, text@.len() as int);
                },
                Err(_) => {
                    one_more_patch(list@, patch, Seq::empty(), text@.len() as int);
                },
            }
        }
        list.push(patch);
        k = k + 1;
    }
    proof {
        assert(crate::xml::patch_views(list@) + Seq::<PatchView>::empty()
            =~= crate::xml::patch_views(list@));
    }
    Ok(list)
}

/// The first entry of a row from entry `k` on; the number of entries where there is none.
pub open spec fn first_of_row(entries: Seq<(Address, String)>, row: u64, k: int) -> int
    decreases entries.len() - k,
{
    if k >= entries.len() {
        entries.len() as int
    } else if entries[k].0.0 == row {
        k
    } else {
        first_of_row(entries, row, k + 1)
    }
}

proof fn first_of_row_is(entries: Seq<(Address, String)>, row: u64, k: int, i: int)
    requires
        0 <= k <= i <= entries.len(),
        forall|l: int| k <= l < i ==> (#[trigger] entries[l]).0.0 != row,
        i == entries.len() || entries[i].0.0 == row,
    ensures
        first_of_row(entries, row, k) == i,
    decreases i - k,
{
    if k < i {
        assert(entries[k].0.0 != row);
        first_of_row_is(entries, row, k + 1, i);
    }
}

fn find_row(edits: &Cells, row: u64) -> (r: usize)
    requires
        edits.wf(),
    ensures
        r == first_of_row(edits.entries@, row, 0),
        r <= edits.entries@.len(),
{
    let i = edits.seek((row, 0));
    let ghost entries = edits.entries@;
    proof {
        assert forall|l: int| 0 <= l < i implies (#[trigger] entries[l]).0.0 != row by {
            assert(crate::cells::before(entries[l].0, (row, 0usize)));
        }
    }
    if i < edits.entries.len() && edits.entries[i].0.0 == row {
        proof {
            first_of_row_is(entries, row, 0, i as int);
        }
        i
    } else {
        proof {
            assert forall|l: int| 0 <= l < entries.len() implies (#[trigger] entries[l]).0.0
                != row by {
                if l >= i {
                    assert(!crate::cells::before(entries[l].0, (row, 0usize)));
                    assert(!crate::cells::before(entries[i as int].0, (row, 0usize)));
                    if l > i {
                        assert(crate::cells::before(entries[i as int].0, entries[l].0));
                    }
                }
            }
            first_of_row_is(entries, row, 0, entries.len() as int);
        }
        edits.entries.len()
    }
}

/// Node `j` is a row of the sheet data.
pub open spec fn is_row_of(doc: Xml, data: int, j: int) -> bool {
    crate::tree::is_child(doc.nodes@[j], data) && doc.nodes@[j].name@ == "row"@
}

/// What makes the edits of the row elements from node `j` on, and the rows then done: a row
/// element that repeats the number of a row that is done changes nothing.
pub open spec fn rows_patches(
    doc: Xml,
    text: Seq<u8>,
    entries: Seq<(Address, String)>,
    data: int,
    j: int,
    end: int,
    done: Seq<u64>,
) -> Result<(Seq<PatchView>, Seq<u64>), Error>
    decreases end - j,
{
    if j >= end {
        Ok((Seq::empty(), done))
    } else if !is_row_of(doc, data, j) {
        rows_patches(doc, text, entries, data, j + 1, end, done)
    } else {
        match row_number(doc, j) {
            Err(error) => Err(error),
            Ok(number) => {
                let k = first_of_row(entries, number, 0);
                if k >= entries.len() || done.contains(number) {
                    rows_patches(doc, text, entries, data, j + 1, end, done)
                } else {
                    match one_row(doc, text, j, entries, k, number) {
                        Err(error) => Err(error),
                        Ok(patches) => match rows_patches(
                            doc,
                            text,
                            entries,
                            data,
                            j + 1,
                            end,
                            done.push(number),
                        ) {
                            Err(error) => Err(error),
                            Ok((rest, all)) => Ok((patches + rest, all)),
                        },
                    }
                }
            },
        }
    }
}

/// What makes the edits of a row element whose cell addresses read.
pub open spec fn one_row(
    doc: Xml,
    text: Seq<u8>,
    row: int,
    entries: Seq<(Address, String)>,
    k: int,
    number: u64,
) -> Result<Seq<PatchView>, Error> {
    match cells_error(doc, row, row + 1, crate::tree::end_of(doc.nodes@, row)) {
        Some(error) => Err(error),
        None => row_patches(doc, text, row, entries, k, number),
    }
}

fn patch_one_row(
    doc: &Xml,
    text: &[u8],
    row: usize,
    entries: &Vec<(Address, String)>,
    first: usize,
    number: u64,
) -> (r: Result<Vec<Patch>, Error>)
    requires
        doc.wf(text@.len() as int),
        row < doc.nodes@.len(),
        first <= entries@.len(),
        rows_named(entries@),
    ensures
        are_patches(
            r,
            one_row(*doc, text@, row as int, entries@, first as int, number),
            text@.len() as int,
        ),
{
    let end = doc.end(row);
    match check_cells(doc, row, end) {
        Err(error) => Err(error),
        Ok(()) => patch_row(doc, text, row, entries, first, number),
    }
}

fn is_done(done: &Vec<u64>, number: u64) -> (r: bool)
    ensures
        r == done@.contains(number),
{
    let mut i: usize = 0;
    while i < done.len()
        invariant
            i <= done@.len(),
            forall|k: int| 0 <= k < i ==> #[trigger] done@[k] != number,
        decreases done@.len() - i,
    {
        if done[i] == number {
            assert(done@[i as int] == number);
            return true;
        }
        i = i + 1;
    }
    false
}

/// Append patches to others.
fn push_patches(list: &mut Vec<Patch>, more: Vec<Patch>, length: usize)
    requires
        crate::xml::patches_within(crate::xml::patch_views(old(list)@), length as int),
        crate::xml::patches_within(crate::xml::patch_views(more@), length as int),
    ensures
        crate::xml::patch_views(final(list)@) == crate::xml::patch_views(old(list)@)
            + crate::xml::patch_views(more@),
        crate::xml::patches_within(crate::xml::patch_views(final(list)@), length as int),
{
    let ghost before = crate::xml::patch_views(list@);
    let ghost added = crate::xml::patch_views(more@);
    let mut more = more;
    list.append(&mut more);
    proof {
        let now = crate::xml::patch_views(list@);
        assert(now =~= before + added);
        assert forall|i: int| 0 <= i < now.len() implies 0 <= (#[trigger] now[i]).start
            <= now[i].end <= length by {
            if i < before.len() {
                assert(now[i] == before[i]);
            } else {
                assert(now[i] == added[i - before.len()]);
            }
        }
    }
}

#[verifier::rlimit(60)]
#[verifier::spinoff_prover]
fn patch_rows(doc: &Xml, text: &[u8], edits: &Cells, data: usize) -> (r: Result<
    (Vec<Patch>, Vec<u64>),
    Error,
>)
    requires
        doc.wf(text@.len() as int),
        data < doc.nodes@.len(),
        edits.wf(),
        rows_named(edits.entries@),
    ensures
        match r {
            Ok((list, done)) => rows_patches(
                *doc,
                text@,
                edits.entries@,
                data as int,
                data + 1,
                crate::tree::end_of(doc.nodes@, data as int),
                Seq::empty(),
            ) == Ok::<(Seq<PatchView>, Seq<u64>), Error>(
                (crate::xml::patch_views(list@), done@),
            ) && crate::xml::patches_within(
                crate::xml::patch_views(list@),
                text@.len() as int,
            ),
            Err(error) => rows_patches(
                *doc,
                text@,
                edits.entries@,
                data as int,
                data + 1,
                crate::tree::end_of(doc.nodes@, data as int),
                Seq::empty(),
            ) == Err::<(Seq<PatchView>, Seq<u64>), Error>(error),
        },
{
    let end = doc.end(data);
    let size: usize = text.len();
    let mut list: Vec<Patch> = Vec::new();
    let mut done: Vec<u64> = Vec::new();
    let mut j: usize = data + 1;
    let ghost entries = edits.entries@;
    let ghost whole = rows_patches(
        *doc,
        text@,
        entries,
        data as int,
        data + 1,
        end as int,
        Seq::empty(),
    );
    proof {
        assert(crate::xml::patch_views(list@) =~= Seq::empty());
        assert(done@ =~= Seq::empty());
        if let Ok((all, _)) = whole {
            assert(crate::xml::patch_views(list@) + all =~= all);
        }
    }
    while j < end
        invariant
            doc.wf(text@.len() as int),
            size == text@.len(),
            data < j <= end <= doc.nodes@.len(),
            end == crate::tree::end_of(doc.nodes@, data as int),
            edits.wf(),
            entries == edits.entries@,
            rows_named(entries),
            crate::xml::patches_within(crate::xml::patch_views(list@), text@.len() as int),
            whole == rows_patches(
                *doc,
                text@,
                entries,
                data as int,
                data + 1,
                end as int,
                Seq::empty(),
            ),
            match rows_patches(
                *doc,
                text@,
                entries,
                data as int,
                j as int,
                end as int,
                done@,
            ) {
                Ok((rest, all)) => whole == Ok::<(Seq<PatchView>, Seq<u64>), Error>(
                    (crate::xml::patch_views(list@) + rest, all),
                ),
                Err(error) => whole == Err::<(Seq<PatchView>, Seq<u64>), Error>(error),
            },
        decreases end - j,
    {
        if doc.child_of(j, data) && doc.is_named(j, "row") {
            match read_row_number(doc, j) {
                Err(error) => {
                    return Err(error);
                },
                Ok(number) => {
                    let k = find_row(edits, number);
                    if k < edits.entries.len() && !is_done(&done, number) {
                        let ghost before = crate::xml::patch_views(list@);
                        let ghost was = done@;
                        match patch_one_row(doc, text, j, &edits.entries, k, number) {
                            Err(error) => {
                                return Err(error);
                            },
                            Ok(more) => {
                                let ghost added = crate::xml::patch_views(more@);
                                push_patches(&mut list, more, size);
                                done.push(number);
                                proof {
                                    assert(done@ =~= was.push(number));
                                    if let Ok((rest, _)) = rows_patches(
                                        *doc,
                                        text@,
                                        entries,
                                        data as int,
                                        j + 1,
                                        end as int,
                                        done@,
                                    ) {
                                        assert(before + (added + rest) =~= before + added + rest);
                                    }
                                }
                            },
                        }
                    }
                },
            }
        }
        j = j + 1;
    }
    proof {
        assert(crate::xml::patch_views(list@) + Seq::<PatchView>::empty()
            =~= crate::xml::patch_views(list@));
    }
    Ok((list, done))
}

/// Where the first row element, from node `j` on, past a row starts.
pub open spec fn row_past(doc: Xml, data: int, j: int, end: int, row: u64) -> Option<int>
    decreases end - j,
{
    if j >= end {
        None
    } else if is_row_of(doc, data, j) && (crate::tree::value(doc, j, "r"@) matches Some(value) && (
    crate::text::unsigned_of(value) matches Ok(n) && n > row + 1)) {
        Some(doc.nodes@[j].start as int)
    } else {
        row_past(doc, data, j + 1, end, row)
    }
}

/// Where a new row goes: before the first row past it, else at the end of the sheet data.
pub open spec fn row_place(doc: Xml, text: Seq<u8>, data: int, row: u64) -> Option<int> {
    match row_past(doc, data, data + 1, crate::tree::end_of(doc.nodes@, data), row) {
        Some(place) => Some(place),
        None => crate::tree::last_end_tag(
            text,
            doc.nodes@[data].start as int,
            doc.nodes@[data].end as int,
        ),
    }
}

fn is_past(doc: &Xml, j: usize, row: u64) -> (r: bool)
    requires
        j < doc.attributes@.len(),
        row < u64::MAX,
    ensures
        r == (crate::tree::value(*doc, j as int, "r"@) matches Some(value) && (
        crate::text::unsigned_of(value) matches Ok(n) && n > row + 1)),
{
    match doc.attribute(j, "r") {
        None => false,
        Some(a) => match parse_unsigned(a.value.as_str()) {
            Err(_) => false,
            Ok(n) => n > row + 1,
        },
    }
}

fn find_row_place(doc: &Xml, text: &[u8], data: usize, row: u64) -> (r: Option<usize>)
    requires
        doc.wf(text@.len() as int),
        data < doc.nodes@.len(),
        row < u64::MAX,
    ensures
        match r {
            Some(place) => row_place(*doc, text@, data as int, row) == Some(place as int) && place
                <= text@.len(),
            None => row_place(*doc, text@, data as int, row) is None,
        },
{
    let end = doc.end(data);
    let mut j: usize = data + 1;
    while j < end
        invariant
            doc.wf(text@.len() as int),
            row < u64::MAX,
            data < j <= end <= doc.nodes@.len(),
            end == crate::tree::end_of(doc.nodes@, data as int),
            row_past(*doc, data as int, data + 1, end as int, row) == row_past(
                *doc,
                data as int,
                j as int,
                end as int,
                row,
            ),
        decreases end - j,
    {
        if doc.child_of(j, data) && doc.is_named(j, "row") && is_past(doc, j, row) {
            assert(doc.nodes@[j as int].start <= doc.nodes@[j as int].end);
            return Some(doc.nodes[j].start);
        }
        j = j + 1;
    }
    assert(doc.nodes@[data as int].start <= doc.nodes@[data as int].end);
    find_end_tag(text, doc.nodes[data].start, doc.nodes[data].end)
}

/// A new row element with these cells.
pub open spec fn row_element(tag: Seq<u8>, row: u64, body: Seq<u8>) -> Seq<u8> {
    utf8("<"@) + tag + utf8(" r=\""@) + utf8(crate::text::decimal(row as nat + 1)) + utf8("\">"@)
        + body + close_tag(tag)
}

/// The first entry from entry `k` on that is not of this row.
pub open spec fn after_row(entries: Seq<(Address, String)>, row: u64, k: int) -> int
    decreases entries.len() - k,
{
    if k >= entries.len() || entries[k].0.0 != row {
        k
    } else {
        after_row(entries, row, k + 1)
    }
}

/// The entry after a row is no further than the end.
pub proof fn after_row_goes_on(entries: Seq<(Address, String)>, row: u64, k: int)
    requires
        k <= entries.len(),
    ensures
        k <= after_row(entries, row, k) <= entries.len(),
    decreases entries.len() - k,
{
    if k < entries.len() && entries[k].0.0 == row {
        after_row_goes_on(entries, row, k + 1);
    }
}

/// What adds the rows from entry `k` on that have no element.
pub open spec fn missing_patches(
    doc: Xml,
    text: Seq<u8>,
    entries: Seq<(Address, String)>,
    data: int,
    k: int,
    done: Seq<u64>,
) -> Result<Seq<PatchView>, Error>
    decreases entries.len() - k,
{
    if k >= entries.len() {
        Ok(Seq::empty())
    } else {
        let row = entries[k].0.0;
        let next = after_row(entries, row, k + 1);
        proof {
            after_row_goes_on(entries, row, k + 1);
        }
        let rest = missing_patches(doc, text, entries, data, next, done);
        if done.contains(row) {
            rest
        } else {
            match missing_row(doc, text, entries, data, k, row) {
                Err(error) => Err(error),
                Ok(patch) => match rest {
                    Err(error) => Err(error),
                    Ok(patches) => Ok(seq![patch] + patches),
                },
            }
        }
    }
}

/// What adds the row of entry `k`.
pub open spec fn missing_row(
    doc: Xml,
    text: Seq<u8>,
    entries: Seq<(Address, String)>,
    data: int,
    k: int,
    row: u64,
) -> Result<PatchView, Error> {
    match new_cells(doc, text, data, entries, k, row) {
        Err(error) => Err(error),
        Ok(body) => match row_place(doc, text, data, row) {
            None => Err(Error::MissingTagEnd),
            Some(place) => Ok(
                PatchView {
                    start: place,
                    end: place,
                    bytes: row_element(doc.qualified_of(data, "row"@), row, body),
                },
            ),
        },
    }
}

fn add_row(
    doc: &Xml,
    text: &[u8],
    entries: &Vec<(Address, String)>,
    data: usize,
    k: usize,
    row: u64,
) -> (r: Result<Patch, Error>)
    requires
        doc.wf(text@.len() as int),
        data < doc.nodes@.len(),
        k <= entries@.len(),
        rows_named(entries@),
        row < u64::MAX,
    ensures
        match r {
            Ok(patch) => missing_row(*doc, text@, entries@, data as int, k as int, row) == Ok::<
                PatchView,
                Error,
            >(patch@) && patch.start <= patch.end <= text@.len(),
            Err(error) => missing_row(*doc, text@, entries@, data as int, k as int, row) == Err::<
                PatchView,
                Error,
            >(error),
        },
{
    let body = match write_cells(doc, text, data, entries, k, row) {
        Ok(body) => body,
        Err(error) => {
            return Err(error);
        },
    };
    let place = match find_row_place(doc, text, data, row) {
        Some(place) => place,
        None => {
            return Err(Error::MissingTagEnd);
        },
    };
    let tag = doc.qualified(data, "row");
    let mut bytes: Vec<u8> = Vec::new();
    push_text(&mut bytes, "<");
    push_bytes(&mut bytes, tag.as_slice());
    push_text(&mut bytes, " r=\"");
    push_text(&mut bytes, decimal_text(row + 1).as_str());
    push_text(&mut bytes, "\">");
    push_bytes(&mut bytes, body.as_slice());
    push_close(&mut bytes, &tag);
    assert(bytes@ =~= row_element(tag@, row, body@));
    Ok(Patch { start: place, end: place, bytes })
}

/// The first entry from entry `k` on that is not of this row.
pub fn next_row(entries: &Vec<(Address, String)>, row: u64, k: usize) -> (r: usize)
    requires
        k <= entries@.len(),
    ensures
        r == after_row(entries@, row, k as int),
        k <= r <= entries@.len(),
{
    let mut i: usize = k;
    while i < entries.len() && entries[i].0.0 == row
        invariant
            k <= i <= entries@.len(),
            after_row(entries@, row, k as int) == after_row(entries@, row, i as int),
        decreases entries@.len() - i,
    {
        i = i + 1;
    }
    i
}

fn add_rows(
    doc: &Xml,
    text: &[u8],
    entries: &Vec<(Address, String)>,
    data: usize,
    done: &Vec<u64>,
) -> (r: Result<Vec<Patch>, Error>)
    requires
        doc.wf(text@.len() as int),
        data < doc.nodes@.len(),
        rows_named(entries@),
    ensures
        are_patches(
            r,
            missing_patches(*doc, text@, entries@, data as int, 0, done@),
            text@.len() as int,
        ),
{
    let mut list: Vec<Patch> = Vec::new();
    let mut k: usize = 0;
    let ghost whole = missing_patches(*doc, text@, entries@, data as int, 0, done@);
    proof {
        assert(crate::xml::patch_views(list@) =~= Seq::empty());
        if let Ok(all) = whole {
            assert(crate::xml::patch_views(list@) + all =~= all);
        }
    }
    while k < entries.len()
        invariant
            doc.wf(text@.len() as int),
            data < doc.nodes@.len(),
            rows_named(entries@),
            k <= entries@.len(),
            crate::xml::patches_within(crate::xml::patch_views(list@), text@.len() as int),
            whole == missing_patches(*doc, text@, entries@, data as int, 0, done@),
            match missing_patches(*doc, text@, entries@, data as int, k as int, done@) {
                Ok(rest) => whole == Ok::<Seq<PatchView>, Error>(
                    crate::xml::patch_views(list@) + rest,
                ),
                Err(error) => whole == Err::<Seq<PatchView>, Error>(error),
            },
        decreases entries@.len() - k,
    {
        let row = entries[k].0.0;
        assert(entries@[k as int].0.0 < u64::MAX);
        let next = next_row(entries, row, k + 1);
        if !is_done(done, row) {
            match add_row(doc, text, entries, data, k, row) {
                Err(error) => {
                    return Err(error);
                },
                Ok(patch) => {
                    proof {
                        match missing_patches(
                            *doc,
                            text@,
                            entries@,
                            data as int,
                            next as int,
                            done@,
                        ) {
                            Ok(rest) => {
                                one_more_patch(list@, patch, rest, text@.len() as int);
                            },
                            Err(_) => {
                                one_more_patch(list@, patch, Seq::empty(), text@.len() as int);
                            },
                        }
                    }
                    list.push(patch);
                },
            }
        }
        k = next;
    }
    proof {
        assert(crate::xml::patch_views(list@) + Seq::<PatchView>::empty()
            =~= crate::xml::patch_views(list@));
    }
    Ok(list)
}

/// The last corner of a sheet that also reaches the first `n` entries.
pub open spec fn reached(entries: Seq<(Address, String)>, last: Address, n: int) -> Address
    decreases n,
{
    if n <= 0 {
        last
    } else {
        let at = entries[n - 1].0;
        let corner = reached(entries, last, n - 1);
        (
            if at.0 > corner.0 {
                at.0
            } else {
                corner.0
            },
            if at.1 > corner.1 {
                at.1
            } else {
                corner.1
            },
        )
    }
}

/// What makes the stated dimension of a sheet reach every edit.
pub open spec fn dimension_patches(doc: Xml, entries: Seq<(Address, String)>) -> Result<
    Seq<PatchView>,
    Error,
> {
    let node = first_named(doc, "dimension"@, 0);
    if node >= doc.nodes@.len() {
        Ok(Seq::empty())
    } else {
        match crate::tree::local_attribute(doc.attributes@[node]@, "ref"@) {
            None => Ok(Seq::empty()),
            Some(reference) => match crate::workbook::cell_range_of(reference.value@) {
                Err(error) => Err(error),
                Ok((first, last)) => {
                    let corner = reached(entries, last, entries.len() as int);
                    if corner == last {
                        Ok(Seq::empty())
                    } else {
                        Ok(
                            seq![
                                PatchView {
                                    start: reference.start as int,
                                    end: reference.end as int,
                                    bytes: utf8("ref=\""@) + utf8(
                                        (Range { first, last: corner }).name(),
                                    ) + utf8("\""@),
                                },
                            ],
                        )
                    }
                },
            },
        }
    }
}

fn patch_dimension(doc: &Xml, entries: &Vec<(Address, String)>, length: usize) -> (r: Result<
    Vec<Patch>,
    Error,
>)
    requires
        doc.wf(length as int),
        rows_named(entries@),
    ensures
        are_patches(r, dimension_patches(*doc, entries@), length as int),
{
    let mut list: Vec<Patch> = Vec::new();
    assert(crate::xml::patch_views(list@) =~= Seq::empty());
    let node = find_named(doc, "dimension");
    if node >= doc.nodes.len() {
        return Ok(list);
    }
    let reference = match doc.attribute(node, "ref") {
        Some(reference) => reference,
        None => {
            return Ok(list);
        },
    };
    let (first, last) = match cell_range(reference.value.as_str()) {
        Ok(range) => range,
        Err(error) => {
            return Err(error);
        },
    };
    let mut corner: Address = last;
    let mut k: usize = 0;
    while k < entries.len()
        invariant
            k <= entries@.len(),
            rows_named(entries@),
            last.0 < u64::MAX,
            corner.0 < u64::MAX,
            corner == reached(entries@, last, k as int),
        decreases entries@.len() - k,
    {
        let at = entries[k].0;
        assert(entries@[k as int].0.0 < u64::MAX);
        let row: u64 = if at.0 > corner.0 {
            at.0
        } else {
            corner.0
        };
        let col: usize = if at.1 > corner.1 {
            at.1
        } else {
            corner.1
        };
        corner = (row, col);
        k = k + 1;
    }
    if corner.0 != last.0 || corner.1 != last.1 {
        let range = Range { first, last: corner };
        let mut bytes: Vec<u8> = Vec::new();
        push_text(&mut bytes, "ref=\"");
        push_text(&mut bytes, range.to_string().as_str());
        push_text(&mut bytes, "\"");
        let patch = Patch { start: reference.start, end: reference.end, bytes };
        proof {
            assert(bytes@ =~= utf8("ref=\""@) + utf8(range.name()) + utf8("\""@));
            one_more_patch(list@, patch, Seq::empty(), length as int);
            assert(crate::xml::patch_views(list@.push(patch)) =~= seq![patch@]);
        }
        list.push(patch);
    }
    Ok(list)
}

/// Every patch that the edits of a sheet ask for.
pub open spec fn xlsx_patches(doc: Xml, text: Seq<u8>, entries: Seq<(Address, String)>) -> Result<
    Seq<PatchView>,
    Error,
> {
    let data = first_named(doc, "sheetData"@, 0);
    if data >= doc.nodes@.len() {
        Err(Error::MissingSheetData)
    } else {
        match dimension_patches(doc, entries) {
            Err(error) => Err(error),
            Ok(dimension) => match rows_patches(
                doc,
                text,
                entries,
                data,
                data + 1,
                crate::tree::end_of(doc.nodes@, data),
                Seq::empty(),
            ) {
                Err(error) => Err(error),
                Ok((rows, done)) => match missing_patches(doc, text, entries, data, 0, done) {
                    Err(error) => Err(error),
                    Ok(missing) => Ok(dimension + rows + missing),
                },
            },
        }
    }
}

/// A sheet part with its edits made.
pub open spec fn patched_xlsx(doc: Xml, text: Seq<u8>, entries: Seq<(Address, String)>) -> Result<
    Seq<u8>,
    Error,
> {
    match xlsx_patches(doc, text, entries) {
        Err(error) => Err(error),
        Ok(patches) => crate::xml::spliced(text, patches),
    }
}

/// A sheet part with the edits made and every other byte kept.
pub fn patch_xlsx(doc: &Xml, text: &[u8], edits: &Cells) -> (r: Result<Vec<u8>, Error>)
    requires
        doc.wf(text@.len() as int),
        edits.wf(),
        rows_named(edits.entries@),
    ensures
        match r {
            Ok(bytes) => patched_xlsx(*doc, text@, edits.entries@) == Ok::<Seq<u8>, Error>(bytes@),
            Err(error) => patched_xlsx(*doc, text@, edits.entries@) == Err::<Seq<u8>, Error>(
                error,
            ),
        },
{
    let size: usize = text.len();
    let data = find_named(doc, "sheetData");
    if data >= doc.nodes.len() {
        return Err(Error::MissingSheetData);
    }
    let mut changes = match patch_dimension(doc, &edits.entries, size) {
        Ok(list) => list,
        Err(error) => {
            return Err(error);
        },
    };
    let (rows, done) = match patch_rows(doc, text, edits, data) {
        Ok(found) => found,
        Err(error) => {
            return Err(error);
        },
    };
    push_patches(&mut changes, rows, size);
    let missing = match add_rows(doc, text, &edits.entries, data, &done) {
        Ok(list) => list,
        Err(error) => {
            return Err(error);
        },
    };
    push_patches(&mut changes, missing, size);
    splice(text, changes)
}

} // verus!
