//! Patching the cells of an ODS sheet.
use crate::a1::Address;
use crate::cells::Cells;
use crate::error::Error;
use crate::ods::{is_cell_of, row_cell};
use crate::package::{OFFICE, TABLE, TEXT};
use crate::scan::{find_next_col, find_next_row, find_table, next_col, next_row, table_named};
use crate::text::{chars, decimal_text, split};
use crate::tree::{empty_element, find_close, find_end_tag, is_child, is_tag, is_text, value_in};
use crate::xlsx::{
    after_row, close_tag, escaped_char, one_more_patch, push_close, push_escaped,
};
use crate::xml::{
    patch_views, patches_within, push_bytes, push_text, splice, utf8, Patch, PatchView, Xml,
};
use vstd::prelude::*;
use vstd::slice::slice_subrange;

verus! {

/// A character as an attribute value that keeps line feeds and tabs.
pub open spec fn attribute_char(c: char) -> Seq<char> {
    if c == '\n' {
        "&#10;"@
    } else if c == '\t' {
        "&#9;"@
    } else {
        escaped_char(c)
    }
}

/// A text as an attribute value that keeps line feeds and tabs.
pub open spec fn attribute_text(s: Seq<char>) -> Seq<char>
    decreases s.len(),
{
    if s.len() == 0 {
        Seq::empty()
    } else {
        attribute_text(s.drop_last()) + attribute_char(s.last())
    }
}

/// A character of a paragraph.
pub open spec fn paragraph_char(c: char) -> Seq<char> {
    if c == ' ' {
        "<text:s/>"@
    } else if c == '\t' {
        "<text:tab/>"@
    } else {
        escaped_char(c)
    }
}

/// The content of a paragraph.
pub open spec fn paragraph_text(s: Seq<char>) -> Seq<char>
    decreases s.len(),
{
    if s.len() == 0 {
        Seq::empty()
    } else {
        paragraph_text(s.drop_last()) + paragraph_char(s.last())
    }
}

/// A paragraph for each of the first `n` lines.
pub open spec fn paragraphs_of(lines: Seq<Seq<char>>, n: int) -> Seq<char>
    decreases n,
{
    if n <= 0 {
        Seq::empty()
    } else {
        paragraphs_of(lines, n - 1) + "<text:p xmlns:text=\""@ + TEXT@ + "\">"@ + paragraph_text(
            lines[n - 1],
        ) + "</text:p>"@
    }
}

/// The paragraphs of a text, one for each line.
pub open spec fn value_paragraphs(value: Seq<char>) -> Seq<char> {
    let lines = crate::text::parts(value, '\n');
    paragraphs_of(lines, lines.len() as int)
}

fn push_attribute(out: &mut String, value: &str)
    ensures
        final(out)@ == old(out)@ + attribute_text(value@),
{
    let ghost before = out@;
    let all = chars(value);
    let mut i: usize = 0;
    assert(all@.take(0) =~= Seq::empty());
    assert(before + attribute_text(all@.take(0)) =~= before);
    while i < all.len()
        invariant
            i <= all@.len(),
            out@ == before + attribute_text(all@.take(i as int)),
        decreases all@.len() - i,
    {
        let ghost now = out@;
        assert(all@.take(i + 1).drop_last() =~= all@.take(i as int));
        let c = all[i];
        if c == '\n' {
            out.append("&#10;");
        } else if c == '\t' {
            out.append("&#9;");
        } else {
            push_escaped(out, c);
        }
        i = i + 1;
        assert(out@ =~= now + attribute_char(c));
        assert(out@ =~= before + attribute_text(all@.take(i as int)));
    }
    assert(all@.take(all@.len() as int) =~= all@);
}

fn push_paragraph(out: &mut String, line: &str)
    ensures
        final(out)@ == old(out)@ + paragraph_text(line@),
{
    let ghost before = out@;
    let all = chars(line);
    let mut i: usize = 0;
    assert(all@.take(0) =~= Seq::empty());
    assert(before + paragraph_text(all@.take(0)) =~= before);
    while i < all.len()
        invariant
            i <= all@.len(),
            out@ == before + paragraph_text(all@.take(i as int)),
        decreases all@.len() - i,
    {
        let ghost now = out@;
        assert(all@.take(i + 1).drop_last() =~= all@.take(i as int));
        let c = all[i];
        if c == ' ' {
            out.append("<text:s/>");
        } else if c == '\t' {
            out.append("<text:tab/>");
        } else {
            push_escaped(out, c);
        }
        i = i + 1;
        assert(out@ =~= now + paragraph_char(c));
        assert(out@ =~= before + paragraph_text(all@.take(i as int)));
    }
    assert(all@.take(all@.len() as int) =~= all@);
}

fn write_paragraphs(value: &str) -> (r: String)
    ensures
        r@ == value_paragraphs(value@),
{
    let lines = split(value, '\n');
    let ghost all = crate::text::parts(value@, '\n');
    let mut out = String::new();
    let mut i: usize = 0;
    while i < lines.len()
        invariant
            all == crate::text::views(lines@),
            i <= lines@.len(),
            out@ == paragraphs_of(all, i as int),
        decreases lines@.len() - i,
    {
        out.append("<text:p xmlns:text=\"");
        out.append(TEXT);
        out.append("\">");
        push_paragraph(&mut out, lines[i].as_str());
        out.append("</text:p>");
        assert(all[i as int] == lines@[i as int]@);
        i = i + 1;
    }
    out
}

/// The attributes that make a cell a string cell with this value, with the namespace where
/// it has to be declared.
pub open spec fn string_attributes(value: Seq<char>, declared: bool) -> Seq<char> {
    (if declared {
        Seq::empty()
    } else {
        " xmlns:office=\""@ + OFFICE@ + "\""@
    }) + " office:value-type=\"string\" office:string-value=\""@ + attribute_text(value) + "\""@
}

fn write_attributes(value: &str, declared: bool) -> (r: String)
    ensures
        r@ == string_attributes(value@, declared),
{
    let mut out = String::new();
    if !declared {
        out.append(" xmlns:office=\"");
        out.append(OFFICE);
        out.append("\"");
    }
    let ghost namespace = out@;
    assert(namespace =~= if declared {
        Seq::empty()
    } else {
        " xmlns:office=\""@ + OFFICE@ + "\""@
    });
    out.append(" office:value-type=\"string\" office:string-value=\"");
    push_attribute(&mut out, value);
    out.append("\"");
    out
}

/// The attributes that hold a value, and the repetition.
pub open spec fn value_attributes() -> Seq<(Seq<char>, Seq<char>)> {
    seq![
        (OFFICE@, "value-type"@),
        (OFFICE@, "value"@),
        (OFFICE@, "string-value"@),
        (OFFICE@, "boolean-value"@),
        (OFFICE@, "date-value"@),
        (OFFICE@, "time-value"@),
        (OFFICE@, "currency"@),
        (TABLE@, "number-columns-repeated"@),
        (
            "urn:org:documentfoundation:names:experimental:calc:xmlns:calcext:1.0"@,
            "value-type"@,
        ),
    ]
}

/// A formula or merged cell.
pub open spec fn is_fixed(doc: Xml, i: int) -> bool {
    ||| is_tag(doc.nodes@[i], TABLE@, "covered-table-cell"@)
    ||| value_in(doc, i, TABLE@, "number-columns-spanned"@) is Some
    ||| value_in(doc, i, TABLE@, "number-rows-spanned"@) is Some
    ||| value_in(doc, i, TABLE@, "formula"@) is Some
}

/// The element children of a cell from node `j` on that are no paragraphs, as they are.
pub open spec fn other_children(doc: Xml, text: Seq<u8>, i: int, j: int, end: int) -> Seq<u8>
    decreases end - j,
{
    if j >= end {
        Seq::empty()
    } else {
        let node = doc.nodes@[j];
        let rest = other_children(doc, text, i, j + 1, end);
        if is_child(node, i) && node.element && !is_tag(node, TEXT@, "p"@) {
            text.subrange(node.start as int, node.end as int) + rest
        } else {
            rest
        }
    }
}

/// A cell with a new text. Other children stay. `scopes` is what the prefix `office` stands
/// for at each node.
pub open spec fn cell_markup(
    doc: Xml,
    text: Seq<u8>,
    scopes: Seq<Option<String>>,
    i: int,
    value: Seq<char>,
) -> Result<Seq<u8>, Error> {
    let declared = crate::sheet::text_view(scopes[i]) == Some(OFFICE@);
    if is_fixed(doc, i) {
        Err(Error::OdsReadOnly)
    } else {
        match doc.tag_of(
            text,
            i,
            value_attributes(),
            utf8(string_attributes(value, declared)),
        ) {
            Err(error) => Err(error),
            Ok(start) => Ok(
                start + utf8(value_paragraphs(value)) + other_children(
                    doc,
                    text,
                    i,
                    i + 1,
                    crate::tree::end_of(doc.nodes@, i),
                ) + close_tag(doc.qualified_of(i, "table-cell"@)),
            ),
        }
    }
}

fn keep_children(doc: &Xml, text: &[u8], i: usize) -> (r: Vec<u8>)
    requires
        i < doc.nodes@.len(),
        doc.wf(text@.len() as int),
    ensures
        r@ == other_children(
            *doc,
            text@,
            i as int,
            i + 1,
            crate::tree::end_of(doc.nodes@, i as int),
        ),
{
    let end = doc.end(i);
    let mut out: Vec<u8> = Vec::new();
    let mut j: usize = i + 1;
    let ghost whole = other_children(*doc, text@, i as int, i + 1, end as int);
    assert(out@ + whole =~= whole);
    while j < end
        invariant
            i < j <= end <= doc.nodes@.len(),
            doc.wf(text@.len() as int),
            out@ + other_children(*doc, text@, i as int, j as int, end as int) == whole,
        decreases end - j,
    {
        let ghost before = out@;
        let ghost rest = other_children(*doc, text@, i as int, j + 1, end as int);
        assert(doc.nodes@[j as int].start <= doc.nodes@[j as int].end);
        if doc.child_of(j, i) && doc.nodes[j].element && !doc.has_tag(j, TEXT, "p") {
            push_bytes(&mut out, slice_subrange(text, doc.nodes[j].start, doc.nodes[j].end));
            assert(out@ + rest =~= before + (text@.subrange(
                doc.nodes@[j as int].start as int,
                doc.nodes@[j as int].end as int,
            ) + rest));
        }
        j = j + 1;
    }
    assert(out@ + Seq::<u8>::empty() =~= out@);
    out
}

fn fixed(doc: &Xml, i: usize) -> (r: bool)
    requires
        doc.attributes@.len() == doc.nodes@.len(),
        i < doc.nodes@.len(),
    ensures
        r == is_fixed(*doc, i as int),
{
    doc.has_tag(i, TABLE, "covered-table-cell") || doc.attribute_in(
        i,
        TABLE,
        "number-columns-spanned",
    ).is_some() || doc.attribute_in(i, TABLE, "number-rows-spanned").is_some() || doc.attribute_in(
        i,
        TABLE,
        "formula",
    ).is_some()
}

/// A cell with a new text.
pub fn ods_cell(
    doc: &Xml,
    text: &[u8],
    scopes: &Vec<Option<String>>,
    i: usize,
    value: &str,
) -> (r: Result<Vec<u8>, Error>)
    requires
        doc.wf(text@.len() as int),
        scopes@.len() == doc.nodes@.len(),
        i < doc.nodes@.len(),
    ensures
        match r {
            Ok(cell) => cell_markup(*doc, text@, scopes@, i as int, value@) == Ok::<Seq<u8>, Error>(
                cell@,
            ),
            Err(error) => cell_markup(*doc, text@, scopes@, i as int, value@) == Err::<
                Seq<u8>,
                Error,
            >(error),
        },
{
    if fixed(doc, i) {
        return Err(Error::OdsReadOnly);
    }
    // A local namespace declaration avoids depending on a particular input prefix.
    let declared = is_text(&scopes[i], OFFICE);
    let mut extra: Vec<u8> = Vec::new();
    push_text(&mut extra, write_attributes(value, declared).as_str());
    let mut remove: Vec<(&str, &str)> = Vec::new();
    remove.push((OFFICE, "value-type"));
    remove.push((OFFICE, "value"));
    remove.push((OFFICE, "string-value"));
    remove.push((OFFICE, "boolean-value"));
    remove.push((OFFICE, "date-value"));
    remove.push((OFFICE, "time-value"));
    remove.push((OFFICE, "currency"));
    remove.push((TABLE, "number-columns-repeated"));
    remove.push(
        ("urn:org:documentfoundation:names:experimental:calc:xmlns:calcext:1.0", "value-type"),
    );
    proof {
        assert(extra@ =~= utf8(string_attributes(value@, declared)));
        assert(crate::tree::pair_views(remove@) =~= value_attributes());
    }
    match doc.start_tag(text, i, &remove, &extra) {
        Err(error) => Err(error),
        Ok(start) => {
            let mut out = start;
            push_text(&mut out, write_paragraphs(value).as_str());
            push_bytes(&mut out, keep_children(doc, text, i).as_slice());
            let name = doc.qualified(i, "table-cell");
            push_close(&mut out, &name);
            Ok(out)
        },
    }
}

/// The markup between the start and the end tag of an element.
pub open spec fn inner_markup(doc: Xml, text: Seq<u8>, i: int) -> Result<Seq<u8>, Error> {
    let node = doc.nodes@[i];
    if crate::tree::is_empty_element(text, node.start as int, node.end as int) {
        Ok(Seq::empty())
    } else {
        let from = crate::tree::tag_close(text, doc.attributes_end(i)) + 1;
        match crate::tree::last_end_tag(text, node.start as int, node.end as int) {
            None => Err(Error::MissingTagEnd),
            Some(to) => if from <= to {
                Ok(text.subrange(from, to))
            } else {
                Err(Error::MissingTagEnd)
            },
        }
    }
}

fn read_inner(doc: &Xml, text: &[u8], i: usize) -> (r: Result<Vec<u8>, Error>)
    requires
        doc.wf(text@.len() as int),
        i < doc.nodes@.len(),
    ensures
        match r {
            Ok(body) => inner_markup(*doc, text@, i as int) == Ok::<Seq<u8>, Error>(body@),
            Err(error) => inner_markup(*doc, text@, i as int) == Err::<Seq<u8>, Error>(error),
        },
{
    let (start, end): (usize, usize) = (doc.nodes[i].start, doc.nodes[i].end);
    let size: usize = text.len();
    assert(doc.nodes@[i as int].start <= doc.nodes@[i as int].end);
    let mut body: Vec<u8> = Vec::new();
    if empty_element(text, start, end) {
        assert(body@ =~= Seq::empty());
        return Ok(body);
    }
    let list = &doc.attributes[i];
    let last: usize = if list.len() > 0 {
        let k: usize = list.len() - 1;
        assert(doc.attributes@[i as int]@[k as int].end <= text@.len());
        list[k].end
    } else {
        start
    };
    let close = find_close(text, last);
    match find_end_tag(text, start, end) {
        None => Err(Error::MissingTagEnd),
        Some(to) => if close < to {
            push_bytes(&mut body, slice_subrange(text, close + 1, to));
            assert(body@ =~= text@.subrange(close + 1, to as int));
            Ok(body)
        } else {
            Err(Error::MissingTagEnd)
        },
    }
}

/// The start tag of an element of the table namespace that repeats so often.
pub open spec fn repeated_tag(
    doc: Xml,
    text: Seq<u8>,
    i: int,
    attribute: Seq<char>,
    count: int,
) -> Result<Seq<u8>, Error> {
    match doc.prefixes@[i] {
        None => Err(Error::OdsPrefix),
        Some(prefix) => doc.tag_of(
            text,
            i,
            seq![(TABLE@, attribute)],
            if count == 1 {
                Seq::empty()
            } else {
                utf8(
                    " "@ + prefix@ + ":"@ + attribute + "=\""@ + crate::text::decimal(count as nat)
                        + "\""@,
                )
            },
        ),
    }
}

/// An element of the table namespace that repeats so often, with this content or its own;
/// nothing where it does not occur at all.
pub open spec fn repeated_markup(
    doc: Xml,
    text: Seq<u8>,
    i: int,
    attribute: Seq<char>,
    count: int,
    body: Option<Seq<u8>>,
) -> Result<Seq<u8>, Error> {
    if count <= 0 {
        Ok(Seq::empty())
    } else {
        match repeated_tag(doc, text, i, attribute, count) {
            Err(error) => Err(error),
            Ok(start) => {
                let content = match body {
                    Some(bytes) => Ok(bytes),
                    None => inner_markup(doc, text, i),
                };
                match content {
                    Err(error) => Err(error),
                    Ok(bytes) => Ok(
                        start + bytes + close_tag(doc.qualified_of(i, doc.nodes@[i].name@)),
                    ),
                }
            },
        }
    }
}

/// What an optional content shows.
pub open spec fn body_view(body: Option<Vec<u8>>) -> Option<Seq<u8>> {
    match body {
        Some(bytes) => Some(bytes@),
        None => None,
    }
}

/// An element of the table namespace that repeats so often.
pub fn repeated(
    doc: &Xml,
    text: &[u8],
    i: usize,
    attribute: &str,
    count: u64,
    body: Option<Vec<u8>>,
) -> (r: Result<Vec<u8>, Error>)
    requires
        doc.wf(text@.len() as int),
        i < doc.nodes@.len(),
    ensures
        match r {
            Ok(bytes) => repeated_markup(
                *doc,
                text@,
                i as int,
                attribute@,
                count as int,
                body_view(body),
            ) == Ok::<Seq<u8>, Error>(bytes@),
            Err(error) => repeated_markup(
                *doc,
                text@,
                i as int,
                attribute@,
                count as int,
                body_view(body),
            ) == Err::<Seq<u8>, Error>(error),
        },
{
    if count == 0 {
        let none: Vec<u8> = Vec::new();
        assert(none@ =~= Seq::empty());
        return Ok(none);
    }
    let prefix = match &doc.prefixes[i] {
        Some(prefix) => prefix.as_str(),
        None => {
            return Err(Error::OdsPrefix);
        },
    };
    let mut extra: Vec<u8> = Vec::new();
    if count != 1 {
        let mut name = " ".to_owned();
        name.append(prefix);
        name.append(":");
        name.append(attribute);
        name.append("=\"");
        name.append(decimal_text(count).as_str());
        name.append("\"");
        push_text(&mut extra, name.as_str());
        assert(extra@ =~= utf8(name@));
    }
    let mut remove: Vec<(&str, &str)> = Vec::new();
    remove.push((TABLE, attribute));
    proof {
        assert(crate::tree::pair_views(remove@) =~= seq![(TABLE@, attribute@)]);
        if count == 1 {
            assert(extra@ =~= Seq::empty());
        }
    }
    let start = match doc.start_tag(text, i, &remove, &extra) {
        Ok(start) => start,
        Err(error) => {
            return Err(error);
        },
    };
    let content = match body {
        Some(bytes) => bytes,
        None => match read_inner(doc, text, i) {
            Ok(bytes) => bytes,
            Err(error) => {
                return Err(error);
            },
        },
    };
    let mut out = start;
    push_bytes(&mut out, content.as_slice());
    let name = doc.qualified(i, doc.nodes[i].name.as_str());
    push_close(&mut out, &name);
    Ok(out)
}

/// How far `to` is past `from`.
pub open spec fn distance(from: int, to: int) -> int {
    if to > from {
        to - from
    } else {
        0
    }
}

/// Every entry is of a row and a column before the last ones.
pub open spec fn cells_named(entries: Seq<(Address, String)>) -> bool {
    forall|k: int|
        0 <= k < entries.len() ==> (#[trigger] entries[k]).0.0 < u64::MAX && entries[k].0.1
            < usize::MAX
}

/// Entry `k` is of this row and of a column before `to`.
pub open spec fn is_before_col(
    entries: Seq<(Address, String)>,
    k: int,
    row: u64,
    to: usize,
) -> bool {
    k < entries.len() && entries[k].0.0 == row && entries[k].0.1 < to
}

/// The first entry from entry `k` on that is not of this row or not of a column before
/// `to`.
pub open spec fn after_cols(entries: Seq<(Address, String)>, k: int, row: u64, to: usize) -> int
    decreases entries.len() - k,
{
    if is_before_col(entries, k, row, to) {
        after_cols(entries, k + 1, row, to)
    } else {
        k
    }
}

/// The cells that take the place of cell `j`, which reaches from column `cursor` up to
/// column `to`: the edited ones from entry `k` on, and the repetitions between them.
pub open spec fn split_cell(
    doc: Xml,
    text: Seq<u8>,
    scopes: Seq<Option<String>>,
    j: int,
    entries: Seq<(Address, String)>,
    k: int,
    row: u64,
    cursor: usize,
    to: usize,
) -> Result<Seq<u8>, Error>
    decreases entries.len() - k,
{
    let name = "number-columns-repeated"@;
    if !is_before_col(entries, k, row, to) {
        repeated_markup(doc, text, j, name, distance(cursor as int, to as int), None)
    } else {
        let col = entries[k].0.1;
        match repeated_markup(doc, text, j, name, distance(cursor as int, col as int), None) {
            Err(error) => Err(error),
            Ok(gap) => match cell_markup(doc, text, scopes, j, entries[k].1@) {
                Err(error) => Err(error),
                Ok(cell) => match split_cell(
                    doc,
                    text,
                    scopes,
                    j,
                    entries,
                    k + 1,
                    row,
                    (col + 1) as usize,
                    to,
                ) {
                    Err(error) => Err(error),
                    Ok(rest) => Ok(gap + cell + rest),
                },
            },
        }
    }
}

fn write_split(
    doc: &Xml,
    text: &[u8],
    scopes: &Vec<Option<String>>,
    j: usize,
    entries: &Vec<(Address, String)>,
    first: usize,
    row: u64,
    from: usize,
    to: usize,
) -> (r: Result<(Vec<u8>, usize), Error>)
    requires
        doc.wf(text@.len() as int),
        scopes@.len() == doc.nodes@.len(),
        j < doc.nodes@.len(),
        first <= entries@.len(),
        cells_named(entries@),
    ensures
        ({
            let expected = split_cell(
                *doc,
                text@,
                scopes@,
                j as int,
                entries@,
                first as int,
                row,
                from,
                to,
            );
            match r {
                Ok((bytes, k)) => expected == Ok::<Seq<u8>, Error>(bytes@) && k == after_cols(
                    entries@,
                    first as int,
                    row,
                    to,
                ) && first <= k <= entries@.len(),
                Err(error) => expected == Err::<Seq<u8>, Error>(error),
            }
        }),
{
    let mut out: Vec<u8> = Vec::new();
    let mut cursor: usize = from;
    let mut k: usize = first;
    let ghost whole = split_cell(
        *doc,
        text@,
        scopes@,
        j as int,
        entries@,
        first as int,
        row,
        from,
        to,
    );
    proof {
        if let Ok(all) = whole {
            assert(out@ + all =~= all);
        }
    }
    while k < entries.len() && entries[k].0.0 == row && entries[k].0.1 < to
        invariant
            doc.wf(text@.len() as int),
            scopes@.len() == doc.nodes@.len(),
            j < doc.nodes@.len(),
            first <= k <= entries@.len(),
            cells_named(entries@),
            after_cols(entries@, first as int, row, to) == after_cols(entries@, k as int, row, to),
            whole == split_cell(
                *doc,
                text@,
                scopes@,
                j as int,
                entries@,
                first as int,
                row,
                from,
                to,
            ),
            match split_cell(
                *doc,
                text@,
                scopes@,
                j as int,
                entries@,
                k as int,
                row,
                cursor,
                to,
            ) {
                Ok(rest) => whole == Ok::<Seq<u8>, Error>(out@ + rest),
                Err(error) => whole == Err::<Seq<u8>, Error>(error),
            },
        decreases entries@.len() - k,
    {
        let col = entries[k].0.1;
        assert(entries@[k as int].0.1 < usize::MAX);
        let count: u64 = if col > cursor {
            (col - cursor) as u64
        } else {
            0
        };
        let gap = match repeated(doc, text, j, "number-columns-repeated", count, None) {
            Ok(bytes) => bytes,
            Err(error) => {
                return Err(error);
            },
        };
        let cell = match ods_cell(doc, text, scopes, j, entries[k].1.as_str()) {
            Ok(bytes) => bytes,
            Err(error) => {
                return Err(error);
            },
        };
        let ghost before = out@;
        push_bytes(&mut out, gap.as_slice());
        push_bytes(&mut out, cell.as_slice());
        cursor = col + 1;
        k = k + 1;
        proof {
            if let Ok(rest) = split_cell(
                *doc,
                text@,
                scopes@,
                j as int,
                entries@,
                k as int,
                row,
                cursor,
                to,
            ) {
                assert(before + (gap@ + cell@ + rest) =~= out@ + rest);
            }
        }
    }
    let count: u64 = if to > cursor {
        (to - cursor) as u64
    } else {
        0
    };
    let gap = match repeated(doc, text, j, "number-columns-repeated", count, None) {
        Ok(bytes) => bytes,
        Err(error) => {
            return Err(error);
        },
    };
    push_bytes(&mut out, gap.as_slice());
    Ok((out, k))
}

/// What the cells of a row leave: their patches relative to the row, the column after them
/// and the first entry past them.
pub struct RowView {
    pub patches: Seq<PatchView>,
    pub col: usize,
    pub k: int,
}

/// What makes the edits of one row among the cells of a row element from node `j` on.
pub open spec fn cells_patches(
    doc: Xml,
    text: Seq<u8>,
    scopes: Seq<Option<String>>,
    row: int,
    j: int,
    end: int,
    entries: Seq<(Address, String)>,
    k: int,
    number: u64,
    col: usize,
) -> Result<RowView, Error>
    decreases end - j,
{
    if j >= end {
        Ok(RowView { patches: Seq::empty(), col, k })
    } else if !is_cell_of(doc, row, j) {
        cells_patches(doc, text, scopes, row, j + 1, end, entries, k, number, col)
    } else {
        match next_col(doc, j, col) {
            Err(error) => Err(error),
            Ok(next) => if !is_before_col(entries, k, number, next) {
                cells_patches(doc, text, scopes, row, j + 1, end, entries, k, number, next)
            } else {
                match split_cell(doc, text, scopes, j, entries, k, number, col, next) {
                    Err(error) => Err(error),
                    Ok(bytes) => match cells_patches(
                        doc,
                        text,
                        scopes,
                        row,
                        j + 1,
                        end,
                        entries,
                        after_cols(entries, k, number, next),
                        number,
                        next,
                    ) {
                        Err(error) => Err(error),
                        Ok(rest) => Ok(
                            RowView {
                                patches: seq![
                                    PatchView {
                                        start: doc.nodes@[j].start - doc.nodes@[row].start,
                                        end: doc.nodes@[j].end - doc.nodes@[row].start,
                                        bytes,
                                    },
                                ] + rest.patches,
                                col: rest.col,
                                k: rest.k,
                            },
                        ),
                    },
                }
            },
        }
    }
}

/// The result of patching the cells of a row, against its specification.
pub open spec fn are_row(
    r: Result<(Vec<Patch>, usize, usize), Error>,
    expected: Result<RowView, Error>,
    entries: nat,
    length: int,
) -> bool {
    match r {
        Ok((list, col, k)) => expected == Ok::<RowView, Error>(
            RowView { patches: patch_views(list@), col, k: k as int },
        ) && k <= entries && patches_within(patch_views(list@), length),
        Err(error) => expected == Err::<RowView, Error>(error),
    }
}

#[verifier::rlimit(60)]
#[verifier::spinoff_prover]
fn patch_cells(
    doc: &Xml,
    text: &[u8],
    scopes: &Vec<Option<String>>,
    row: usize,
    entries: &Vec<(Address, String)>,
    first: usize,
    number: u64,
) -> (r: Result<(Vec<Patch>, usize, usize), Error>)
    requires
        doc.wf(text@.len() as int),
        scopes@.len() == doc.nodes@.len(),
        row < doc.nodes@.len(),
        first <= entries@.len(),
        cells_named(entries@),
    ensures
        are_row(
            r,
            cells_patches(
                *doc,
                text@,
                scopes@,
                row as int,
                row + 1,
                crate::tree::end_of(doc.nodes@, row as int),
                entries@,
                first as int,
                number,
                0,
            ),
            entries@.len(),
            doc.nodes@[row as int].end - doc.nodes@[row as int].start,
        ),
{
    let end = doc.end(row);
    assert(doc.nodes@[row as int].start <= doc.nodes@[row as int].end);
    let start: usize = doc.nodes[row].start;
    let width: usize = doc.nodes[row].end - start;
    let mut list: Vec<Patch> = Vec::new();
    let mut col: usize = 0;
    let mut k: usize = first;
    let mut j: usize = row + 1;
    let ghost whole = cells_patches(
        *doc,
        text@,
        scopes@,
        row as int,
        row + 1,
        end as int,
        entries@,
        first as int,
        number,
        0,
    );
    proof {
        assert(patch_views(list@) =~= Seq::empty());
        if let Ok(all) = whole {
            assert(patch_views(list@) + all.patches =~= all.patches);
        }
    }
    while j < end
        invariant
            doc.wf(text@.len() as int),
            scopes@.len() == doc.nodes@.len(),
            row < j <= end <= doc.nodes@.len(),
            end == crate::tree::end_of(doc.nodes@, row as int),
            start == doc.nodes@[row as int].start,
            start + width == doc.nodes@[row as int].end,
            first <= k <= entries@.len(),
            cells_named(entries@),
            patches_within(patch_views(list@), width as int),
            whole == cells_patches(
                *doc,
                text@,
                scopes@,
                row as int,
                row + 1,
                end as int,
                entries@,
                first as int,
                number,
                0,
            ),
            match cells_patches(
                *doc,
                text@,
                scopes@,
                row as int,
                j as int,
                end as int,
                entries@,
                k as int,
                number,
                col,
            ) {
                Ok(rest) => whole == Ok::<RowView, Error>(
                    RowView {
                        patches: patch_views(list@) + rest.patches,
                        col: rest.col,
                        k: rest.k,
                    },
                ),
                Err(error) => whole == Err::<RowView, Error>(error),
            },
        decreases end - j,
    {
        if row_cell(doc, row, j) {
            let next = match find_next_col(doc, j, col) {
                Ok(next) => next,
                Err(error) => {
                    return Err(error);
                },
            };
            if k < entries.len() && entries[k].0.0 == number && entries[k].0.1 < next {
                match write_split(doc, text, scopes, j, entries, k, number, col, next) {
                    Err(error) => {
                        return Err(error);
                    },
                    Ok((bytes, after)) => {
                        proof {
                            assert(doc.nodes@[j as int].start <= doc.nodes@[j as int].end);
                            assert(doc.nodes@[j as int].parent == Some(row));
                        }
                        let patch = Patch {
                            start: doc.nodes[j].start - start,
                            end: doc.nodes[j].end - start,
                            bytes,
                        };
                        proof {
                            match cells_patches(
                                *doc,
                                text@,
                                scopes@,
                                row as int,
                                j + 1,
                                end as int,
                                entries@,
                                after as int,
                                number,
                                next,
                            ) {
                                Ok(rest) => {
                                    one_more_patch(list@, patch, rest.patches, width as int);
                                },
                                Err(_) => {
                                    one_more_patch(list@, patch, Seq::empty(), width as int);
                                },
                            }
                        }
                        list.push(patch);
                        k = after;
                    },
                }
            }
            col = next;
        }
        j = j + 1;
    }
    proof {
        assert(patch_views(list@) + Seq::<PatchView>::empty() =~= patch_views(list@));
    }
    Ok((list, col, k))
}

/// The cells of a row from entry `k` on that stand after its elements, which end at column
/// `col`.
pub open spec fn trailing_cells(
    entries: Seq<(Address, String)>,
    k: int,
    number: u64,
    col: usize,
) -> Seq<char>
    decreases entries.len() - k,
{
    if k >= entries.len() || entries[k].0.0 != number {
        Seq::empty()
    } else {
        let at = entries[k].0.1;
        let gap = if at > col {
            "<table:table-cell xmlns:table=\""@ + TABLE@ + "\" table:number-columns-repeated=\""@
                + crate::text::decimal((at - col) as nat) + "\"/>"@
        } else {
            Seq::empty()
        };
        gap + new_cell(entries[k].1@) + trailing_cells(
            entries,
            k + 1,
            number,
            (at + 1) as usize,
        )
    }
}

/// A cell that has no element yet.
pub open spec fn new_cell(value: Seq<char>) -> Seq<char> {
    "<table:table-cell xmlns:table=\""@ + TABLE@ + "\""@ + string_attributes(value, false) + ">"@
        + value_paragraphs(value) + "</table:table-cell>"@
}

fn push_new_cell(out: &mut String, value: &str)
    ensures
        final(out)@ == old(out)@ + new_cell(value@),
{
    let ghost before = out@;
    out.append("<table:table-cell xmlns:table=\"");
    out.append(TABLE);
    out.append("\"");
    out.append(write_attributes(value, false).as_str());
    out.append(">");
    out.append(write_paragraphs(value).as_str());
    out.append("</table:table-cell>");
    assert(out@ =~= before + new_cell(value@));
}

fn write_trailing(
    entries: &Vec<(Address, String)>,
    first: usize,
    number: u64,
    from: usize,
) -> (r: String)
    requires
        first <= entries@.len(),
        cells_named(entries@),
    ensures
        r@ == trailing_cells(entries@, first as int, number, from),
{
    let mut out = String::new();
    let mut col: usize = from;
    let mut k: usize = first;
    let ghost whole = trailing_cells(entries@, first as int, number, from);
    assert(out@ + whole =~= whole);
    while k < entries.len() && entries[k].0.0 == number
        invariant
            first <= k <= entries@.len(),
            cells_named(entries@),
            out@ + trailing_cells(entries@, k as int, number, col) == whole,
        decreases entries@.len() - k,
    {
        let ghost before = out@;
        let at = entries[k].0.1;
        assert(entries@[k as int].0.1 < usize::MAX);
        if at > col {
            out.append("<table:table-cell xmlns:table=\"");
            out.append(TABLE);
            out.append("\" table:number-columns-repeated=\"");
            out.append(decimal_text((at - col) as u64).as_str());
            out.append("\"/>");
        }
        let ghost gap = if at > col {
            "<table:table-cell xmlns:table=\""@ + TABLE@ + "\" table:number-columns-repeated=\""@
                + crate::text::decimal((at - col) as nat) + "\"/>"@
        } else {
            Seq::empty()
        };
        assert(out@ =~= before + gap);
        push_new_cell(&mut out, entries[k].1.as_str());
        proof {
            let rest = trailing_cells(entries@, k + 1, number, (at + 1) as usize);
            assert(before + (gap + new_cell(entries@[k as int].1@) + rest) =~= out@ + rest);
        }
        col = at + 1;
        k = k + 1;
    }
    assert(out@ + Seq::<char>::empty() =~= out@);
    out
}

/// What takes the repetition off a row element, relative to it.
pub open spec fn single_row(doc: Xml, row: int) -> Seq<PatchView> {
    match crate::tree::full_attribute(
        doc.attributes@[row]@,
        TABLE@,
        "number-rows-repeated"@,
    ) {
        None => Seq::empty(),
        Some(a) => seq![
            PatchView {
                start: a.start - doc.nodes@[row].start,
                end: a.end - doc.nodes@[row].start,
                bytes: Seq::empty(),
            },
        ],
    }
}

/// The bytes with more of them put in before the last end tag.
pub open spec fn with_trailing(bytes: Seq<u8>, extra: Seq<u8>) -> Result<Seq<u8>, Error> {
    if extra.len() == 0 {
        Ok(bytes)
    } else {
        match crate::tree::last_end_tag(bytes, 0, bytes.len() as int) {
            None => Err(Error::OdsRowEnd),
            Some(at) => Ok(bytes.take(at) + extra + bytes.skip(at)),
        }
    }
}

/// One row that takes the place of a repetition of a row element, with the edits of the
/// row from entry `k` on.
pub open spec fn edited_row(
    doc: Xml,
    text: Seq<u8>,
    scopes: Seq<Option<String>>,
    row: int,
    entries: Seq<(Address, String)>,
    k: int,
    number: u64,
) -> Result<Seq<u8>, Error> {
    let node = doc.nodes@[row];
    match cells_patches(
        doc,
        text,
        scopes,
        row,
        row + 1,
        crate::tree::end_of(doc.nodes@, row),
        entries,
        k,
        number,
        0,
    ) {
        Err(error) => Err(error),
        Ok(cells) => {
            let extra = utf8(trailing_cells(entries, cells.k, number, cells.col));
            if extra.len() > 0 && crate::tree::is_empty_element(
                text,
                node.start as int,
                node.end as int,
            ) {
                repeated_markup(doc, text, row, "number-rows-repeated"@, 1, Some(extra))
            } else {
                match crate::xml::spliced(
                    text.subrange(node.start as int, node.end as int),
                    cells.patches + single_row(doc, row),
                ) {
                    Err(error) => Err(error),
                    Ok(bytes) => with_trailing(bytes, extra),
                }
            }
        },
    }
}

fn push_single(doc: &Xml, row: usize, list: &mut Vec<Patch>, width: usize)
    requires
        row < doc.nodes@.len(),
        doc.attributes@.len() == doc.nodes@.len(),
        width == doc.nodes@[row as int].end - doc.nodes@[row as int].start,
        patches_within(patch_views(old(list)@), width as int),
        exists|length: int| #[trigger] doc.wf(length),
    ensures
        patch_views(final(list)@) == patch_views(old(list)@) + single_row(*doc, row as int),
        patches_within(patch_views(final(list)@), width as int),
{
    let ghost before = list@;
    match doc.attribute_in(row, TABLE, "number-rows-repeated") {
        None => {
            assert(patch_views(before) + Seq::<PatchView>::empty() =~= patch_views(before));
        },
        Some(a) => {
            let start: usize = doc.nodes[row].start;
            let none: Vec<u8> = Vec::new();
            let patch = Patch { start: a.start - start, end: a.end - start, bytes: none };
            proof {
                one_more_patch(before, patch, Seq::empty(), width as int);
                assert(patch@.bytes =~= Seq::empty());
                assert(patch_views(before).push(patch@) =~= patch_views(before) + seq![patch@]);
            }
            list.push(patch);
        },
    }
}

fn put_trailing(bytes: Vec<u8>, extra: &Vec<u8>) -> (r: Result<Vec<u8>, Error>)
    ensures
        match r {
            Ok(all) => with_trailing(bytes@, extra@) == Ok::<Seq<u8>, Error>(all@),
            Err(error) => with_trailing(bytes@, extra@) == Err::<Seq<u8>, Error>(error),
        },
{
    if extra.len() == 0 {
        return Ok(bytes);
    }
    let size: usize = bytes.len();
    match find_end_tag(bytes.as_slice(), 0, size) {
        None => Err(Error::OdsRowEnd),
        Some(at) => {
            let mut all: Vec<u8> = Vec::new();
            push_bytes(&mut all, slice_subrange(bytes.as_slice(), 0, at));
            push_bytes(&mut all, extra.as_slice());
            push_bytes(&mut all, slice_subrange(bytes.as_slice(), at, size));
            proof {
                assert(bytes@.subrange(0, at as int) =~= bytes@.take(at as int));
                assert(bytes@.subrange(at as int, size as int) =~= bytes@.skip(at as int));
                assert(all@ =~= bytes@.take(at as int) + extra@ + bytes@.skip(at as int));
            }
            Ok(all)
        },
    }
}

fn write_row(
    doc: &Xml,
    text: &[u8],
    scopes: &Vec<Option<String>>,
    row: usize,
    entries: &Vec<(Address, String)>,
    k: usize,
    number: u64,
) -> (r: Result<Vec<u8>, Error>)
    requires
        doc.wf(text@.len() as int),
        scopes@.len() == doc.nodes@.len(),
        row < doc.nodes@.len(),
        k <= entries@.len(),
        cells_named(entries@),
    ensures
        ({
            let expected = edited_row(
                *doc,
                text@,
                scopes@,
                row as int,
                entries@,
                k as int,
                number,
            );
            match r {
                Ok(bytes) => expected == Ok::<Seq<u8>, Error>(bytes@),
                Err(error) => expected == Err::<Seq<u8>, Error>(error),
            }
        }),
{
    let (mut list, col, after) = match patch_cells(doc, text, scopes, row, entries, k, number) {
        Ok(found) => found,
        Err(error) => {
            return Err(error);
        },
    };
    let (start, end): (usize, usize) = (doc.nodes[row].start, doc.nodes[row].end);
    assert(doc.nodes@[row as int].start <= doc.nodes@[row as int].end);
    let mut extra: Vec<u8> = Vec::new();
    push_text(&mut extra, write_trailing(entries, after, number, col).as_str());
    assert(extra@ =~= utf8(trailing_cells(entries@, after as int, number, col)));
    if extra.len() > 0 && empty_element(text, start, end) {
        return repeated(doc, text, row, "number-rows-repeated", 1, Some(extra));
    }
    push_single(doc, row, &mut list, end - start);
    match splice(slice_subrange(text, start, end), list) {
        Err(error) => Err(error),
        Ok(bytes) => put_trailing(bytes, &extra),
    }
}

/// The rows that take the place of row element `j`, which reaches from row `cursor` up to
/// row `to`: the edited ones from entry `k` on, and the repetitions between them.
pub open spec fn split_row(
    doc: Xml,
    text: Seq<u8>,
    scopes: Seq<Option<String>>,
    j: int,
    entries: Seq<(Address, String)>,
    k: int,
    cursor: u64,
    to: u64,
) -> Result<Seq<u8>, Error>
    decreases entries.len() - k,
{
    let name = "number-rows-repeated"@;
    if k >= entries.len() || entries[k].0.0 >= to {
        repeated_markup(doc, text, j, name, distance(cursor as int, to as int), None)
    } else {
        let number = entries[k].0.0;
        let next = after_row(entries, number, k + 1);
        proof {
            crate::xlsx::after_row_goes_on(entries, number, k + 1);
        }
        match repeated_markup(doc, text, j, name, distance(cursor as int, number as int), None) {
            Err(error) => Err(error),
            Ok(gap) => match edited_row(doc, text, scopes, j, entries, k, number) {
                Err(error) => Err(error),
                Ok(row) => match split_row(
                    doc,
                    text,
                    scopes,
                    j,
                    entries,
                    next,
                    (number + 1) as u64,
                    to,
                ) {
                    Err(error) => Err(error),
                    Ok(rest) => Ok(gap + row + rest),
                },
            },
        }
    }
}

/// The first entry from entry `k` on that is not of a row before `to`.
pub open spec fn after_rows(entries: Seq<(Address, String)>, k: int, to: u64) -> int
    decreases entries.len() - k,
{
    if k >= entries.len() || entries[k].0.0 >= to {
        k
    } else {
        after_rows(entries, k + 1, to)
    }
}

/// The entries after a row are among those after all rows before `to`.
proof fn after_rows_passes(entries: Seq<(Address, String)>, number: u64, k: int, to: u64)
    requires
        k <= entries.len(),
        number < to,
    ensures
        after_rows(entries, k, to) == after_rows(entries, after_row(entries, number, k), to),
    decreases entries.len() - k,
{
    if k < entries.len() && entries[k].0.0 == number {
        after_rows_passes(entries, number, k + 1, to);
    }
}

#[verifier::rlimit(60)]
#[verifier::spinoff_prover]
fn write_rows(
    doc: &Xml,
    text: &[u8],
    scopes: &Vec<Option<String>>,
    j: usize,
    entries: &Vec<(Address, String)>,
    first: usize,
    from: u64,
    to: u64,
) -> (r: Result<(Vec<u8>, usize), Error>)
    requires
        doc.wf(text@.len() as int),
        scopes@.len() == doc.nodes@.len(),
        j < doc.nodes@.len(),
        first <= entries@.len(),
        cells_named(entries@),
    ensures
        ({
            let expected = split_row(
                *doc,
                text@,
                scopes@,
                j as int,
                entries@,
                first as int,
                from,
                to,
            );
            match r {
                Ok((bytes, k)) => expected == Ok::<Seq<u8>, Error>(bytes@) && k == after_rows(
                    entries@,
                    first as int,
                    to,
                ) && first <= k <= entries@.len(),
                Err(error) => expected == Err::<Seq<u8>, Error>(error),
            }
        }),
{
    let mut out: Vec<u8> = Vec::new();
    let mut cursor: u64 = from;
    let mut k: usize = first;
    let ghost whole = split_row(
        *doc,
        text@,
        scopes@,
        j as int,
        entries@,
        first as int,
        from,
        to,
    );
    proof {
        if let Ok(all) = whole {
            assert(out@ + all =~= all);
        }
    }
    while k < entries.len() && entries[k].0.0 < to
        invariant
            doc.wf(text@.len() as int),
            scopes@.len() == doc.nodes@.len(),
            j < doc.nodes@.len(),
            first <= k <= entries@.len(),
            cells_named(entries@),
            after_rows(entries@, first as int, to) == after_rows(entries@, k as int, to),
            whole == split_row(
                *doc,
                text@,
                scopes@,
                j as int,
                entries@,
                first as int,
                from,
                to,
            ),
            match split_row(*doc, text@, scopes@, j as int, entries@, k as int, cursor, to) {
                Ok(rest) => whole == Ok::<Seq<u8>, Error>(out@ + rest),
                Err(error) => whole == Err::<Seq<u8>, Error>(error),
            },
        decreases entries@.len() - k,
    {
        let number = entries[k].0.0;
        assert(entries@[k as int].0.0 < u64::MAX);
        let count: u64 = if number > cursor {
            number - cursor
        } else {
            0
        };
        let gap = match repeated(doc, text, j, "number-rows-repeated", count, None) {
            Ok(bytes) => bytes,
            Err(error) => {
                return Err(error);
            },
        };
        let row = match write_row(doc, text, scopes, j, entries, k, number) {
            Ok(bytes) => bytes,
            Err(error) => {
                return Err(error);
            },
        };
        let next = crate::xlsx::next_row(entries, number, k + 1);
        let ghost before = out@;
        push_bytes(&mut out, gap.as_slice());
        push_bytes(&mut out, row.as_slice());
        proof {
            after_rows_passes(entries@, number, k + 1, to);
            if let Ok(rest) = split_row(
                *doc,
                text@,
                scopes@,
                j as int,
                entries@,
                next as int,
                (number + 1) as u64,
                to,
            ) {
                assert(before + (gap@ + row@ + rest) =~= out@ + rest);
            }
        }
        cursor = number + 1;
        k = next;
    }
    let count: u64 = if to > cursor {
        to - cursor
    } else {
        0
    };
    let gap = match repeated(doc, text, j, "number-rows-repeated", count, None) {
        Ok(bytes) => bytes,
        Err(error) => {
            return Err(error);
        },
    };
    push_bytes(&mut out, gap.as_slice());
    Ok((out, k))
}

/// What makes the edits of the rows of a table from node `j` on, and the first entry past
/// them.
pub open spec fn table_patches(
    doc: Xml,
    text: Seq<u8>,
    scopes: Seq<Option<String>>,
    j: int,
    end: int,
    entries: Seq<(Address, String)>,
    k: int,
    row: u64,
) -> Result<(Seq<PatchView>, int), Error>
    decreases end - j,
{
    if j >= end {
        Ok((Seq::empty(), k))
    } else if !is_tag(doc.nodes@[j], TABLE@, "table-row"@) {
        table_patches(doc, text, scopes, j + 1, end, entries, k, row)
    } else {
        match next_row(doc, j, row) {
            Err(error) => Err(error),
            Ok(next) => if k >= entries.len() || entries[k].0.0 >= next {
                table_patches(doc, text, scopes, j + 1, end, entries, k, next)
            } else {
                match split_row(doc, text, scopes, j, entries, k, row, next) {
                    Err(error) => Err(error),
                    Ok(bytes) => match table_patches(
                        doc,
                        text,
                        scopes,
                        j + 1,
                        end,
                        entries,
                        after_rows(entries, k, next),
                        next,
                    ) {
                        Err(error) => Err(error),
                        Ok((rest, last)) => Ok(
                            (
                                seq![
                                    PatchView {
                                        start: doc.nodes@[j].start as int,
                                        end: doc.nodes@[j].end as int,
                                        bytes,
                                    },
                                ] + rest,
                                last,
                            ),
                        ),
                    },
                }
            },
        }
    }
}

#[verifier::rlimit(60)]
#[verifier::spinoff_prover]
fn patch_table(
    doc: &Xml,
    text: &[u8],
    scopes: &Vec<Option<String>>,
    table: usize,
    entries: &Vec<(Address, String)>,
) -> (r: Result<(Vec<Patch>, usize), Error>)
    requires
        doc.wf(text@.len() as int),
        scopes@.len() == doc.nodes@.len(),
        table < doc.nodes@.len(),
        cells_named(entries@),
    ensures
        ({
            let expected = table_patches(
                *doc,
                text@,
                scopes@,
                table as int,
                crate::tree::end_of(doc.nodes@, table as int),
                entries@,
                0,
                0,
            );
            match r {
                Ok((list, k)) => expected == Ok::<(Seq<PatchView>, int), Error>(
                    (patch_views(list@), k as int),
                ) && patches_within(patch_views(list@), text@.len() as int),
                Err(error) => expected == Err::<(Seq<PatchView>, int), Error>(error),
            }
        }),
{
    let end = doc.end(table);
    let mut list: Vec<Patch> = Vec::new();
    let mut row: u64 = 0;
    let mut k: usize = 0;
    let mut j: usize = table;
    let ghost whole = table_patches(
        *doc,
        text@,
        scopes@,
        table as int,
        end as int,
        entries@,
        0,
        0,
    );
    proof {
        assert(patch_views(list@) =~= Seq::empty());
        if let Ok((all, _)) = whole {
            assert(patch_views(list@) + all =~= all);
        }
    }
    while j < end
        invariant
            doc.wf(text@.len() as int),
            scopes@.len() == doc.nodes@.len(),
            table <= j <= end <= doc.nodes@.len(),
            end == crate::tree::end_of(doc.nodes@, table as int),
            k <= entries@.len(),
            cells_named(entries@),
            patches_within(patch_views(list@), text@.len() as int),
            whole == table_patches(
                *doc,
                text@,
                scopes@,
                table as int,
                end as int,
                entries@,
                0,
                0,
            ),
            match table_patches(
                *doc,
                text@,
                scopes@,
                j as int,
                end as int,
                entries@,
                k as int,
                row,
            ) {
                Ok((rest, last)) => whole == Ok::<(Seq<PatchView>, int), Error>(
                    (patch_views(list@) + rest, last),
                ),
                Err(error) => whole == Err::<(Seq<PatchView>, int), Error>(error),
            },
        decreases end - j,
    {
        if doc.has_tag(j, TABLE, "table-row") {
            let next = match find_next_row(doc, j, row) {
                Ok(next) => next,
                Err(error) => {
                    return Err(error);
                },
            };
            if k < entries.len() && entries[k].0.0 < next {
                match write_rows(doc, text, scopes, j, entries, k, row, next) {
                    Err(error) => {
                        return Err(error);
                    },
                    Ok((bytes, after)) => {
                        assert(doc.nodes@[j as int].start <= doc.nodes@[j as int].end);
                        let patch = Patch {
                            start: doc.nodes[j].start,
                            end: doc.nodes[j].end,
                            bytes,
                        };
                        proof {
                            match table_patches(
                                *doc,
                                text@,
                                scopes@,
                                j + 1,
                                end as int,
                                entries@,
                                after as int,
                                next,
                            ) {
                                Ok((rest, _)) => {
                                    one_more_patch(list@, patch, rest, text@.len() as int);
                                },
                                Err(_) => {
                                    one_more_patch(
                                        list@,
                                        patch,
                                        Seq::empty(),
                                        text@.len() as int,
                                    );
                                },
                            }
                        }
                        list.push(patch);
                        k = after;
                    },
                }
            }
            row = next;
        }
        j = j + 1;
    }
    proof {
        assert(patch_views(list@) + Seq::<PatchView>::empty() =~= patch_views(list@));
    }
    Ok((list, k))
}

/// The content part with the edits of one sheet made.
pub open spec fn patched_ods(
    doc: Xml,
    text: Seq<u8>,
    scopes: Seq<Option<String>>,
    name: Seq<char>,
    entries: Seq<(Address, String)>,
) -> Result<Seq<u8>, Error> {
    let table = table_named(doc, name, 0);
    if table >= doc.nodes@.len() {
        Err(Error::MissingOdsSheet)
    } else {
        match table_patches(
            doc,
            text,
            scopes,
            table,
            crate::tree::end_of(doc.nodes@, table),
            entries,
            0,
            0,
        ) {
            Err(error) => Err(error),
            Ok((patches, k)) => if k != entries.len() {
                Err(Error::OdsTargets)
            } else {
                crate::xml::spliced(text, patches)
            },
        }
    }
}

/// The content part with the edits of one sheet made and every other byte kept.
pub fn patch_ods(
    doc: &Xml,
    text: &[u8],
    scopes: &Vec<Option<String>>,
    name: &str,
    edits: &Cells,
) -> (r: Result<Vec<u8>, Error>)
    requires
        doc.wf(text@.len() as int),
        scopes@.len() == doc.nodes@.len(),
        cells_named(edits.entries@),
    ensures
        ({
            let expected = patched_ods(*doc, text@, scopes@, name@, edits.entries@);
            match r {
                Ok(bytes) => expected == Ok::<Seq<u8>, Error>(bytes@),
                Err(error) => expected == Err::<Seq<u8>, Error>(error),
            }
        }),
{
    let table = find_table(doc, name);
    if table >= doc.nodes.len() {
        return Err(Error::MissingOdsSheet);
    }
    match patch_table(doc, text, scopes, table, &edits.entries) {
        Err(error) => Err(error),
        Ok((changes, k)) => if k != edits.entries.len() {
            Err(Error::OdsTargets)
        } else {
            splice(text, changes)
        },
    }
}

} // verus!
