//! What a native save leaves of the elements that it writes anew.
use crate::a1::{name_of, Address};
use crate::error::Error;
use crate::inside::{is_inside, nodes_end_where_nothing_is_inside};
use crate::made::holds;
use crate::ods_patch::{inner_markup, other_children, repeated_markup, repeated_tag};
use crate::package::TEXT;
use crate::tree::{
    end_of, is_space, last_end_tag, names_attribute, removals, tag_close, without_end_slashes,
    without_end_spaces,
};
use crate::workbook::cell_range_of;
use crate::xlsx::{
    cell_markup, close_tag, dimension_patches, first_named, kept_children, patched_xlsx, reached,
    tail_of, xlsx_patches,
};
use crate::xml::{arranged, inserted, spliced, spliced_from, utf8, PatchView, Xml, XmlAttribute};
use vstd::prelude::*;

verus! {

/// Node `j` is a child of a cell of an XLSX sheet that holds no part of its value.
pub open spec fn is_extra(doc: Xml, i: int, j: int) -> bool {
    &&& doc.nodes@[j].element
    &&& doc.nodes@[j].parent matches Some(p) && p == i
    &&& doc.nodes@[j].name@ != "v"@ && doc.nodes@[j].name@ != "is"@ && doc.nodes@[j].name@ != "f"@
}

/// Node `j` is a child of a cell of an ODS sheet that is no paragraph.
pub open spec fn is_attached(doc: Xml, i: int, j: int) -> bool {
    &&& doc.nodes@[j].element
    &&& doc.nodes@[j].parent matches Some(p) && p == i
    &&& !(doc.nodes@[j].name@ == "p"@ && (doc.nodes@[j].namespace matches Some(n) && n@ == TEXT@))
}

/// The list holds nodes inside node `i`, in their order.
pub open spec fn are_inside(doc: Xml, i: int, list: Seq<int>) -> bool {
    &&& forall|m: int| 0 <= m < list.len() ==> is_inside(doc.nodes@, i, #[trigger] list[m])
    &&& forall|m: int, n: int| 0 <= m < n < list.len() ==> #[trigger] list[m] < #[trigger] list[n]
}

/// The bytes of the nodes of a list, those of each behind those of the nodes before it.
pub open spec fn are_joined(doc: Xml, text: Seq<u8>, list: Seq<int>, joined: Seq<Seq<u8>>) -> bool {
    &&& joined.len() == list.len() + 1
    &&& joined[0] == Seq::<u8>::empty()
    &&& forall|m: int|
        0 <= m < list.len() ==> #[trigger] joined[m + 1] == joined[m] + text.subrange(
            doc.nodes@[list[m]].start as int,
            doc.nodes@[list[m]].end as int,
        )
}

proof fn extras_are_kept(
    doc: Xml,
    text: Seq<u8>,
    i: int,
    list: Seq<int>,
    joined: Seq<Seq<u8>>,
    j: int,
    m: int,
)
    requires
        0 <= i < j <= end_of(doc.nodes@, i) <= doc.nodes@.len(),
        are_inside(doc, i, list),
        are_joined(doc, text, list, joined),
        0 <= m <= list.len(),
        forall|n: int| 0 <= n < m ==> #[trigger] list[n] < j,
        forall|n: int| m <= n < list.len() ==> j <= #[trigger] list[n] < end_of(doc.nodes@, i),
        forall|n: int| j <= n < end_of(doc.nodes@, i) ==> (#[trigger] is_extra(doc, i, n)
            <==> list.contains(n)),
    ensures
        joined[m] + kept_children(doc, text, i, j, end_of(doc.nodes@, i)) == joined.last(),
    decreases end_of(doc.nodes@, i) - j,
{
    let end = end_of(doc.nodes@, i);
    if j < end {
        let node = doc.nodes@[j];
        if is_extra(doc, i, j) {
            assert(list.contains(j));
            let n = choose|n: int| 0 <= n < list.len() && list[n] == j;
            assert(n == m) by {
                if n < m {
                    assert(list[n] < j);
                }
                if n > m {
                    assert(list[m] < list[n]);
                }
            }
            extras_are_kept(doc, text, i, list, joined, j + 1, m + 1);
            let piece = text.subrange(node.start as int, node.end as int);
            let rest = kept_children(doc, text, i, j + 1, end);
            assert(joined[m + 1] == joined[m] + piece);
            assert(joined[m] + (piece + rest) =~= joined[m] + piece + rest);
        } else {
            if m < list.len() && list[m] == j {
                assert(list.contains(j));
            }
            extras_are_kept(doc, text, i, list, joined, j + 1, m);
        }
    } else {
        if m < list.len() {
            assert(j <= list[m]);
        }
        assert(joined[m] + Seq::<u8>::empty() =~= joined[m]);
    }
}

/// A stored cell of an XLSX sheet that is given a new value keeps its other children, all of
/// them and in their order, before its end tag.
pub proof fn xlsx_cells_keep_their_extras(
    doc: Xml,
    text: Seq<u8>,
    n: usize,
    parent: int,
    at: Address,
    value: Seq<char>,
    list: Seq<int>,
    joined: Seq<Seq<u8>>,
) -> (front: Seq<u8>)
    requires
        n < doc.nodes@.len(),
        cell_markup(doc, text, Some(n), parent, at, value) is Ok,
        are_inside(doc, n as int, list),
        are_joined(doc, text, list, joined),
        forall|j: int|
            is_inside(doc.nodes@, n as int, j) ==> (#[trigger] is_extra(doc, n as int, j)
                <==> list.contains(j)),
    ensures
        cell_markup(doc, text, Some(n), parent, at, value)->Ok_0 == front + joined.last()
            + close_tag(doc.qualified_of(n as int, "c"@)),
{
    let i = n as int;
    let end = end_of(doc.nodes@, i);
    nodes_end_where_nothing_is_inside(doc.nodes@, i, i + 1);
    assert forall|m: int| 0 <= m < list.len() implies i + 1 <= #[trigger] list[m] < end by {
        nodes_end_where_nothing_is_inside(doc.nodes@, i, list[m]);
    }
    assert forall|j: int| i + 1 <= j < end implies (#[trigger] is_extra(doc, i, j)
        <==> list.contains(j)) by {
        nodes_end_where_nothing_is_inside(doc.nodes@, i, j);
    }
    extras_are_kept(doc, text, i, list, joined, i + 1, 0);
    let tail = tail_of(doc, text, i);
    assert(joined[0] + tail =~= tail);
    let close = close_tag(doc.qualified_of(i, "c"@));
    let bytes = cell_markup(doc, text, Some(n), parent, at, value)->Ok_0;
    let front = bytes.take(bytes.len() - tail.len() - close.len());
    assert(bytes =~= front + tail + close);
    front
}

proof fn attached_are_kept(
    doc: Xml,
    text: Seq<u8>,
    i: int,
    list: Seq<int>,
    joined: Seq<Seq<u8>>,
    j: int,
    m: int,
)
    requires
        0 <= i < j <= end_of(doc.nodes@, i) <= doc.nodes@.len(),
        are_inside(doc, i, list),
        are_joined(doc, text, list, joined),
        0 <= m <= list.len(),
        forall|n: int| 0 <= n < m ==> #[trigger] list[n] < j,
        forall|n: int| m <= n < list.len() ==> j <= #[trigger] list[n] < end_of(doc.nodes@, i),
        forall|n: int| j <= n < end_of(doc.nodes@, i) ==> (#[trigger] is_attached(doc, i, n)
            <==> list.contains(n)),
    ensures
        joined[m] + other_children(doc, text, i, j, end_of(doc.nodes@, i)) == joined.last(),
    decreases end_of(doc.nodes@, i) - j,
{
    let end = end_of(doc.nodes@, i);
    if j < end {
        let node = doc.nodes@[j];
        if is_attached(doc, i, j) {
            assert(list.contains(j));
            let n = choose|n: int| 0 <= n < list.len() && list[n] == j;
            assert(n == m) by {
                if n < m {
                    assert(list[n] < j);
                }
                if n > m {
                    assert(list[m] < list[n]);
                }
            }
            attached_are_kept(doc, text, i, list, joined, j + 1, m + 1);
            let piece = text.subrange(node.start as int, node.end as int);
            let rest = other_children(doc, text, i, j + 1, end);
            assert(joined[m + 1] == joined[m] + piece);
            assert(joined[m] + (piece + rest) =~= joined[m] + piece + rest);
        } else {
            if m < list.len() && list[m] == j {
                assert(list.contains(j));
            }
            attached_are_kept(doc, text, i, list, joined, j + 1, m);
        }
    } else {
        if m < list.len() {
            assert(j <= list[m]);
        }
        assert(joined[m] + Seq::<u8>::empty() =~= joined[m]);
    }
}

/// A cell of an ODS sheet that is given a new text keeps its other children, all of them and
/// in their order, before its end tag.
pub proof fn ods_cells_keep_what_is_attached(
    doc: Xml,
    text: Seq<u8>,
    scopes: Seq<Option<String>>,
    i: int,
    value: Seq<char>,
    list: Seq<int>,
    joined: Seq<Seq<u8>>,
) -> (front: Seq<u8>)
    requires
        0 <= i < doc.nodes@.len(),
        crate::ods_patch::cell_markup(doc, text, scopes, i, value) is Ok,
        are_inside(doc, i, list),
        are_joined(doc, text, list, joined),
        forall|j: int|
            is_inside(doc.nodes@, i, j) ==> (#[trigger] is_attached(doc, i, j)
                <==> list.contains(j)),
    ensures
        crate::ods_patch::cell_markup(doc, text, scopes, i, value)->Ok_0 == front + joined.last()
            + close_tag(doc.qualified_of(i, "table-cell"@)),
{
    let end = end_of(doc.nodes@, i);
    nodes_end_where_nothing_is_inside(doc.nodes@, i, i + 1);
    assert forall|m: int| 0 <= m < list.len() implies i + 1 <= #[trigger] list[m] < end by {
        nodes_end_where_nothing_is_inside(doc.nodes@, i, list[m]);
    }
    assert forall|j: int| i + 1 <= j < end implies (#[trigger] is_attached(doc, i, j)
        <==> list.contains(j)) by {
        nodes_end_where_nothing_is_inside(doc.nodes@, i, j);
    }
    attached_are_kept(doc, text, i, list, joined, i + 1, 0);
    let tail = other_children(doc, text, i, i + 1, end);
    assert(joined[0] + tail =~= tail);
    let close = close_tag(doc.qualified_of(i, "table-cell"@));
    let bytes = crate::ods_patch::cell_markup(doc, text, scopes, i, value)->Ok_0;
    let front = bytes.take(bytes.len() - tail.len() - close.len());
    assert(bytes =~= front + tail + close);
    front
}

proof fn corner_is_reached(entries: Seq<(Address, String)>, last: Address, n: int)
    requires
        0 <= n <= entries.len(),
    ensures
        last.0 <= reached(entries, last, n).0,
        last.1 <= reached(entries, last, n).1,
        forall|e: int|
            0 <= e < n ==> (#[trigger] entries[e]).0.0 <= reached(entries, last, n).0
                && entries[e].0.1 <= reached(entries, last, n).1,
        reached(entries, last, n).0 == last.0 || exists|e: int|
            0 <= e < n && (#[trigger] entries[e]).0.0 == reached(entries, last, n).0,
        reached(entries, last, n).1 == last.1 || exists|e: int|
            0 <= e < n && (#[trigger] entries[e]).0.1 == reached(entries, last, n).1,
    decreases n,
{
    if n > 0 {
        corner_is_reached(entries, last, n - 1);
        assert(entries[n - 1].0.0 <= reached(entries, last, n).0);
    }
}

/// The stated dimension of an XLSX sheet reaches every edit: where one lies beyond its last
/// corner, the sheet that is written states the rectangle from the first corner to the last
/// row and column of the old one and of every edit.
pub proof fn dimensions_reach_every_edit(
    doc: Xml,
    text: Seq<u8>,
    entries: Seq<(Address, String)>,
    node: int,
    k: int,
    first: Address,
    last: Address,
    corner: Address,
)
    requires
        doc.wf(text.len() as int),
        patched_xlsx(doc, text, entries) is Ok,
        0 <= node < doc.nodes@.len(),
        doc.nodes@[node].name@ == "dimension"@,
        forall|n: int| 0 <= n < node ==> (#[trigger] doc.nodes@[n]).name@ != "dimension"@,
        0 <= k < doc.attributes@[node]@.len(),
        doc.attributes@[node]@[k].name@ == "ref"@,
        forall|m: int| 0 <= m < k ==> (#[trigger] doc.attributes@[node]@[m]).name@ != "ref"@,
        cell_range_of(doc.attributes@[node]@[k].value@) == Ok::<(Address, Address), Error>(
            (first, last),
        ),
        last.0 <= corner.0,
        last.1 <= corner.1,
        forall|e: int|
            0 <= e < entries.len() ==> (#[trigger] entries[e]).0.0 <= corner.0 && entries[e].0.1
                <= corner.1,
        corner.0 == last.0 || exists|e: int|
            0 <= e < entries.len() && (#[trigger] entries[e]).0.0 == corner.0,
        corner.1 == last.1 || exists|e: int|
            0 <= e < entries.len() && (#[trigger] entries[e]).0.1 == corner.1,
        corner != last,
    ensures
        holds(
            patched_xlsx(doc, text, entries)->Ok_0,
            utf8("ref=\""@) + utf8(name_of(first) + ":"@ + name_of(corner)) + utf8("\""@),
        ),
{
    let end = reached(entries, last, entries.len() as int);
    corner_is_reached(entries, last, entries.len() as int);
    assert(end.0 == corner.0);
    assert(end.1 == corner.1);
    first_is(doc, "dimension"@, 0, node);
    attribute_is(doc.attributes@[node]@, "ref"@, k);
    let list = xlsx_patches(doc, text, entries)->Ok_0;
    let dimension = dimension_patches(doc, entries)->Ok_0;
    assert(dimension.len() == 1);
    assert(list[0] == dimension[0]);
    crate::kept::xlsx_patches_lie_within(doc, text, entries);
    let (a, b) = crate::placed::patches_stand_in_the_result(text, list, 0);
    assert(patched_xlsx(doc, text, entries)->Ok_0 == a + list[0].bytes + b);
}

proof fn first_is(doc: Xml, name: Seq<char>, i: int, node: int)
    requires
        0 <= i <= node < doc.nodes@.len(),
        doc.nodes@[node].name@ == name,
        forall|n: int| 0 <= n < node ==> (#[trigger] doc.nodes@[n]).name@ != name,
    ensures
        first_named(doc, name, i) == node,
    decreases node - i,
{
    if i < node {
        assert(doc.nodes@[i].name@ != name);
        first_is(doc, name, i + 1, node);
    }
}

proof fn attribute_is(list: Seq<XmlAttribute>, name: Seq<char>, k: int)
    requires
        0 <= k < list.len(),
        list[k].name@ == name,
        forall|m: int| 0 <= m < k ==> (#[trigger] list[m]).name@ != name,
    ensures
        crate::tree::local_attribute(list, name) == Some(list[k]),
    decreases k,
{
    if k > 0 {
        assert(list[0].name@ != name);
        let rest = list.skip(1);
        assert forall|m: int| 0 <= m < k - 1 implies (#[trigger] rest[m]).name@ != name by {
            assert(rest[m] == list[m + 1]);
        }
        attribute_is(rest, name, k - 1);
    }
}

/// The attribute is named by a list of namespaces and names.
pub open spec fn is_listed(remove: Seq<(Seq<char>, Seq<char>)>, a: XmlAttribute) -> bool {
    exists|r: int|
        {
            &&& 0 <= r < remove.len()
            &&& (#[trigger] remove[r]).1 == a.name@
            &&& remove[r].0 == match a.namespace {
                Some(n) => n@,
                None => Seq::empty(),
            }
        }
}

/// Where what is kept before cut `m` begins: behind the cut before it.
pub open spec fn edge(list: Seq<XmlAttribute>, cuts: Seq<int>, start: int, m: int) -> int {
    if m <= 0 {
        start
    } else {
        list[cuts[m - 1]].end as int
    }
}

/// What is kept before each cut, behind what is kept before the earlier ones.
pub open spec fn are_left(
    text: Seq<u8>,
    list: Seq<XmlAttribute>,
    cuts: Seq<int>,
    start: int,
    left: Seq<Seq<u8>>,
) -> bool {
    &&& left.len() == cuts.len() + 1
    &&& left[0] == Seq::<u8>::empty()
    &&& forall|m: int|
        0 <= m < cuts.len() ==> #[trigger] left[m + 1] == left[m] + text.subrange(
            edge(list, cuts, start, m),
            list[cuts[m]].start as int,
        )
}

/// A part of a tag that is left out.
spec fn cut_of(list: Seq<XmlAttribute>, cuts: Seq<int>, start: int) -> Seq<PatchView> {
    Seq::new(
        cuts.len(),
        |m: int|
            PatchView {
                start: list[cuts[m]].start - start,
                end: list[cuts[m]].end - start,
                bytes: Seq::empty(),
            },
    )
}

proof fn removals_are_cuts(
    list: Seq<XmlAttribute>,
    remove: Seq<(Seq<char>, Seq<char>)>,
    start: int,
    cuts: Seq<int>,
    n: int,
    m: int,
)
    requires
        0 <= n <= list.len(),
        0 <= m <= cuts.len(),
        forall|a: int, b: int| 0 <= a < b < cuts.len() ==> #[trigger] cuts[a] < #[trigger] cuts[b],
        forall|k: int|
            0 <= k < list.len() ==> (is_listed(remove, #[trigger] list[k]) <==> cuts.contains(k)),
        forall|a: int| 0 <= a < m ==> 0 <= #[trigger] cuts[a] < n,
        forall|a: int| m <= a < cuts.len() ==> n <= #[trigger] cuts[a],
    ensures
        removals(list, remove, start, n) == cut_of(list, cuts, start).take(m),
    decreases n,
{
    let all = cut_of(list, cuts, start);
    if n > 0 {
        let a = list[n - 1];
        if names_attribute(remove, a) {
            let named = (crate::tree::namespace_of(a), a.name@);
            let r = choose|r: int| 0 <= r < remove.len() && remove[r] == named;
            assert(remove[r].1 == a.name@);
            assert(is_listed(remove, a));
            assert(cuts.contains(n - 1));
            let c = choose|c: int| 0 <= c < cuts.len() && cuts[c] == n - 1;
            assert(c == m - 1) by {
                if c >= m {
                    assert(n <= cuts[c]);
                }
                if c < m - 1 {
                    assert(cuts[c] < cuts[m - 1]);
                    assert(cuts[m - 1] < n);
                }
            }
            removals_are_cuts(list, remove, start, cuts, n - 1, m - 1);
            assert(all.take(m) =~= all.take(m - 1).push(all[m - 1]));
        } else {
            assert(!is_listed(remove, a)) by {
                if is_listed(remove, a) {
                    let r = choose|r: int|
                        {
                            &&& 0 <= r < remove.len()
                            &&& (#[trigger] remove[r]).1 == a.name@
                            &&& remove[r].0 == match a.namespace {
                                Some(n) => n@,
                                None => Seq::empty(),
                            }
                        };
                    assert(remove[r] == (crate::tree::namespace_of(a), a.name@));
                    assert(remove.contains((crate::tree::namespace_of(a), a.name@)));
                }
            }
            assert(!cuts.contains(n - 1));
            assert forall|c: int| 0 <= c < m implies 0 <= #[trigger] cuts[c] < n - 1 by {
                assert(cuts.contains(cuts[c]));
            }
            removals_are_cuts(list, remove, start, cuts, n - 1, m);
        }
    } else {
        if m > 0 {
            let first = cuts[0];
            assert(0 <= first < n);
        }
        assert(all.take(m) =~= Seq::empty());
    }
}

proof fn ascending_stays(list: Seq<PatchView>)
    requires
        forall|a: int, b: int|
            0 <= a < b < list.len() ==> (#[trigger] list[a]).start <= (#[trigger] list[b]).start,
    ensures
        arranged(list) == list,
    decreases list.len(),
{
    if list.len() > 0 {
        let front = list.drop_last();
        assert forall|a: int, b: int| 0 <= a < b < front.len() implies (#[trigger] front[a]).start
            <= (#[trigger] front[b]).start by {
            assert(list[a].start <= list[b].start);
        }
        ascending_stays(front);
        if front.len() > 0 {
            assert(list[front.len() - 1].start <= list[list.len() - 1].start);
        }
        assert(inserted(front, list.last()) =~= list);
    }
}

proof fn cuts_are_left_out(
    text: Seq<u8>,
    list: Seq<XmlAttribute>,
    cuts: Seq<int>,
    start: int,
    end: int,
    left: Seq<Seq<u8>>,
    m: int,
)
    requires
        0 <= start <= end <= text.len(),
        are_left(text, list, cuts, start, left),
        0 <= m <= cuts.len(),
        forall|a: int, b: int| 0 <= a < b < cuts.len() ==> #[trigger] cuts[a] < #[trigger] cuts[b],
        forall|a: int| 0 <= a < cuts.len() ==> 0 <= #[trigger] cuts[a] < list.len(),
        forall|k: int|
            0 <= k < list.len() ==> start <= (#[trigger] list[k]).start <= list[k].end <= end,
        forall|k: int, l: int|
            0 <= k < l < list.len() ==> (#[trigger] list[k]).end <= (#[trigger] list[l]).start,
    ensures
        spliced_from(
            text.subrange(start, end),
            cut_of(list, cuts, start).skip(m),
            edge(list, cuts, start, m) - start,
        ) matches Ok(rest) && left[m] + rest == left.last() + text.subrange(
            edge(list, cuts, start, cuts.len() as int),
            end,
        ),
    decreases cuts.len() - m,
{
    let t = text.subrange(start, end);
    let all = cut_of(list, cuts, start);
    let from = edge(list, cuts, start, m);
    if m > 0 {
        assert(0 <= cuts[m - 1] < list.len());
        assert(start <= list[cuts[m - 1]].end <= end);
    }
    if m < cuts.len() {
        cuts_are_left_out(text, list, cuts, start, end, left, m + 1);
        assert(all.skip(m)[0] == all[m]);
        assert(all.skip(m).skip(1) =~= all.skip(m + 1));
        let to = list[cuts[m]].start as int;
        assert(0 <= cuts[m] < list.len());
        assert(from <= to) by {
            if m > 0 {
                assert(cuts[m - 1] < cuts[m]);
                assert(list[cuts[m - 1]].end <= list[cuts[m]].start);
            }
        }
        let rest = spliced_from(t, all.skip(m + 1), list[cuts[m]].end - start)->Ok_0;
        let piece = text.subrange(from, to);
        assert(t.subrange(from - start, to - start) =~= piece);
        assert(left[m + 1] == left[m] + piece);
        let none = Seq::<u8>::empty();
        assert(left[m] + (piece + none + rest) =~= left[m] + piece + rest);
    } else {
        assert(all.skip(m) =~= Seq::empty());
        assert(t.skip(from - start) =~= text.subrange(from, end));
    }
}

proof fn spaces_go(front: Seq<u8>, tail: Seq<u8>)
    requires
        forall|i: int| 0 <= i < tail.len() ==> is_space(#[trigger] tail[i]),
        front.len() > 0 ==> !is_space(front.last()),
    ensures
        without_end_spaces(front + tail) == front,
    decreases tail.len(),
{
    let all = front + tail;
    if tail.len() > 0 {
        assert(is_space(tail[tail.len() - 1]));
        assert(all.drop_last() =~= front + tail.drop_last());
        spaces_go(front, tail.drop_last());
    } else {
        assert(all =~= front);
    }
}

proof fn slashes_go(front: Seq<u8>, tail: Seq<u8>)
    requires
        forall|i: int| 0 <= i < tail.len() ==> #[trigger] tail[i] == 47,
        front.len() > 0 ==> front.last() != 47,
    ensures
        without_end_slashes(front + tail) == front,
    decreases tail.len(),
{
    let all = front + tail;
    if tail.len() > 0 {
        assert(tail[tail.len() - 1] == 47);
        assert(all.drop_last() =~= front + tail.drop_last());
        slashes_go(front, tail.drop_last());
    } else {
        assert(all =~= front);
    }
}

proof fn close_is(text: Seq<u8>, from: int, end: int)
    requires
        0 <= from <= end < text.len(),
        text[end] == 62,
        forall|i: int| from <= i < end ==> #[trigger] text[i] != 62,
    ensures
        tag_close(text, from) == end,
    decreases end - from,
{
    if from < end {
        close_is(text, from + 1, end);
    }
}

/// A start tag that is written anew is the old one up to its end, without the named
/// attributes and with nothing else gone, then what is added.
pub proof fn tags_lose_only_named_attributes(
    doc: Xml,
    text: Seq<u8>,
    i: int,
    remove: Seq<(Seq<char>, Seq<char>)>,
    extra: Seq<u8>,
    end: int,
    cuts: Seq<int>,
    left: Seq<Seq<u8>>,
    front: Seq<u8>,
    slashes: Seq<u8>,
    blanks: Seq<u8>,
)
    requires
        doc.wf(text.len() as int),
        0 <= i < doc.nodes@.len(),
        // The tag ends with the first `>` behind its attributes.
        doc.nodes@[i].start <= end < text.len(),
        text[end] == 62,
        forall|k: int|
            0 <= k < doc.attributes@[i]@.len() ==> (#[trigger] doc.attributes@[i]@[k]).end <= end,
        forall|p: int|
            (if doc.attributes@[i]@.len() > 0 {
                doc.attributes@[i]@.last().end as int
            } else {
                doc.nodes@[i].start as int
            }) <= p < end ==> #[trigger] text[p] != 62,
        // These attributes are named, and these parts are left between them.
        forall|a: int, b: int| 0 <= a < b < cuts.len() ==> #[trigger] cuts[a] < #[trigger] cuts[b],
        forall|a: int|
            0 <= a < cuts.len() ==> 0 <= #[trigger] cuts[a] < doc.attributes@[i]@.len(),
        forall|k: int|
            0 <= k < doc.attributes@[i]@.len() ==> (is_listed(
                remove,
                #[trigger] doc.attributes@[i]@[k],
            ) <==> cuts.contains(k)),
        are_left(text, doc.attributes@[i]@, cuts, doc.nodes@[i].start as int, left),
        // White space and slashes at the end of what is left do not count.
        left.last() + text.subrange(
            edge(
                doc.attributes@[i]@,
                cuts,
                doc.nodes@[i].start as int,
                cuts.len() as int,
            ),
            end,
        ) == front + slashes + blanks,
        forall|b: int| 0 <= b < blanks.len() ==> is_space(#[trigger] blanks[b]),
        forall|b: int| 0 <= b < slashes.len() ==> #[trigger] slashes[b] == 47,
        front.len() > 0 && front.last() != 47,
        slashes.len() == 0 ==> !is_space(front.last()),
    ensures
        doc.tag_of(text, i, remove, extra) == Ok::<Seq<u8>, Error>(front + extra + seq![62u8]),
{
    let list = doc.attributes@[i]@;
    let start = doc.nodes@[i].start as int;
    let n = cuts.len() as int;
    let all = cut_of(list, cuts, start);
    if list.len() > 0 {
        let l = list.len() - 1;
        assert(list[l].end <= end);
    }
    close_is(text, doc.attributes_end(i), end);
    removals_are_cuts(list, remove, start, cuts, list.len() as int, n);
    assert(all.take(n) =~= all);
    assert forall|a: int, b: int| 0 <= a < b < all.len() implies (#[trigger] all[a]).start <= (
    #[trigger] all[b]).start by {
        assert(cuts[a] < cuts[b]);
        assert(list[cuts[a]].end <= list[cuts[b]].start);
    }
    ascending_stays(all);
    cuts_are_left_out(text, list, cuts, start, end, left, 0);
    assert(all.skip(0) =~= all);
    let tag = spliced(text.subrange(start, end), all)->Ok_0;
    assert(Seq::<u8>::empty() + tag =~= tag);
    assert(tag == front + slashes + blanks);
    assert((front + slashes).last() == if slashes.len() > 0 {
        slashes[slashes.len() - 1]
    } else {
        front.last()
    });
    spaces_go(front + slashes, blanks);
    slashes_go(front, slashes);
}

proof fn end_tag_is(text: Seq<u8>, from: int, to: int, at: int)
    requires
        0 <= from <= at,
        at + 2 <= to <= text.len(),
        text[at] == 60 && text[at + 1] == 47,
        forall|p: int| at < p < to - 1 ==> !(#[trigger] text[p] == 60 && text[p + 1] == 47),
    ensures
        last_end_tag(text, from, to) == Some(at),
    decreases to - at,
{
    if at < to - 2 {
        assert(!(text[to - 2] == 60 && text[to - 2 + 1] == 47));
        end_tag_is(text, from, to - 1, at);
    }
}

/// A row or cell that is written again with another repetition keeps what is between its
/// tags, and one that is repeated no more is left out.
pub proof fn repeated_elements_keep_their_content(
    doc: Xml,
    text: Seq<u8>,
    i: int,
    attribute: Seq<char>,
    count: int,
    end: int,
    at: int,
)
    requires
        0 <= i < doc.nodes@.len(),
        doc.nodes@[i].start <= doc.nodes@[i].end <= text.len(),
        // The start tag ends at `end` and the end tag begins at `at`.
        doc.attributes_end(i) <= end < at,
        doc.nodes@[i].start <= doc.attributes_end(i),
        text[end] == 62,
        forall|p: int| doc.attributes_end(i) <= p < end ==> #[trigger] text[p] != 62,
        at + 2 <= doc.nodes@[i].end,
        text[at] == 60 && text[at + 1] == 47,
        forall|p: int|
            at < p < doc.nodes@[i].end - 1 ==> !(#[trigger] text[p] == 60 && text[p + 1] == 47),
        text[doc.nodes@[i].end - 1] == 62,
        text[doc.nodes@[i].end - 2] != 47,
    ensures
        count <= 0 ==> repeated_markup(doc, text, i, attribute, count, None) == Ok::<
            Seq<u8>,
            Error,
        >(Seq::empty()),
        count > 0 ==> (repeated_markup(doc, text, i, attribute, count, None) matches Ok(bytes)
            ==> exists|tag: Seq<u8>|
            bytes == #[trigger] (tag + text.subrange(end + 1, at)) + close_tag(
                doc.qualified_of(i, doc.nodes@[i].name@),
            )),
{
    let node = doc.nodes@[i];
    let whole = text.subrange(node.start as int, node.end as int);
    assert(whole.last() == 62);
    assert(whole[whole.len() - 2] == text[node.end - 2]);
    close_is(text, doc.attributes_end(i), end);
    end_tag_is(text, node.start as int, node.end as int, at);
    if count > 0 {
        if let Ok(bytes) = repeated_markup(doc, text, i, attribute, count, None) {
            let tag = repeated_tag(doc, text, i, attribute, count)->Ok_0;
            let inner = text.subrange(end + 1, at);
            assert(inner_markup(doc, text, i) == Ok::<Seq<u8>, Error>(inner));
            assert(bytes == (tag + inner) + close_tag(doc.qualified_of(i, node.name@)));
        }
    }
}

} // verus!
