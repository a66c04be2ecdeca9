//! XML parts of a workbook: their tree, and patches that keep every byte around them.
use crate::error::Error;
use roxmltree::{Document, Node, ParsingOptions};
use vstd::prelude::*;
use vstd::slice::slice_subrange;

verus! {

/// The most nodes of a part.
pub const NODE_LIMIT: u32 = 8_000_000;

/// An attribute and where it stands in the text.
pub struct XmlAttribute {
    pub namespace: Option<String>,
    pub name: String,
    pub value: String,
    pub start: usize,
    pub end: usize,
}

/// A node and where it stands in the text. Only elements have names; a text is the node's
/// own, or that of the element's first child.
pub struct XmlNode {
    pub parent: Option<usize>,
    pub element: bool,
    pub is_text: bool,
    pub text: Option<String>,
    pub namespace: Option<String>,
    pub name: String,
    pub start: usize,
    pub end: usize,
}

/// An attribute with its characters.
#[verifier::ext_equal]
pub struct AttributeView {
    pub namespace: Option<Seq<char>>,
    pub name: Seq<char>,
    pub value: Seq<char>,
    pub start: int,
    pub end: int,
}

/// A node with its characters.
#[verifier::ext_equal]
pub struct NodeView {
    pub parent: Option<usize>,
    pub element: bool,
    pub is_text: bool,
    pub text: Option<Seq<char>>,
    pub namespace: Option<Seq<char>>,
    pub name: Seq<char>,
    pub start: int,
    pub end: int,
}

impl View for XmlAttribute {
    type V = AttributeView;

    open spec fn view(&self) -> AttributeView {
        AttributeView {
            namespace: crate::sheet::text_view(self.namespace),
            name: self.name@,
            value: self.value@,
            start: self.start as int,
            end: self.end as int,
        }
    }
}

impl View for XmlNode {
    type V = NodeView;

    open spec fn view(&self) -> NodeView {
        NodeView {
            parent: self.parent,
            element: self.element,
            is_text: self.is_text,
            text: crate::sheet::text_view(self.text),
            namespace: crate::sheet::text_view(self.namespace),
            name: self.name@,
            start: self.start as int,
            end: self.end as int,
        }
    }
}

/// The UTF-8 bytes of a text.
pub open spec fn utf8(text: Seq<char>) -> Seq<u8> {
    vstd::utf8::encode_utf8(text)
}

/// The nodes of a document in document order as the `roxmltree` crate parses it, or why it
/// does not.
pub uninterp spec fn xml_nodes(text: Seq<char>, limit: u32) -> Result<Seq<NodeView>, Seq<char>>;

/// The attributes of each node, in the order of the text; namespace declarations are not
/// among them.
pub uninterp spec fn xml_attributes(text: Seq<char>, limit: u32) -> Result<
    Seq<Seq<AttributeView>>,
    Seq<char>,
>;

/// The prefix that stands for the namespace of each element where it stands.
pub uninterp spec fn xml_prefixes(text: Seq<char>, limit: u32) -> Result<
    Seq<Option<Seq<char>>>,
    Seq<char>,
>;

/// The namespace that a prefix stands for at each node.
pub uninterp spec fn xml_scopes(text: Seq<char>, prefix: Seq<char>, limit: u32) -> Result<
    Seq<Option<Seq<char>>>,
    Seq<char>,
>;

/// What the nodes of a document hold.
pub open spec fn nodes_result(r: Result<Vec<XmlNode>, String>) -> Result<Seq<NodeView>, Seq<char>> {
    match r {
        Ok(nodes) => Ok(nodes@.map_values(|n: XmlNode| n@)),
        Err(reason) => Err(reason@),
    }
}

/// What a list of attributes holds.
pub open spec fn attribute_views(list: Seq<XmlAttribute>) -> Seq<AttributeView> {
    list.map_values(|a: XmlAttribute| a@)
}

/// What the attributes of a document hold.
pub open spec fn attributes_result(r: Result<Vec<Vec<XmlAttribute>>, String>) -> Result<
    Seq<Seq<AttributeView>>,
    Seq<char>,
> {
    match r {
        Ok(lists) => Ok(lists@.map_values(|l: Vec<XmlAttribute>| attribute_views(l@))),
        Err(reason) => Err(reason@),
    }
}

/// What an optional text for each node holds.
pub open spec fn texts_result(r: Result<Vec<Option<String>>, String>) -> Result<
    Seq<Option<Seq<char>>>,
    Seq<char>,
> {
    match r {
        Ok(texts) => Ok(texts@.map_values(|t: Option<String>| crate::sheet::text_view(t))),
        Err(reason) => Err(reason@),
    }
}

/// `Document::parse_with_options`, and of each of its `descendants` the parent, the type,
/// the text, the tag name and the range. What they are depends on the text and the limit
/// alone. Every range lies within the text, and that of a child within its parent's.
#[verifier::external_body]
fn read_nodes(text: &str, limit: u32) -> (r: Result<Vec<XmlNode>, String>)
    ensures
        nodes_result(r) == xml_nodes(text@, limit),
        r matches Ok(nodes) ==> nodes_within(nodes@, utf8(text@).len() as int),
        r matches Ok(nodes) ==> nodes_nest(nodes@),
{
    let options = ParsingOptions { nodes_limit: limit, ..ParsingOptions::default() };
    let doc = Document::parse_with_options(text, options).map_err(|error| error.to_string())?;
    let convert = |n: Node| XmlNode {
        parent: n.parent().map(|p| p.id().get_usize()),
        element: n.is_element(),
        is_text: n.is_text(),
        text: n.text().map(str::to_owned),
        namespace: n.tag_name().namespace().map(str::to_owned),
        name: n.tag_name().name().to_owned(),
        start: n.range().start,
        end: n.range().end,
    };
    Ok(doc.descendants().map(convert).collect())
}

/// `Node::attributes` of each of the `descendants` of a document: of every attribute the
/// name, the value and the range. What they are depends on the text and the limit alone.
/// There is a list for every node; every attribute lies within its node and past the
/// attributes before it.
#[verifier::external_body]
fn read_attributes(text: &str, limit: u32) -> (r: Result<Vec<Vec<XmlAttribute>>, String>)
    ensures
        attributes_result(r) == xml_attributes(text@, limit),
        r matches Ok(lists) ==> attributes_within(lists@, xml_nodes(text@, limit)),
{
    let options = ParsingOptions { nodes_limit: limit, ..ParsingOptions::default() };
    let doc = Document::parse_with_options(text, options).map_err(|error| error.to_string())?;
    let convert = |a: roxmltree::Attribute| XmlAttribute {
        namespace: a.namespace().map(str::to_owned),
        name: a.name().to_owned(),
        value: a.value().to_owned(),
        start: a.range().start,
        end: a.range().end,
    };
    Ok(doc.descendants().map(|n| n.attributes().map(convert).collect()).collect())
}

/// `Node::lookup_prefix` for the namespace of each of the `descendants` of a document. What
/// it is depends on the text and the limit alone. There is an entry for every node.
#[verifier::external_body]
fn read_prefixes(text: &str, limit: u32) -> (r: Result<Vec<Option<String>>, String>)
    ensures
        texts_result(r) == xml_prefixes(text@, limit),
        r matches Ok(texts) ==> one_per_node(texts@.len(), xml_nodes(text@, limit)),
{
    let options = ParsingOptions { nodes_limit: limit, ..ParsingOptions::default() };
    let doc = Document::parse_with_options(text, options).map_err(|error| error.to_string())?;
    let convert = |n: Node| {
        let namespace = n.tag_name().namespace()?;
        n.lookup_prefix(namespace).map(str::to_owned)
    };
    Ok(doc.descendants().map(convert).collect())
}

/// `Node::lookup_namespace_uri` of a prefix at each of the `descendants` of a document. What
/// it is depends on the text, the prefix and the limit alone. There is an entry for every
/// node.
#[verifier::external_body]
fn read_scopes(text: &str, prefix: &str, limit: u32) -> (r: Result<Vec<Option<String>>, String>)
    ensures
        texts_result(r) == xml_scopes(text@, prefix@, limit),
        r matches Ok(texts) ==> one_per_node(texts@.len(), xml_nodes(text@, limit)),
{
    let options = ParsingOptions { nodes_limit: limit, ..ParsingOptions::default() };
    let doc = Document::parse_with_options(text, options).map_err(|error| error.to_string())?;
    let convert = |n: Node| n.lookup_namespace_uri(Some(prefix)).map(str::to_owned);
    Ok(doc.descendants().map(convert).collect())
}

/// Every node lies within a text of this many bytes.
pub open spec fn nodes_within(nodes: Seq<XmlNode>, length: int) -> bool {
    forall|i: int|
        0 <= i < nodes.len() ==> (#[trigger] nodes[i]).start <= nodes[i].end <= length
}

/// The range of a child lies within its parent's.
pub open spec fn nodes_nest(nodes: Seq<XmlNode>) -> bool {
    forall|i: int|
        0 <= i < nodes.len() && (#[trigger] nodes[i].parent) is Some ==> nodes[i].parent->0
            < nodes.len() && nodes[nodes[i].parent->0 as int].start <= nodes[i].start
            && nodes[i].end <= nodes[nodes[i].parent->0 as int].end
}

/// There is a list of attributes for every node; every attribute lies within its node and
/// past the attributes before it.
pub open spec fn attributes_within(
    lists: Seq<Vec<XmlAttribute>>,
    nodes: Result<Seq<NodeView>, Seq<char>>,
) -> bool {
    &&& nodes is Ok
    &&& lists.len() == nodes->Ok_0.len()
    &&& forall|i: int, k: int|
        0 <= i < lists.len() && 0 <= k < lists[i]@.len() ==> nodes->Ok_0[i].start <= (
        #[trigger] lists[i]@[k]).start <= lists[i]@[k].end <= nodes->Ok_0[i].end
    &&& forall|i: int, k: int, l: int|
        0 <= i < lists.len() && 0 <= k < l < lists[i]@.len() ==> (#[trigger] lists[i]@[k]).end <= (
        #[trigger] lists[i]@[l]).start
}

/// There is one for every node.
pub open spec fn one_per_node(n: nat, nodes: Result<Seq<NodeView>, Seq<char>>) -> bool {
    nodes is Ok && n == nodes->Ok_0.len()
}

/// A parsed part: its nodes in document order, the attributes of each, and the prefix of
/// each element's namespace.
pub struct Xml {
    pub nodes: Vec<XmlNode>,
    pub attributes: Vec<Vec<XmlAttribute>>,
    pub prefixes: Vec<Option<String>>,
}

impl Xml {
    /// The tree is that of a text of this many bytes.
    pub open spec fn wf(self, length: int) -> bool {
        &&& self.attributes@.len() == self.nodes@.len() == self.prefixes@.len()
        &&& nodes_within(self.nodes@, length)
        &&& nodes_nest(self.nodes@)
        &&& forall|i: int, k: int|
            0 <= i < self.attributes@.len() && 0 <= k < self.attributes@[i]@.len()
                ==> self.nodes@[i].start <= (#[trigger] self.attributes@[i]@[k]).start
                <= self.attributes@[i]@[k].end <= self.nodes@[i].end
        &&& forall|i: int, k: int, l: int|
            0 <= i < self.attributes@.len() && 0 <= k < l < self.attributes@[i]@.len() ==> (
            #[trigger] self.attributes@[i]@[k]).end <= (#[trigger] self.attributes@[i]@[l]).start
    }

    /// The tree is what parsing the text gives.
    pub open spec fn parsed_from(self, text: Seq<char>) -> bool {
        &&& xml_nodes(text, NODE_LIMIT) == Ok::<Seq<NodeView>, Seq<char>>(
            self.nodes@.map_values(|n: XmlNode| n@),
        )
        &&& xml_attributes(text, NODE_LIMIT) == Ok::<Seq<Seq<AttributeView>>, Seq<char>>(
            self.attributes@.map_values(|l: Vec<XmlAttribute>| attribute_views(l@)),
        )
        &&& xml_prefixes(text, NODE_LIMIT) == Ok::<Seq<Option<Seq<char>>>, Seq<char>>(
            self.prefixes@.map_values(|t: Option<String>| crate::sheet::text_view(t)),
        )
    }
}

/// Why a text does not parse, if it does not.
pub open spec fn xml_error(text: Seq<char>) -> Option<Seq<char>> {
    match xml_nodes(text, NODE_LIMIT) {
        Err(reason) => Some(reason),
        Ok(_) => match xml_attributes(text, NODE_LIMIT) {
            Err(reason) => Some(reason),
            Ok(_) => match xml_prefixes(text, NODE_LIMIT) {
                Err(reason) => Some(reason),
                Ok(_) => None,
            },
        },
    }
}

/// Parse a part of at most 8 million nodes.
pub fn parse_xml(text: &str) -> (r: Result<Xml, Error>)
    ensures
        match r {
            Ok(xml) => xml_error(text@) is None && xml.parsed_from(text@) && xml.wf(
                utf8(text@).len() as int,
            ),
            Err(error) => xml_error(text@) == Some(error.message()),
        },
{
    let nodes = match read_nodes(text, NODE_LIMIT) {
        Ok(nodes) => nodes,
        Err(reason) => {
            return Err(Error::Xml(reason));
        },
    };
    let attributes = match read_attributes(text, NODE_LIMIT) {
        Ok(attributes) => attributes,
        Err(reason) => {
            return Err(Error::Xml(reason));
        },
    };
    let prefixes = match read_prefixes(text, NODE_LIMIT) {
        Ok(prefixes) => prefixes,
        Err(reason) => {
            return Err(Error::Xml(reason));
        },
    };
    let xml = Xml { nodes, attributes, prefixes };
    proof {
        let views = xml.nodes@.map_values(|n: XmlNode| n@);
        assert forall|i: int, k: int|
            0 <= i < xml.attributes@.len() && 0 <= k
                < xml.attributes@[i]@.len() implies xml.nodes@[i].start <= (
        #[trigger] xml.attributes@[i]@[k]).start <= xml.attributes@[i]@[k].end
            <= xml.nodes@[i].end by {
            assert(views[i] == xml.nodes@[i]@);
        }
    }
    Ok(xml)
}

/// The namespaces that a prefix stands for at each node of a part.
pub fn scopes(text: &str, prefix: &str) -> (r: Result<Vec<Option<String>>, Error>)
    ensures
        match r {
            Ok(texts) => texts_result(Ok(texts)) == xml_scopes(text@, prefix@, NODE_LIMIT)
                && one_per_node(texts@.len(), xml_nodes(text@, NODE_LIMIT)),
            Err(error) => xml_scopes(text@, prefix@, NODE_LIMIT) == Err::<
                Seq<Option<Seq<char>>>,
                Seq<char>,
            >(error.message()),
        },
{
    match read_scopes(text, prefix, NODE_LIMIT) {
        Ok(texts) => Ok(texts),
        Err(reason) => Err(Error::Xml(reason)),
    }
}

/// Append the UTF-8 bytes of a text.
pub fn push_text(out: &mut Vec<u8>, text: &str)
    ensures
        final(out)@ == old(out)@ + utf8(text@),
{
    let bytes = text.as_bytes();
    push_bytes(out, bytes);
}

/// Append bytes.
pub fn push_bytes(out: &mut Vec<u8>, bytes: &[u8])
    ensures
        final(out)@ == old(out)@ + bytes@,
{
    let ghost start = out@;
    let mut i: usize = 0;
    while i < bytes.len()
        invariant
            i <= bytes@.len(),
            out@ == start + bytes@.take(i as int),
        decreases bytes@.len() - i,
    {
        out.push(bytes[i]);
        i = i + 1;
        assert(out@ =~= start + bytes@.take(i as int));
    }
    assert(bytes@.take(bytes@.len() as int) =~= bytes@);
}

/// Replace the bytes from `start` up to `end`.
pub struct Patch {
    pub start: usize,
    pub end: usize,
    pub bytes: Vec<u8>,
}

/// A replacement: from where, up to where, and by what.
pub struct PatchView {
    pub start: int,
    pub end: int,
    pub bytes: Seq<u8>,
}

impl View for Patch {
    type V = PatchView;

    open spec fn view(&self) -> PatchView {
        PatchView { start: self.start as int, end: self.end as int, bytes: self.bytes@ }
    }
}

/// What a list of patches holds.
pub open spec fn patch_views(list: Seq<Patch>) -> Seq<PatchView> {
    list.map_values(|p: Patch| p@)
}

/// `list` with `patch` after every patch that starts no later.
pub open spec fn inserted(list: Seq<PatchView>, patch: PatchView) -> Seq<PatchView>
    decreases list.len(),
{
    if list.len() == 0 || list.last().start <= patch.start {
        list.push(patch)
    } else {
        inserted(list.drop_last(), patch).push(list.last())
    }
}

/// The patches by where they start; those that start together stay in their order.
pub open spec fn arranged(list: Seq<PatchView>) -> Seq<PatchView>
    decreases list.len(),
{
    if list.len() == 0 {
        list
    } else {
        inserted(arranged(list.drop_last()), list.last())
    }
}

/// `text` from `cursor` on with the patches made, which must not overlap.
pub open spec fn spliced_from(text: Seq<u8>, list: Seq<PatchView>, cursor: int) -> Result<
    Seq<u8>,
    Error,
>
    decreases list.len(),
{
    if list.len() == 0 {
        Ok(text.skip(cursor))
    } else if list[0].start < cursor {
        Err(Error::OverlappingXml)
    } else {
        match spliced_from(text, list.skip(1), list[0].end) {
            Err(error) => Err(error),
            Ok(rest) => Ok(text.subrange(cursor, list[0].start) + list[0].bytes + rest),
        }
    }
}

/// `text` with the patches made: every byte outside them is kept.
pub open spec fn spliced(text: Seq<u8>, list: Seq<PatchView>) -> Result<Seq<u8>, Error> {
    spliced_from(text, arranged(list), 0)
}

/// Every patch is of a part of a text of this many bytes.
pub open spec fn patches_within(list: Seq<PatchView>, length: int) -> bool {
    forall|i: int|
        0 <= i < list.len() ==> 0 <= (#[trigger] list[i]).start <= list[i].end <= length
}

proof fn inserted_at(list: Seq<PatchView>, patch: PatchView, at: int)
    requires
        0 <= at <= list.len(),
        at > 0 ==> list[at - 1].start <= patch.start,
        forall|i: int| at <= i < list.len() ==> (#[trigger] list[i]).start > patch.start,
    ensures
        inserted(list, patch) == list.insert(at, patch),
    decreases list.len(),
{
    if at == list.len() {
        assert(inserted(list, patch) =~= list.insert(at, patch));
    } else {
        let rest = list.drop_last();
        inserted_at(rest, patch, at);
        assert(list.insert(at, patch) =~= rest.insert(at, patch).push(list.last()));
    }
}

/// Put the patches in the order of where they start.
fn arrange(list: Vec<Patch>) -> (r: Vec<Patch>)
    ensures
        patch_views(r@) == arranged(patch_views(list@)),
        r@.len() == list@.len(),
{
    let ghost all = patch_views(list@);
    let mut rest = list;
    let mut turned: Vec<Patch> = Vec::new();
    // The patches are taken from the end, so they are turned round first.
    while rest.len() > 0
        invariant
            rest@.len() + turned@.len() == all.len(),
            forall|i: int| 0 <= i < rest@.len() ==> (#[trigger] rest@[i])@ == all[i],
            forall|i: int|
                0 <= i < turned@.len() ==> (#[trigger] turned@[i])@ == all[all.len() - 1 - i],
        decreases rest@.len(),
    {
        if let Some(patch) = rest.pop() {
            turned.push(patch);
        }
    }
    let mut done: Vec<Patch> = Vec::new();
    assert(patch_views(done@) =~= arranged(all.take(0)));
    while turned.len() > 0
        invariant
            done@.len() + turned@.len() == all.len(),
            patch_views(done@) == arranged(all.take(done@.len() as int)),
            forall|i: int|
                0 <= i < turned@.len() ==> (#[trigger] turned@[i])@ == all[all.len() - 1 - i],
        decreases turned@.len(),
    {
        let ghost n = done@.len() as int;
        let ghost views = patch_views(done@);
        if let Some(patch) = turned.pop() {
            let ghost new = patch@;
            let mut at: usize = done.len();
            while at > 0 && done[at - 1].start > patch.start
                invariant
                    at <= done@.len(),
                    forall|i: int|
                        at <= i < done@.len() ==> (#[trigger] done@[i]).start > patch.start,
                decreases at,
            {
                at = at - 1;
            }
            proof {
                assert forall|i: int| at <= i < views.len() implies (#[trigger] views[i]).start
                    > new.start by {
                    assert(done@[i].start > patch.start);
                }
                if at > 0 {
                    assert(views[at - 1].start == done@[at - 1].start);
                }
                inserted_at(views, new, at as int);
                assert(all.take(n + 1).drop_last() =~= all.take(n));
            }
            done.insert(at, patch);
            assert(patch_views(done@) =~= views.insert(at as int, new));
        }
    }
    assert(all.take(all.len() as int) =~= all);
    done
}

/// Arranging patches keeps each of them.
proof fn arranged_within(list: Seq<PatchView>, length: int)
    requires
        patches_within(list, length),
    ensures
        patches_within(arranged(list), length),
        arranged(list).len() == list.len(),
    decreases list.len(),
{
    if list.len() > 0 {
        assert(patches_within(list.drop_last(), length)) by {
            assert forall|i: int| 0 <= i < list.len() - 1 implies 0 <= (
            #[trigger] list.drop_last()[i]).start <= list.drop_last()[i].end <= length by {
                assert(list[i].start <= list[i].end);
            }
        }
        arranged_within(list.drop_last(), length);
        assert(0 <= list[list.len() - 1].start);
        inserted_within(arranged(list.drop_last()), list.last(), length);
    }
}

proof fn inserted_within(list: Seq<PatchView>, patch: PatchView, length: int)
    requires
        patches_within(list, length),
        0 <= patch.start <= patch.end <= length,
    ensures
        patches_within(inserted(list, patch), length),
        inserted(list, patch).len() == list.len() + 1,
    decreases list.len(),
{
    if list.len() > 0 && list.last().start > patch.start {
        let rest = list.drop_last();
        assert(patches_within(rest, length)) by {
            assert forall|i: int| 0 <= i < rest.len() implies 0 <= (#[trigger] rest[i]).start
                <= rest[i].end <= length by {
                assert(list[i].start <= list[i].end);
            }
        }
        inserted_within(rest, patch, length);
        let r = inserted(list, patch);
        assert(0 <= list[list.len() - 1].start);
        assert forall|i: int| 0 <= i < r.len() implies 0 <= (#[trigger] r[i]).start <= r[i].end
            <= length by {
            if i < r.len() - 1 {
                assert(r[i] == inserted(rest, patch)[i]);
            }
        }
    } else {
        let r = list.push(patch);
        assert forall|i: int| 0 <= i < r.len() implies 0 <= (#[trigger] r[i]).start <= r[i].end
            <= length by {
            if i < list.len() {
                assert(r[i] == list[i]);
            }
        }
    }
}

/// Preserve all of a text except the exact spans being replaced.
pub fn splice(text: &[u8], changes: Vec<Patch>) -> (r: Result<Vec<u8>, Error>)
    requires
        patches_within(patch_views(changes@), text@.len() as int),
    ensures
        match r {
            Ok(bytes) => spliced(text@, patch_views(changes@)) == Ok::<Seq<u8>, Error>(bytes@),
            Err(error) => spliced(text@, patch_views(changes@)) == Err::<Seq<u8>, Error>(error),
        },
{
    let ghost given = patch_views(changes@);
    let list = arrange(changes);
    let ghost all = patch_views(list@);
    proof {
        arranged_within(given, text@.len() as int);
    }
    let size: usize = text.len();
    let mut out: Vec<u8> = Vec::new();
    let mut cursor: usize = 0;
    let mut i: usize = 0;
    assert(all.skip(0) =~= all);
    while i < list.len()
        invariant
            i <= list@.len(),
            all == patch_views(list@),
            all == arranged(given),
            given == patch_views(changes@),
            patches_within(all, text@.len() as int),
            cursor <= text@.len() == size,
            match spliced_from(text@, all.skip(i as int), cursor as int) {
                Ok(rest) => spliced(text@, given) == Ok::<Seq<u8>, Error>(out@ + rest),
                Err(error) => spliced(text@, given) == Err::<Seq<u8>, Error>(error),
            },
        decreases list@.len() - i,
    {
        let ghost rest = all.skip(i as int);
        let ghost written = out@;
        proof {
            assert(rest[0] == list@[i as int]@);
            assert(rest.skip(1) =~= all.skip(i + 1));
            assert(all[i as int].start <= all[i as int].end);
        }
        let start = list[i].start;
        if start < cursor {
            return Err(Error::OverlappingXml);
        }
        push_bytes(&mut out, slice_subrange(text, cursor, start));
        push_bytes(&mut out, list[i].bytes.as_slice());
        proof {
            match spliced_from(text@, rest.skip(1), rest[0].end) {
                Ok(tail) => {
                    assert(out@ + tail =~= written + (text@.subrange(
                        cursor as int,
                        start as int,
                    ) + rest[0].bytes + tail));
                },
                Err(_) => {},
            }
        }
        cursor = list[i].end;
        i = i + 1;
    }
    push_bytes(&mut out, slice_subrange(text, cursor, size));
    assert(text@.subrange(cursor as int, size as int) =~= text@.skip(cursor as int));
    Ok(out)
}

/// Without patches a text is kept.
pub proof fn splice_of_nothing_keeps_text(text: Seq<u8>)
    ensures
        spliced(text, Seq::empty()) == Ok::<Seq<u8>, Error>(text),
{
    assert(text.skip(0) =~= text);
}

/// Patches that put back what they replace keep a text, wherever they do not overlap.
pub proof fn splice_of_same_keeps_text(text: Seq<u8>, list: Seq<PatchView>, cursor: int)
    requires
        0 <= cursor <= text.len(),
        patches_within(list, text.len() as int),
        forall|i: int|
            0 <= i < list.len() ==> (#[trigger] list[i]).bytes == text.subrange(
                list[i].start,
                list[i].end,
            ),
    ensures
        spliced_from(text, list, cursor) matches Ok(bytes) ==> bytes == text.skip(cursor),
    decreases list.len(),
{
    if list.len() > 0 && list[0].start >= cursor {
        let rest = list.skip(1);
        assert forall|i: int| 0 <= i < rest.len() implies 0 <= (#[trigger] rest[i]).start
            <= rest[i].end <= text.len() && rest[i].bytes == text.subrange(
            rest[i].start,
            rest[i].end,
        ) by {
            assert(rest[i] == list[i + 1]);
        }
        assert(patches_within(rest, text.len() as int));
        splice_of_same_keeps_text(text, rest, list[0].end);
        match spliced_from(text, rest, list[0].end) {
            Ok(bytes) => {
                assert(text.subrange(cursor, list[0].start) + list[0].bytes + bytes =~= text.skip(
                    cursor,
                ));
            },
            Err(_) => {},
        }
    }
}

} // verus!
