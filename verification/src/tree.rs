//! Walking the tree of an XML part, and writing its tags anew.
use crate::error::Error;
use crate::text::same;
use crate::xml::{push_bytes, push_text, splice, Patch, Xml, XmlAttribute, XmlNode};
use vstd::prelude::*;
use vstd::slice::slice_subrange;

verus! {

/// The first node from `j` on that is not inside node `i`: nodes are in document order, so
/// what is inside a node follows it, up to the first node whose parent comes before it.
pub open spec fn inside_until(nodes: Seq<XmlNode>, i: int, j: int) -> int
    decreases nodes.len() - j,
{
    if j >= nodes.len() {
        nodes.len() as int
    } else if nodes[j].parent is Some && nodes[j].parent->0 >= i {
        inside_until(nodes, i, j + 1)
    } else {
        j
    }
}

/// The node past those inside node `i`.
pub open spec fn end_of(nodes: Seq<XmlNode>, i: int) -> int {
    inside_until(nodes, i, i + 1)
}

/// The node is an element with this name in this namespace.
pub open spec fn is_tag(node: XmlNode, namespace: Seq<char>, name: Seq<char>) -> bool {
    node.element && crate::sheet::text_view(node.namespace) == Some(namespace) && node.name@ == name
}

/// The node is a child of node `i`.
pub open spec fn is_child(node: XmlNode, i: int) -> bool {
    node.parent is Some && node.parent->0 == i
}

/// The first attribute with this local name, in whatever namespace.
pub open spec fn local_attribute(list: Seq<XmlAttribute>, name: Seq<char>) -> Option<XmlAttribute>
    decreases list.len(),
{
    if list.len() == 0 {
        None
    } else if list[0].name@ == name {
        Some(list[0])
    } else {
        local_attribute(list.skip(1), name)
    }
}

/// The first attribute with this name in this namespace.
pub open spec fn full_attribute(
    list: Seq<XmlAttribute>,
    namespace: Seq<char>,
    name: Seq<char>,
) -> Option<XmlAttribute>
    decreases list.len(),
{
    if list.len() == 0 {
        None
    } else if list[0].name@ == name && crate::sheet::text_view(list[0].namespace) == Some(
        namespace,
    ) {
        Some(list[0])
    } else {
        full_attribute(list.skip(1), namespace, name)
    }
}

/// The value of an attribute, where there is one.
pub open spec fn value_of(attribute: Option<XmlAttribute>) -> Option<Seq<char>> {
    match attribute {
        Some(a) => Some(a.value@),
        None => None,
    }
}

/// The value of the attribute of node `i` with this local name.
pub open spec fn value(doc: Xml, i: int, name: Seq<char>) -> Option<Seq<char>> {
    value_of(local_attribute(doc.attributes@[i]@, name))
}

/// The value of the attribute of node `i` with this namespace and local name.
pub open spec fn value_in(doc: Xml, i: int, namespace: Seq<char>, name: Seq<char>) -> Option<
    Seq<char>,
> {
    value_of(full_attribute(doc.attributes@[i]@, namespace, name))
}

/// Whether an optional text is there and holds the same characters.
pub fn is_text(text: &Option<String>, other: &str) -> (r: bool)
    ensures
        r == (crate::sheet::text_view(*text) == Some(other@)),
{
    match text {
        Some(t) => same(t.as_str(), other),
        None => false,
    }
}

/// ASCII white space.
pub open spec fn is_space(b: u8) -> bool {
    b == 32 || 9 <= b <= 13
}

/// The bytes without white space at their end.
pub open spec fn without_end_spaces(bytes: Seq<u8>) -> Seq<u8>
    decreases bytes.len(),
{
    if bytes.len() > 0 && is_space(bytes.last()) {
        without_end_spaces(bytes.drop_last())
    } else {
        bytes
    }
}

/// The bytes without slashes at their end.
pub open spec fn without_end_slashes(bytes: Seq<u8>) -> Seq<u8>
    decreases bytes.len(),
{
    if bytes.len() > 0 && bytes.last() == 47 {
        without_end_slashes(bytes.drop_last())
    } else {
        bytes
    }
}

/// The first `>` at or after a place; the length where there is none.
pub open spec fn tag_close(text: Seq<u8>, from: int) -> int
    decreases text.len() - from,
{
    if from >= text.len() {
        text.len() as int
    } else if text[from] == 62 {
        from
    } else {
        tag_close(text, from + 1)
    }
}

/// The last place before `to`, and not before `from`, where `</` stands.
pub open spec fn last_end_tag(text: Seq<u8>, from: int, to: int) -> Option<int>
    decreases to - from,
{
    if to - from < 2 {
        None
    } else if text[to - 2] == 60 && text[to - 1] == 47 {
        Some(to - 2)
    } else {
        last_end_tag(text, from, to - 1)
    }
}

/// The bytes from `start` up to `end` close with `/>`.
pub open spec fn is_empty_element(text: Seq<u8>, start: int, end: int) -> bool {
    let t = without_end_spaces(text.subrange(start, end));
    t.len() >= 2 && t[t.len() - 2] == 47 && t.last() == 62
}

/// The namespace of an attribute; the empty text where it has none.
pub open spec fn namespace_of(a: XmlAttribute) -> Seq<char> {
    match a.namespace {
        Some(n) => n@,
        None => Seq::empty(),
    }
}

/// The list names the attribute by namespace and name.
pub open spec fn names_attribute(list: Seq<(Seq<char>, Seq<char>)>, a: XmlAttribute) -> bool {
    list.contains((namespace_of(a), a.name@))
}

/// The characters of pairs of texts.
pub open spec fn pair_views(list: Seq<(&str, &str)>) -> Seq<(Seq<char>, Seq<char>)> {
    list.map_values(|p: (&str, &str)| (p.0@, p.1@))
}

/// What takes the named ones of the first `n` attributes out of the tag that starts at
/// `start`.
pub open spec fn removals(
    list: Seq<XmlAttribute>,
    remove: Seq<(Seq<char>, Seq<char>)>,
    start: int,
    n: int,
) -> Seq<crate::xml::PatchView>
    decreases n,
{
    if n <= 0 {
        Seq::empty()
    } else {
        let before = removals(list, remove, start, n - 1);
        let a = list[n - 1];
        if names_attribute(remove, a) {
            before.push(
                crate::xml::PatchView {
                    start: a.start - start,
                    end: a.end - start,
                    bytes: Seq::empty(),
                },
            )
        } else {
            before
        }
    }
}

fn is_named(remove: &Vec<(&str, &str)>, a: &XmlAttribute) -> (r: bool)
    ensures
        r == names_attribute(pair_views(remove@), *a),
{
    let ghost list = pair_views(remove@);
    let ghost namespace = namespace_of(*a);
    proof {
        reveal_strlit("");
        assert(""@ =~= Seq::<char>::empty());
    }
    let mut i: usize = 0;
    while i < remove.len()
        invariant
            i <= remove@.len(),
            list == pair_views(remove@),
            ""@ == Seq::<char>::empty(),
            namespace == namespace_of(*a),
            forall|k: int| 0 <= k < i ==> #[trigger] list[k] != (namespace, a.name@),
        decreases remove@.len() - i,
    {
        let (ns, name) = remove[i];
        assert(list[i as int] == (ns@, name@));
        let same_namespace = match &a.namespace {
            Some(n) => same(n.as_str(), ns),
            None => same("", ns),
        };
        if same_namespace && same(a.name.as_str(), name) {
            assert(list.contains((namespace, a.name@)));
            return true;
        }
        i = i + 1;
    }
    false
}

impl Xml {
    /// Where the attributes of an element end; where it starts if it has none.
    pub open spec fn attributes_end(self, i: int) -> int {
        if self.attributes@[i]@.len() > 0 {
            self.attributes@[i]@.last().end as int
        } else {
            self.nodes@[i].start as int
        }
    }

    /// The start tag of an element without the named attributes and with `extra` at its
    /// end, open even where the element was empty.
    pub open spec fn tag_of(
        self,
        text: Seq<u8>,
        i: int,
        remove: Seq<(Seq<char>, Seq<char>)>,
        extra: Seq<u8>,
    ) -> Result<Seq<u8>, Error> {
        let start = self.nodes@[i].start as int;
        let list = self.attributes@[i]@;
        let end = tag_close(text, self.attributes_end(i));
        if end >= text.len() {
            Err(Error::MissingTagEnd)
        } else {
            match crate::xml::spliced(
                text.subrange(start, end),
                removals(list, remove, start, list.len() as int),
            ) {
                Err(error) => Err(error),
                Ok(tag) => Ok(
                    without_end_slashes(without_end_spaces(tag)) + extra + seq![62u8],
                ),
            }
        }
    }

    /// The prefixed name of an element in the namespace of node `i`.
    pub open spec fn qualified_of(self, i: int, local: Seq<char>) -> Seq<u8> {
        match crate::sheet::text_view(self.prefixes@[i]) {
            Some(prefix) => crate::xml::utf8(prefix) + seq![58u8] + crate::xml::utf8(local),
            None => crate::xml::utf8(local),
        }
    }

    /// The first node after the subtree of node `i`.
    pub fn end(&self, i: usize) -> (r: usize)
        requires
            i < self.nodes@.len(),
        ensures
            r == end_of(self.nodes@, i as int),
            i < r <= self.nodes@.len(),
    {
        let count: usize = self.nodes.len();
        let mut j: usize = i + 1;
        while j < count && self.is_under(j, i)
            invariant
                i < j <= self.nodes@.len() == count,
                end_of(self.nodes@, i as int) == inside_until(self.nodes@, i as int, j as int),
            decreases self.nodes@.len() - j,
        {
            j = j + 1;
        }
        j
    }

    fn is_under(&self, j: usize, i: usize) -> (r: bool)
        requires
            j < self.nodes@.len(),
        ensures
            r == (self.nodes@[j as int].parent is Some && self.nodes@[j as int].parent->0 >= i),
    {
        match self.nodes[j].parent {
            Some(p) => p >= i,
            None => false,
        }
    }

    /// Whether node `i` is an element with this namespace and name.
    pub fn has_tag(&self, i: usize, namespace: &str, name: &str) -> (r: bool)
        requires
            i < self.nodes@.len(),
        ensures
            r == is_tag(self.nodes@[i as int], namespace@, name@),
    {
        self.nodes[i].element && is_text(&self.nodes[i].namespace, namespace) && same(
            self.nodes[i].name.as_str(),
            name,
        )
    }

    /// Whether node `i` has this local name.
    pub fn is_named(&self, i: usize, name: &str) -> (r: bool)
        requires
            i < self.nodes@.len(),
        ensures
            r == (self.nodes@[i as int].name@ == name@),
    {
        same(self.nodes[i].name.as_str(), name)
    }

    /// Whether node `j` is a child of node `i`.
    pub fn child_of(&self, j: usize, i: usize) -> (r: bool)
        requires
            j < self.nodes@.len(),
        ensures
            r == is_child(self.nodes@[j as int], i as int),
    {
        match self.nodes[j].parent {
            Some(p) => p == i,
            None => false,
        }
    }

    /// The attribute of node `i` with this local name.
    pub fn attribute(&self, i: usize, name: &str) -> (r: Option<&XmlAttribute>)
        requires
            i < self.attributes@.len(),
        ensures
            match r {
                Some(a) => local_attribute(self.attributes@[i as int]@, name@) == Some(*a)
                    && exists|k: int|
                    0 <= k < self.attributes@[i as int]@.len()
                        && #[trigger] self.attributes@[i as int]@[k] == *a,
                None => local_attribute(self.attributes@[i as int]@, name@) is None,
            },
    {
        let list = &self.attributes[i];
        let mut k: usize = 0;
        assert(list@.skip(0) =~= list@);
        while k < list.len()
            invariant
                i < self.attributes@.len(),
                *list == self.attributes@[i as int],
                k <= list@.len(),
                local_attribute(list@, name@) == local_attribute(list@.skip(k as int), name@),
            decreases list@.len() - k,
        {
            assert(list@.skip(k as int).skip(1) =~= list@.skip(k + 1));
            if same(list[k].name.as_str(), name) {
                assert(self.attributes@[i as int]@[k as int] == list@[k as int]);
                return Some(&list[k]);
            }
            k = k + 1;
        }
        None
    }

    /// The attribute of node `i` with this namespace and name.
    pub fn attribute_in(&self, i: usize, namespace: &str, name: &str) -> (r: Option<&XmlAttribute>)
        requires
            i < self.attributes@.len(),
        ensures
            match r {
                Some(a) => full_attribute(self.attributes@[i as int]@, namespace@, name@) == Some(
                    *a,
                ) && exists|k: int|
                    0 <= k < self.attributes@[i as int]@.len()
                        && #[trigger] self.attributes@[i as int]@[k] == *a,
                None => full_attribute(self.attributes@[i as int]@, namespace@, name@) is None,
            },
    {
        let list = &self.attributes[i];
        let mut k: usize = 0;
        assert(list@.skip(0) =~= list@);
        while k < list.len()
            invariant
                i < self.attributes@.len(),
                *list == self.attributes@[i as int],
                k <= list@.len(),
                full_attribute(list@, namespace@, name@) == full_attribute(
                    list@.skip(k as int),
                    namespace@,
                    name@,
                ),
            decreases list@.len() - k,
        {
            assert(list@.skip(k as int).skip(1) =~= list@.skip(k + 1));
            if same(list[k].name.as_str(), name) && is_text(&list[k].namespace, namespace) {
                assert(self.attributes@[i as int]@[k as int] == list@[k as int]);
                return Some(&list[k]);
            }
            k = k + 1;
        }
        None
    }

    /// The prefixed name of an element in the namespace of node `i`.
    pub fn qualified(&self, i: usize, local: &str) -> (r: Vec<u8>)
        requires
            i < self.prefixes@.len(),
        ensures
            r@ == self.qualified_of(i as int, local@),
    {
        let mut name: Vec<u8> = Vec::new();
        if let Some(prefix) = &self.prefixes[i] {
            push_text(&mut name, prefix.as_str());
            name.push(58);
        }
        push_text(&mut name, local);
        assert(name@ =~= self.qualified_of(i as int, local@));
        name
    }

    /// The start tag of an element without the named attributes and with `extra` at its
    /// end.
    pub fn start_tag(
        &self,
        text: &[u8],
        i: usize,
        remove: &Vec<(&str, &str)>,
        extra: &Vec<u8>,
    ) -> (r: Result<Vec<u8>, Error>)
        requires
            i < self.nodes@.len(),
            self.wf(text@.len() as int),
        ensures
            match r {
                Ok(tag) => self.tag_of(text@, i as int, pair_views(remove@), extra@) == Ok::<
                    Seq<u8>,
                    Error,
                >(tag@),
                Err(error) => self.tag_of(text@, i as int, pair_views(remove@), extra@) == Err::<
                    Seq<u8>,
                    Error,
                >(error),
            },
    {
        let start = self.nodes[i].start;
        let list = &self.attributes[i];
        let ghost named = pair_views(remove@);
        proof {
            assert(self.nodes@[i as int].start <= self.nodes@[i as int].end);
        }
        // Attribute values may contain '>'; use the parser's last attribute boundary.
        let from: usize = if list.len() > 0 {
            let last = list.len() - 1;
            assert(self.attributes@[i as int]@[last as int].end <= text@.len());
            list[last].end
        } else {
            start
        };
        let end = find_close(text, from);
        if end >= text.len() {
            return Err(Error::MissingTagEnd);
        }
        let mut changes: Vec<Patch> = Vec::new();
        let mut k: usize = 0;
        assert(crate::xml::patch_views(changes@) =~= Seq::empty());
        while k < list.len()
            invariant
                i < self.nodes@.len(),
                self.wf(text@.len() as int),
                *list == self.attributes@[i as int],
                start == self.nodes@[i as int].start,
                named == pair_views(remove@),
                k <= list@.len(),
                crate::xml::patch_views(changes@) == removals(
                    list@,
                    named,
                    start as int,
                    k as int,
                ),
                from == self.attributes_end(i as int),
                from <= end <= text@.len(),
                crate::xml::patches_within(crate::xml::patch_views(changes@), end - start),
            decreases list@.len() - k,
        {
            let a = &list[k];
            let ghost earlier = crate::xml::patch_views(changes@);
            proof {
                assert(start <= self.attributes@[i as int]@[k as int].start
                    <= self.attributes@[i as int]@[k as int].end);
                let last = list@.len() - 1;
                if k < last {
                    assert(self.attributes@[i as int]@[k as int].end
                        <= self.attributes@[i as int]@[last].start);
                    assert(self.attributes@[i as int]@[last].start
                        <= self.attributes@[i as int]@[last].end);
                }
            }
            if is_named(remove, a) {
                changes.push(
                    Patch { start: a.start - start, end: a.end - start, bytes: Vec::new() },
                );
                proof {
                    let now = crate::xml::patch_views(changes@);
                    let added = crate::xml::PatchView {
                        start: a.start - start,
                        end: a.end - start,
                        bytes: Seq::empty(),
                    };
                    assert(now.last().bytes =~= Seq::empty());
                    assert(now =~= earlier.push(added));
                    assert forall|j: int| 0 <= j < now.len() implies 0 <= (#[trigger] now[j]).start
                        <= now[j].end <= end - start by {
                        if j < earlier.len() {
                            assert(now[j] == earlier[j]);
                        }
                    }
                }
            }
            k = k + 1;
        }
        assert(start <= from);
        match splice(slice_subrange(text, start, end), changes) {
            Err(error) => Err(error),
            Ok(tag) => {
                let mut tag = tag;
                let ghost full = tag@;
                while tag.len() > 0 && space_byte(tag[tag.len() - 1])
                    invariant
                        without_end_spaces(tag@) == without_end_spaces(full),
                    decreases tag@.len(),
                {
                    let ghost was = tag@;
                    tag.pop();
                    assert(tag@ =~= was.drop_last());
                }
                let ghost trimmed = tag@;
                while tag.len() > 0 && tag[tag.len() - 1] == 47
                    invariant
                        without_end_slashes(tag@) == without_end_slashes(trimmed),
                    decreases tag@.len(),
                {
                    let ghost was = tag@;
                    tag.pop();
                    assert(tag@ =~= was.drop_last());
                }
                let ghost bare = tag@;
                push_bytes(&mut tag, extra.as_slice());
                tag.push(62);
                assert(tag@ =~= bare + extra@ + seq![62u8]);
                Ok(tag)
            },
        }
    }
}

fn space_byte(b: u8) -> (r: bool)
    ensures
        r == is_space(b),
{
    b == 32 || 9 <= b && b <= 13
}

/// Whether the bytes from `start` up to `end` close with `/>`.
pub fn empty_element(text: &[u8], start: usize, end: usize) -> (r: bool)
    requires
        start <= end <= text@.len(),
    ensures
        r == is_empty_element(text@, start as int, end as int),
{
    let mut to: usize = end;
    let ghost all = text@.subrange(start as int, end as int);
    while to > start && space_byte(text[to - 1])
        invariant
            start <= to <= end <= text@.len(),
            without_end_spaces(text@.subrange(start as int, to as int)) == without_end_spaces(
                all,
            ),
        decreases to - start,
    {
        assert(text@.subrange(start as int, to as int).drop_last() =~= text@.subrange(
            start as int,
            to - 1,
        ));
        to = to - 1;
    }
    let ghost t = text@.subrange(start as int, to as int);
    assert(without_end_spaces(all) == t);
    to - start >= 2 && text[to - 2] == 47 && text[to - 1] == 62
}

/// The last place before `to`, and not before `from`, where `</` stands.
pub fn find_end_tag(text: &[u8], from: usize, to: usize) -> (r: Option<usize>)
    requires
        from <= to <= text@.len(),
    ensures
        match r {
            Some(at) => last_end_tag(text@, from as int, to as int) == Some(at as int) && from <= at
                <= to - 2,
            None => last_end_tag(text@, from as int, to as int) is None,
        },
{
    let mut end: usize = to;
    while end - from >= 2
        invariant
            from <= end <= to <= text@.len(),
            last_end_tag(text@, from as int, to as int) == last_end_tag(
                text@,
                from as int,
                end as int,
            ),
        decreases end - from,
    {
        if text[end - 2] == 60 && text[end - 1] == 47 {
            return Some(end - 2);
        }
        end = end - 1;
    }
    None
}

/// The first `>` at or after a place; the length where there is none.
pub fn find_close(text: &[u8], from: usize) -> (r: usize)
    requires
        from <= text@.len(),
    ensures
        r == tag_close(text@, from as int),
        from <= r <= text@.len(),
{
    let mut i: usize = from;
    while i < text.len() && text[i] != 62
        invariant
            from <= i <= text@.len(),
            tag_close(text@, from as int) == tag_close(text@, i as int),
        decreases text@.len() - i,
    {
        i = i + 1;
    }
    i
}

} // verus!
