//! What the tree of a part holds: nodes inside others, and their attributes.
use crate::tree::{end_of, full_attribute, inside_until, local_attribute, value, value_in};
use crate::xml::{Xml, XmlAttribute, XmlNode};
use vstd::prelude::*;

verus! {

/// Node `j` is inside node `i`: it follows it, and so do the parents of all nodes between.
pub open spec fn is_inside(nodes: Seq<XmlNode>, i: int, j: int) -> bool {
    &&& i < j < nodes.len()
    &&& forall|m: int|
        i < m <= j ==> ((#[trigger] nodes[m]).parent matches Some(p) && p >= i)
}

proof fn inside_goes_on(nodes: Seq<XmlNode>, i: int, from: int, j: int)
    requires
        0 <= i < from <= j < nodes.len(),
        forall|m: int| i < m < from ==> ((#[trigger] nodes[m]).parent matches Some(p) && p >= i),
    ensures
        is_inside(nodes, i, j) <==> j < inside_until(nodes, i, from),
        from <= inside_until(nodes, i, from) <= nodes.len(),
    decreases nodes.len() - from,
{
    if nodes[from].parent is Some && nodes[from].parent->0 >= i {
        if from < j {
            inside_goes_on(nodes, i, from + 1, j);
        } else {
            until_goes_on(nodes, i, from + 1);
        }
    } else {
        assert(!(nodes[from].parent matches Some(p) && p >= i));
    }
}

proof fn until_goes_on(nodes: Seq<XmlNode>, i: int, from: int)
    requires
        from <= nodes.len(),
    ensures
        from <= inside_until(nodes, i, from) <= nodes.len(),
    decreases nodes.len() - from,
{
    if from < nodes.len() {
        until_goes_on(nodes, i, from + 1);
    }
}

/// What is inside a node is what comes after it and before its end.
pub proof fn nodes_end_where_nothing_is_inside(nodes: Seq<XmlNode>, i: int, j: int)
    requires
        0 <= i < nodes.len(),
    ensures
        is_inside(nodes, i, j) <==> i < j < end_of(nodes, i),
        i < end_of(nodes, i) <= nodes.len(),
{
    until_goes_on(nodes, i, i + 1);
    if i < j < nodes.len() {
        inside_goes_on(nodes, i, i + 1, j);
    }
}

/// The first of the attributes with this name has this value.
pub open spec fn holds_value(list: Seq<XmlAttribute>, name: Seq<char>, text: Seq<char>) -> bool {
    exists|k: int|
        {
            &&& 0 <= k < list.len()
            &&& (#[trigger] list[k]).name@ == name
            &&& list[k].value@ == text
            &&& forall|m: int| 0 <= m < k ==> (#[trigger] list[m]).name@ != name
        }
}

/// The attribute has this name in this namespace.
pub open spec fn is_full(a: XmlAttribute, namespace: Seq<char>, name: Seq<char>) -> bool {
    a.name@ == name && (a.namespace matches Some(n) && n@ == namespace)
}

/// The first of the attributes with this name in this namespace has this value.
pub open spec fn holds_value_in(
    list: Seq<XmlAttribute>,
    namespace: Seq<char>,
    name: Seq<char>,
    text: Seq<char>,
) -> bool {
    exists|k: int|
        {
            &&& 0 <= k < list.len()
            &&& is_full(#[trigger] list[k], namespace, name)
            &&& list[k].value@ == text
            &&& forall|m: int| 0 <= m < k ==> !is_full(#[trigger] list[m], namespace, name)
        }
}

proof fn first_local(list: Seq<XmlAttribute>, name: Seq<char>) -> (k: int)
    ensures
        0 <= k <= list.len(),
        forall|m: int| 0 <= m < k ==> (#[trigger] list[m]).name@ != name,
        k < list.len() ==> list[k].name@ == name && local_attribute(list, name) == Some(list[k]),
        k == list.len() ==> local_attribute(list, name) is None,
    decreases list.len(),
{
    if list.len() == 0 || list[0].name@ == name {
        0
    } else {
        let k = first_local(list.skip(1), name);
        assert forall|m: int| 0 <= m < k + 1 implies (#[trigger] list[m]).name@ != name by {
            if m > 0 {
                assert(list[m] == list.skip(1)[m - 1]);
            }
        }
        k + 1
    }
}

proof fn first_full(list: Seq<XmlAttribute>, namespace: Seq<char>, name: Seq<char>) -> (k: int)
    ensures
        0 <= k <= list.len(),
        forall|m: int| 0 <= m < k ==> !is_full(#[trigger] list[m], namespace, name),
        k < list.len() ==> is_full(list[k], namespace, name) && full_attribute(
            list,
            namespace,
            name,
        ) == Some(list[k]),
        k == list.len() ==> full_attribute(list, namespace, name) is None,
    decreases list.len(),
{
    if list.len() == 0 || is_full(list[0], namespace, name) {
        0
    } else {
        let k = first_full(list.skip(1), namespace, name);
        assert forall|m: int| 0 <= m < k + 1 implies !is_full(
            #[trigger] list[m],
            namespace,
            name,
        ) by {
            if m > 0 {
                assert(list[m] == list.skip(1)[m - 1]);
            }
        }
        k + 1
    }
}

/// The value of an attribute is that of the first with its name.
pub proof fn values_are_of_the_first_attribute(doc: Xml, i: int, name: Seq<char>, text: Seq<char>)
    ensures
        value(doc, i, name) == Some(text) <==> holds_value(doc.attributes@[i]@, name, text),
        value(doc, i, name) is None <==> forall|k: int|
            0 <= k < doc.attributes@[i]@.len() ==> (#[trigger] doc.attributes@[i]@[k]).name@
                != name,
{
    let list = doc.attributes@[i]@;
    let k = first_local(list, name);
    if k < list.len() {
        assert(list[k].name@ == name);
        assert(holds_value(list, name, list[k].value@));
    }
    if holds_value(list, name, text) {
        let m = choose|m: int|
            {
                &&& 0 <= m < list.len()
                &&& (#[trigger] list[m]).name@ == name
                &&& list[m].value@ == text
                &&& forall|l: int| 0 <= l < m ==> (#[trigger] list[l]).name@ != name
            };
        if m < k {
            assert(list[m].name@ != name);
        } else if k < m {
            assert(list[k].name@ != name);
        }
    }
}

/// The value of an attribute in a namespace is that of the first with its name in it.
pub proof fn values_are_of_the_first_full_attribute(
    doc: Xml,
    i: int,
    namespace: Seq<char>,
    name: Seq<char>,
    text: Seq<char>,
)
    ensures
        value_in(doc, i, namespace, name) == Some(text) <==> holds_value_in(
            doc.attributes@[i]@,
            namespace,
            name,
            text,
        ),
        value_in(doc, i, namespace, name) is None <==> forall|k: int|
            0 <= k < doc.attributes@[i]@.len() ==> !is_full(
                #[trigger] doc.attributes@[i]@[k],
                namespace,
                name,
            ),
{
    let list = doc.attributes@[i]@;
    let k = first_full(list, namespace, name);
    if k < list.len() {
        assert(is_full(list[k], namespace, name));
        assert(holds_value_in(list, namespace, name, list[k].value@));
    }
    if holds_value_in(list, namespace, name, text) {
        let m = choose|m: int|
            {
                &&& 0 <= m < list.len()
                &&& is_full(#[trigger] list[m], namespace, name)
                &&& list[m].value@ == text
                &&& forall|l: int| 0 <= l < m ==> !is_full(#[trigger] list[l], namespace, name)
            };
        if m < k {
            assert(!is_full(list[m], namespace, name));
        } else if k < m {
            assert(!is_full(list[k], namespace, name));
        }
    }
}

} // verus!
