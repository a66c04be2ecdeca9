//! What ODS cells show, how far their tables reach, and where relationships lead.
use crate::error::Error;
use crate::inside::{is_inside, nodes_end_where_nothing_is_inside};
use crate::ods::{children_text, shown_text};
use crate::package::{path_text, target_of, walked, OFFICE, TEXT};
use crate::scan::paragraphs;
use crate::spared::are_inside;
use crate::text::parts;
use crate::tree::{end_of, is_tag};
use crate::xml::Xml;
use vstd::prelude::*;

verus! {

/// The node is neither text nor an element that stands for some of its own.
pub open spec fn is_plain(doc: Xml, i: int) -> bool {
    &&& !doc.nodes@[i].is_text
    &&& !is_tag(doc.nodes@[i], TEXT@, "tab"@)
    &&& !is_tag(doc.nodes@[i], TEXT@, "line-break"@)
    &&& !is_tag(doc.nodes@[i], TEXT@, "s"@)
    &&& !is_tag(doc.nodes@[i], OFFICE@, "annotation"@)
}

/// The node shows this text.
pub open spec fn does_show(doc: Xml, i: int, text: Seq<char>) -> bool {
    shown_text(doc, i) == Ok::<Seq<char>, Error>(text)
}

/// What single nodes show: a text itself, a tab, a line break or so many spaces, and nothing
/// of an annotation.
pub proof fn single_nodes_show(doc: Xml, i: int, n: nat)
    requires
        0 <= i < doc.nodes@.len(),
    ensures
        doc.nodes@[i].is_text && doc.nodes@[i].text is Some ==> does_show(
            doc,
            i,
            doc.nodes@[i].text->0@,
        ),
        !doc.nodes@[i].is_text && is_tag(doc.nodes@[i], TEXT@, "tab"@) ==> does_show(
            doc,
            i,
            seq!['\t'],
        ),
        !doc.nodes@[i].is_text && is_tag(doc.nodes@[i], TEXT@, "line-break"@) ==> does_show(
            doc,
            i,
            seq!['\n'],
        ),
        !doc.nodes@[i].is_text && is_tag(doc.nodes@[i], OFFICE@, "annotation"@) ==> does_show(
            doc,
            i,
            Seq::empty(),
        ),
        !doc.nodes@[i].is_text && is_tag(doc.nodes@[i], TEXT@, "s"@) && (
        crate::inside::holds_value_in(
            doc.attributes@[i]@,
            TEXT@,
            "c"@,
            crate::text::decimal(n),
        )) && n <= 134_217_728 ==> does_show(doc, i, Seq::new(n, |k: int| ' ')),
{
    reveal_strlit("tab");
    reveal_strlit("line-break");
    reveal_strlit("annotation");
    reveal_strlit("s");
    assert("tab"@.len() == 3 && "line-break"@.len() == 10 && "annotation"@.len() == 10 && "s"@.len()
        == 1);
    assert("line-break"@[0] == 'l' && "annotation"@[0] == 'a');
    crate::inside::values_are_of_the_first_full_attribute(
        doc,
        i,
        TEXT@,
        "c"@,
        crate::text::decimal(n),
    );
    crate::text::decimal_reads_back(n);
    if n <= 134_217_728 {
        crate::counted::unsigned_numbers_are_read(crate::text::decimal(n), n);
    }
    assert(crate::ods::spaces(n) =~= Seq::new(n, |k: int| ' '));
}

/// The texts of the nodes of a list, that of each behind those of the nodes before it.
pub open spec fn are_texts(doc: Xml, list: Seq<int>, texts: Seq<Seq<char>>) -> bool {
    &&& texts.len() == list.len() + 1
    &&& texts[0] == Seq::<char>::empty()
    &&& forall|m: int|
        0 <= m < list.len() ==> exists|text: Seq<char>| #[trigger]
            does_show(doc, list[m], text) && #[trigger] texts[m + 1] == texts[m] + text
}

proof fn children_are_shown(
    doc: Xml,
    i: int,
    list: Seq<int>,
    texts: Seq<Seq<char>>,
    j: int,
    m: int,
)
    requires
        0 <= i < j <= end_of(doc.nodes@, i) <= doc.nodes@.len(),
        are_inside(doc, i, list),
        are_texts(doc, list, texts),
        0 <= m <= list.len(),
        forall|n: int| 0 <= n < m ==> #[trigger] list[n] < j,
        forall|n: int| m <= n < list.len() ==> j <= #[trigger] list[n] < end_of(doc.nodes@, i),
        forall|n: int|
            j <= n < end_of(doc.nodes@, i) ==> ((#[trigger] doc.nodes@[n]).parent == Some(
                i as usize,
            ) <==> list.contains(n)),
        i <= usize::MAX,
    ensures
        children_text(doc, i, j, end_of(doc.nodes@, i)) matches Ok(rest) && texts[m] + rest
            == texts.last(),
    decreases end_of(doc.nodes@, i) - j,
{
    let end = end_of(doc.nodes@, i);
    if j < end {
        if doc.nodes@[j].parent == Some(i as usize) {
            assert(list.contains(j));
            let n = choose|n: int| 0 <= n < list.len() && list[n] == j;
            assert(n == m) by {
                if n < m {
                    assert(list[n] < j);
                }
                if n > m {
                    assert(list[m] < list[n]);
                }
            }
            children_are_shown(doc, i, list, texts, j + 1, m + 1);
            assert(texts[m + 1] == texts[m + 1]);
            let first = choose|text: Seq<char>| #[trigger]
                does_show(doc, list[m], text) && texts[m + 1] == texts[m] + text;
            let rest = children_text(doc, i, j + 1, end)->Ok_0;
            assert(texts[m] + (first + rest) =~= texts[m] + first + rest);
        } else {
            if m < list.len() && list[m] == j {
                assert(list.contains(j));
            }
            children_are_shown(doc, i, list, texts, j + 1, m);
        }
    } else {
        if m < list.len() {
            assert(j <= list[m]);
        }
        assert(texts[m] + Seq::<char>::empty() =~= texts[m]);
    }
}

/// Any other element shows what its children show, all of them and in their order.
pub proof fn elements_show_every_child(doc: Xml, i: int, list: Seq<int>, texts: Seq<Seq<char>>)
    requires
        0 <= i < doc.nodes@.len(),
        is_plain(doc, i),
        are_inside(doc, i, list),
        are_texts(doc, list, texts),
        forall|j: int|
            is_inside(doc.nodes@, i, j) ==> ((#[trigger] doc.nodes@[j]).parent == Some(i as usize)
                <==> list.contains(j)),
    ensures
        does_show(doc, i, texts.last()),
{
    let end = end_of(doc.nodes@, i);
    assert(doc.nodes.len() == doc.nodes@.len());
    nodes_end_where_nothing_is_inside(doc.nodes@, i, i + 1);
    assert forall|m: int| 0 <= m < list.len() implies i + 1 <= #[trigger] list[m] < end by {
        nodes_end_where_nothing_is_inside(doc.nodes@, i, list[m]);
    }
    assert forall|j: int| i + 1 <= j < end implies ((#[trigger] doc.nodes@[j]).parent == Some(
        i as usize,
    ) <==> list.contains(j)) by {
        nodes_end_where_nothing_is_inside(doc.nodes@, i, j);
    }
    children_are_shown(doc, i, list, texts, i + 1, 0);
    let rest = children_text(doc, i, i + 1, end)->Ok_0;
    assert(Seq::<char>::empty() + rest =~= rest);
}

/// Node `j` is a paragraph of node `i`.
pub open spec fn is_paragraph(doc: Xml, i: int, j: int) -> bool {
    doc.nodes@[j].parent == Some(i as usize) && is_tag(doc.nodes@[j], TEXT@, "p"@)
}

/// The texts of the paragraphs of a list, with a line feed between each and the next.
pub open spec fn are_lines(doc: Xml, list: Seq<int>, texts: Seq<Seq<char>>) -> bool {
    &&& texts.len() == list.len() + 1
    &&& texts[0] == Seq::<char>::empty()
    &&& forall|m: int|
        0 <= m < list.len() ==> exists|text: Seq<char>| #[trigger]
            does_show(doc, list[m], text) && #[trigger] texts[m + 1] == if m == 0 {
                text
            } else {
                texts[m] + seq!['\n'] + text
            }
}

proof fn paragraphs_are_joined(
    doc: Xml,
    i: int,
    list: Seq<int>,
    texts: Seq<Seq<char>>,
    j: int,
    m: int,
)
    requires
        0 <= i < j <= end_of(doc.nodes@, i) <= doc.nodes@.len(),
        are_inside(doc, i, list),
        are_lines(doc, list, texts),
        0 <= m <= list.len(),
        forall|n: int| 0 <= n < m ==> #[trigger] list[n] < j,
        forall|n: int| m <= n < list.len() ==> j <= #[trigger] list[n] < end_of(doc.nodes@, i),
        forall|n: int|
            j <= n < end_of(doc.nodes@, i) ==> (#[trigger] is_paragraph(doc, i, n)
                <==> list.contains(n)),
        i <= usize::MAX,
    ensures
        paragraphs(doc, i, j, end_of(doc.nodes@, i), m == 0) matches Ok(rest) && texts[m] + rest
            == texts.last(),
    decreases end_of(doc.nodes@, i) - j,
{
    let end = end_of(doc.nodes@, i);
    if j < end {
        if is_paragraph(doc, i, j) {
            assert(list.contains(j));
            let n = choose|n: int| 0 <= n < list.len() && list[n] == j;
            assert(n == m) by {
                if n < m {
                    assert(list[n] < j);
                }
                if n > m {
                    assert(list[m] < list[n]);
                }
            }
            paragraphs_are_joined(doc, i, list, texts, j + 1, m + 1);
            assert(texts[m + 1] == texts[m + 1]);
            let first = choose|text: Seq<char>| #[trigger]
                does_show(doc, list[m], text) && texts[m + 1] == if m == 0 {
                    text
                } else {
                    texts[m] + seq!['\n'] + text
                };
            let rest = paragraphs(doc, i, j + 1, end, false)->Ok_0;
            if m == 0 {
                assert(texts[0] + (first + rest) =~= first + rest);
            } else {
                assert(texts[m] + (seq!['\n'] + first + rest) =~= texts[m] + seq!['\n'] + first
                    + rest);
            }
        } else {
            if m < list.len() && list[m] == j {
                assert(list.contains(j));
            }
            paragraphs_are_joined(doc, i, list, texts, j + 1, m);
        }
    } else {
        if m < list.len() {
            assert(j <= list[m]);
        }
        assert(texts[m] + Seq::<char>::empty() =~= texts[m]);
    }
}

/// The paragraphs of a cell are all read, in their order, a line feed between each and the
/// next.
pub proof fn every_paragraph_is_a_line(doc: Xml, i: int, list: Seq<int>, texts: Seq<Seq<char>>)
    requires
        0 <= i < doc.nodes@.len(),
        are_inside(doc, i, list),
        are_lines(doc, list, texts),
        forall|j: int|
            is_inside(doc.nodes@, i, j) ==> (#[trigger] is_paragraph(doc, i, j)
                <==> list.contains(j)),
    ensures
        paragraphs(doc, i, i + 1, end_of(doc.nodes@, i), true) == Ok::<Seq<char>, Error>(
            texts.last(),
        ),
{
    let end = end_of(doc.nodes@, i);
    assert(doc.nodes.len() == doc.nodes@.len());
    nodes_end_where_nothing_is_inside(doc.nodes@, i, i + 1);
    assert forall|m: int| 0 <= m < list.len() implies i + 1 <= #[trigger] list[m] < end by {
        nodes_end_where_nothing_is_inside(doc.nodes@, i, list[m]);
    }
    assert forall|j: int| i + 1 <= j < end implies (#[trigger] is_paragraph(doc, i, j)
        <==> list.contains(j)) by {
        nodes_end_where_nothing_is_inside(doc.nodes@, i, j);
    }
    paragraphs_are_joined(doc, i, list, texts, i + 1, 0);
    let rest = paragraphs(doc, i, i + 1, end, true)->Ok_0;
    assert(Seq::<char>::empty() + rest =~= rest);
}

/// The steps of two paths, one behind the other, are those of both.
proof fn steps_join(a: Seq<char>, b: Seq<char>)
    ensures
        parts(a + seq!['/'] + b, '/') == parts(a, '/') + parts(b, '/'),
    decreases a.len(),
{
    let s = a + seq!['/'] + b;
    let n = crate::text::first_of(a, '/');
    crate::text::first_of_bounds(a, '/');
    if n < a.len() {
        assert forall|i: int| 0 <= i < n implies s[i] != '/' by {
            assert(a[i] != '/');
        }
        crate::text::first_of_is(s, '/', n);
        assert(s.take(n) =~= a.take(n));
        assert(s.skip(n + 1) =~= a.skip(n + 1) + seq!['/'] + b);
        steps_join(a.skip(n + 1), b);
        assert(parts(s, '/') =~= parts(a, '/') + parts(b, '/'));
    } else {
        assert forall|i: int| 0 <= i < a.len() implies s[i] != '/' by {
            assert(a[i] != '/');
        }
        crate::text::first_of_is(s, '/', a.len() as int);
        assert(s.take(a.len() as int) =~= a);
        assert(s.skip(a.len() as int + 1) =~= b);
        assert(parts(s, '/') =~= parts(a, '/') + parts(b, '/'));
    }
}

proof fn walk_starts_alike(a: Seq<Seq<char>>, b: Seq<Seq<char>>, n: int)
    requires
        0 <= n <= a.len(),
        n <= b.len(),
        forall|i: int| 0 <= i < n ==> a[i] == b[i],
    ensures
        walked(a, n) == walked(b, n),
    decreases n,
{
    if n > 0 {
        walk_starts_alike(a, b, n - 1);
    }
}

/// Walks that agree at a place go on alike.
proof fn walk_goes_on(a: Seq<Seq<char>>, x: int, b: Seq<Seq<char>>, y: int, n: int)
    requires
        0 <= x,
        0 <= y,
        0 <= n,
        x + n <= a.len(),
        y + n <= b.len(),
        walked(a, x) == walked(b, y),
        forall|i: int| 0 <= i < n ==> #[trigger] a[x + i] == b[y + i],
    ensures
        walked(a, x + n) == walked(b, y + n),
    decreases n,
{
    if n > 0 {
        walk_goes_on(a, x, b, y, n - 1);
        assert(a[x + (n - 1)] == b[y + (n - 1)]);
    }
}

/// A step into a directory and back, and a step to where the path is, lead nowhere else.
pub proof fn steps_back_and_in_place_do_not_count(a: Seq<char>, x: Seq<char>, b: Seq<char>)
    requires
        a.len() > 0 && a[0] != '/',
        x != ""@ && x != "."@ && x != ".."@,
        forall|i: int| 0 <= i < x.len() ==> #[trigger] x[i] != '/',
    ensures
        target_of(""@, a + seq!['/'] + (x + seq!['/'] + (".."@ + seq!['/'] + b))) == target_of(
            ""@,
            a + seq!['/'] + b,
        ),
        target_of(""@, a + seq!['/'] + ("."@ + seq!['/'] + b)) == target_of(
            ""@,
            a + seq!['/'] + b,
        ),
        target_of(""@, a + seq!['/'] + (seq!['/'] + b)) == target_of(""@, a + seq!['/'] + b),
{
    reveal_strlit("");
    reveal_strlit(".");
    reveal_strlit("..");
    assert(".."@.len() == 2 && "."@.len() == 1 && ""@.len() == 0);
    assert(".."@[0] == '.' && ".."@[1] == '.' && "."@[0] == '.');
    let up = ".."@ + seq!['/'] + b;
    let round = x + seq!['/'] + up;
    let here = "."@ + seq!['/'] + b;
    let twice = seq!['/'] + b;
    assert(twice =~= ""@ + seq!['/'] + b);
    let pa = parts(a, '/');
    let pb = parts(b, '/');
    one_step(x);
    one_step(".."@);
    one_step("."@);
    one_step(""@);
    steps_join(a, round);
    steps_join(x, up);
    steps_join(".."@, b);
    steps_join(a, here);
    steps_join("."@, b);
    steps_join(a, twice);
    steps_join(""@, b);
    steps_join(a, b);
    let plain = pa + pb;
    let k = pa.len() as int;
    let n = pb.len() as int;
    let s1 = pa + (seq![x] + (seq![".."@] + pb));
    let s2 = pa + (seq!["."@] + pb);
    let s3 = pa + (seq![""@] + pb);
    rest_is_the_same(a, round);
    rest_is_the_same(a, here);
    rest_is_the_same(a, twice);
    rest_is_the_same(a, b);
    walk_starts_alike(s1, plain, k);
    assert(s1[k] == x && s1[k + 1] == ".."@);
    assert(walked(s1, k + 2) == walked(plain, k)) by {
        if let Some(path) = walked(s1, k) {
            assert(walked(s1, k + 1) == Some(path.push(x)));
            assert(path.push(x).drop_last() =~= path);
        } else {
            assert(walked(s1, k + 1) is None);
        }
    }
    walk_goes_on(s1, k + 2, plain, k, n);
    walk_starts_alike(s2, plain, k);
    assert(s2[k] == "."@);
    assert(walked(s2, k + 1) == walked(plain, k));
    walk_goes_on(s2, k + 1, plain, k, n);
    walk_starts_alike(s3, plain, k);
    assert(s3[k] == ""@);
    assert(walked(s3, k + 1) == walked(plain, k));
    walk_goes_on(s3, k + 1, plain, k, n);
}

proof fn one_step(x: Seq<char>)
    requires
        forall|i: int| 0 <= i < x.len() ==> #[trigger] x[i] != '/',
    ensures
        parts(x, '/') == seq![x],
{
    crate::text::first_of_is(x, '/', x.len() as int);
}

proof fn rest_is_the_same(a: Seq<char>, b: Seq<char>)
    requires
        a.len() > 0 && a[0] != '/',
    ensures
        crate::package::target_steps(""@, a + seq!['/'] + b) == parts(a + seq!['/'] + b, '/'),
{
    reveal_strlit("");
    let s = a + seq!['/'] + b;
    assert(s[0] == a[0]);
    assert(""@ + s =~= s);
}

/// A path of names alone is itself, and a target goes on from its base.
pub proof fn plain_targets_are_kept(base: Seq<char>, relative: Seq<char>)
    requires
        forall|k: int|
            0 <= k < parts(base + relative, '/').len() ==> ({
                let step = #[trigger] parts(base + relative, '/')[k];
                step != ""@ && step != "."@ && step != ".."@
            }),
        relative.len() > 0 ==> relative[0] != '/',
    ensures
        target_of(base, relative) == Ok::<Seq<char>, Error>(base + relative),
{
    let s = base + relative;
    let steps = parts(s, '/');
    names_are_walked(steps, steps.len() as int);
    assert(steps.take(steps.len() as int) =~= steps);
    crate::counted::parts_make_up_the_text(s, '/', 0);
    path_is_joined(steps);
}

proof fn names_are_walked(steps: Seq<Seq<char>>, n: int)
    requires
        0 <= n <= steps.len(),
        forall|k: int|
            0 <= k < steps.len() ==> #[trigger] steps[k] != ""@ && steps[k] != "."@ && steps[k]
                != ".."@,
    ensures
        walked(steps, n) == Some(steps.take(n)),
    decreases n,
{
    if n > 0 {
        names_are_walked(steps, n - 1);
        assert(steps.take(n) =~= steps.take(n - 1).push(steps[n - 1]));
    } else {
        assert(steps.take(0) =~= Seq::empty());
    }
}

proof fn path_is_joined(path: Seq<Seq<char>>)
    ensures
        path_text(path) == crate::counted::parts_joined(path, '/'),
    decreases path.len(),
{
    reveal_strlit("/");
    assert("/"@ =~= seq!['/']);
    if path.len() == 2 {
        assert(path.drop_last() =~= seq![path[0]]);
        assert(path.skip(1) =~= seq![path[1]]);
        assert(path_text(path.drop_last()) == path[0]);
        assert(crate::counted::parts_joined(path.skip(1), '/') == path[1]);
    } else if path.len() > 2 {
        let front = path.drop_last();
        let rest = path.skip(1);
        let inner = front.skip(1);
        path_is_joined(front);
        path_is_joined(rest);
        path_is_joined(inner);
        assert(inner =~= rest.drop_last());
        assert(rest.last() == path.last());
        assert(front[0] == path[0]);
        let text = path_text(inner);
        assert(path_text(front) == path[0] + seq!['/'] + text);
        assert(path_text(rest) == text + seq!['/'] + path.last());
        assert(path_text(path) == path[0] + seq!['/'] + text + seq!['/'] + path.last());
        assert(path[0] + seq!['/'] + text + seq!['/'] + path.last() =~= path[0] + seq!['/'] + (text
            + seq!['/'] + path.last()));
    }
}

} // verus!
