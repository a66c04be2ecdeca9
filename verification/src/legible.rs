//! What counts of the cells of a workbook that are to be read.
use crate::a1::is_letter;
use crate::sound::{
    begins_string, brackets_in, cell_over, columns_in, columns_of, digits_in, extent_of, is_calm,
    is_inner, is_table_cell, letters_in, reach_of, strings_from,
};
use crate::text::{is_digit, number};
use crate::xml::{AttributeView, NodeView};
use vstd::prelude::*;

verus! {

/// The node is of the same string as the last of the list that is not past it.
pub open spec fn is_of_last(nodes: Seq<NodeView>, heads: Seq<int>, m: int) -> bool {
    exists|i: int|
        0 <= i < heads.len() && #[trigger] heads[i] <= m && (i + 1 < heads.len() ==> m < heads[i
            + 1]) && nodes[m].parent == nodes[heads[i]].parent
}

/// The nodes of a list begin the strings of a part, one after another: every other text or
/// run is of the string that began last.
pub open spec fn are_heads(nodes: Seq<NodeView>, heads: Seq<int>) -> bool {
    &&& forall|i: int| 0 <= i < heads.len() ==> 0 <= #[trigger] heads[i] < nodes.len()
    &&& forall|i: int, j: int|
        0 <= i < j < heads.len() ==> #[trigger] heads[i] < #[trigger] heads[j]
    &&& forall|i: int| 0 <= i < heads.len() ==> begins_string(nodes, #[trigger] heads[i])
    &&& forall|i: int|
        0 < i < heads.len() ==> nodes[#[trigger] heads[i]].parent != nodes[heads[i - 1]].parent
    &&& forall|m: int|
        0 <= m < nodes.len() && begins_string(nodes, m) ==> #[trigger] is_of_last(nodes, heads, m)
}

proof fn heads_are_counted(nodes: Seq<NodeView>, heads: Seq<int>, m: int, i: int)
    requires
        are_heads(nodes, heads),
        forall|n: int| 0 <= n < nodes.len() ==> !#[trigger] is_inner(nodes, n),
        0 <= m <= nodes.len(),
        0 <= i <= heads.len(),
        forall|n: int| 0 <= n < i ==> #[trigger] heads[n] < m,
        forall|n: int| i <= n < heads.len() ==> m <= #[trigger] heads[n],
    ensures
        strings_from(
            nodes,
            m,
            if i == 0 {
                None
            } else {
                nodes[heads[i - 1]].parent
            },
        ) == heads.len() - i,
    decreases nodes.len() - m,
{
    let last = if i == 0 {
        None
    } else {
        nodes[heads[i - 1]].parent
    };
    if m < nodes.len() {
        assert(!is_inner(nodes, m));
        if i < heads.len() && heads[i] == m {
            assert(begins_string(nodes, heads[i]));
            heads_are_counted(nodes, heads, m + 1, i + 1);
        } else {
            if begins_string(nodes, m) {
                assert(is_of_last(nodes, heads, m));
                let n = choose|n: int|
                    0 <= n < heads.len() && #[trigger] heads[n] <= m && (n + 1 < heads.len() ==> m
                        < heads[n + 1]) && nodes[m].parent == nodes[heads[n]].parent;
                assert(n == i - 1) by {
                    if n >= i {
                        assert(m <= heads[n]);
                        if n > i {
                            assert(heads[i] < heads[n]);
                        }
                    }
                    if n < i - 1 {
                        assert(heads[n + 1] < m);
                    }
                }
            }
            heads_are_counted(nodes, heads, m + 1, i);
        }
    } else {
        if i < heads.len() {
            assert(m <= heads[i]);
        }
    }
}

/// The shared strings of a part are as many as begin in it.
pub proof fn every_shared_string_counts(nodes: Seq<NodeView>, heads: Seq<int>)
    requires
        are_heads(nodes, heads),
        forall|n: int| 0 <= n < nodes.len() ==> !#[trigger] is_inner(nodes, n),
    ensures
        strings_from(nodes, 0, None) == heads.len(),
{
    heads_are_counted(nodes, heads, 0, 0);
}

/// A text with another behind it has the digits, letters and brackets of both.
pub proof fn counts_add_up(a: Seq<char>, b: Seq<char>)
    ensures
        digits_in(a + b) == digits_in(a) + digits_in(b),
        letters_in(a + b) == letters_in(a) + letters_in(b),
        brackets_in(a + b) == brackets_in(a) + brackets_in(b),
    decreases b.len(),
{
    if b.len() == 0 {
        assert(a + b =~= a);
    } else {
        counts_add_up(a, b.drop_last());
        assert((a + b).drop_last() =~= a + b.drop_last());
        assert((a + b).last() == b.last());
    }
}

/// One character counts once, or not at all.
pub proof fn characters_count_once(c: char)
    ensures
        digits_in(seq![c]) == if '0' <= c && c <= '9' {
            1nat
        } else {
            0
        },
        letters_in(seq![c]) == if 'a' <= c && c <= 'z' || 'A' <= c && c <= 'Z' {
            1nat
        } else {
            0
        },
        brackets_in(seq![c]) == if c == '[' {
            1nat
        } else {
            0
        },
{
    let s = seq![c];
    assert(s.drop_last() =~= Seq::<char>::empty());
    assert(digits_in(s.drop_last()) == 0);
    assert(letters_in(s.drop_last()) == 0);
    assert(brackets_in(s.drop_last()) == 0);
}

/// A sheet reaches the last row and the last column of any of its cells, and no further.
pub proof fn extents_reach_every_cell(
    nodes: Seq<NodeView>,
    lists: Seq<Seq<AttributeView>>,
    n: int,
    size: (int, int),
)
    requires
        0 <= n,
        size.0 >= 0,
        size.1 >= 0,
        forall|k: int|
            0 <= k < n ==> (#[trigger] reach_of(nodes, lists, k)).0 <= size.0 && reach_of(
                nodes,
                lists,
                k,
            ).1 <= size.1,
    ensures
        extent_of(nodes, lists, n).0 <= size.0,
        extent_of(nodes, lists, n).1 <= size.1,
        forall|k: int|
            0 <= k < n ==> (#[trigger] reach_of(nodes, lists, k)).0 <= extent_of(nodes, lists, n).0
                && reach_of(nodes, lists, k).1 <= extent_of(nodes, lists, n).1,
    decreases n,
{
    if n > 0 {
        extents_reach_every_cell(nodes, lists, n - 1, size);
        assert(reach_of(nodes, lists, n - 1).0 <= size.0);
    }
}

/// The nodes over a node, each the parent of the one before it.
pub open spec fn are_over(nodes: Seq<NodeView>, k: int, over: Seq<int>) -> bool {
    forall|i: int|
        0 <= i < over.len() ==> {
            let below = if i == 0 {
                k
            } else {
                over[i - 1]
            };
            0 <= #[trigger] over[i] < below && nodes[below].parent == Some(over[i] as usize)
                && over[i] <= usize::MAX
        }
}

/// A node is in the nearest cell over it, at whatever depth.
pub proof fn nodes_are_in_the_nearest_cell(nodes: Seq<NodeView>, k: int, over: Seq<int>)
    requires
        are_over(nodes, k, over),
        over.len() > 0,
        nodes[over.last()].name == "c"@,
        forall|i: int| 0 <= i < over.len() - 1 ==> nodes[#[trigger] over[i]].name != "c"@,
    ensures
        cell_over(nodes, k) == Some(over.last()),
    decreases over.len(),
{
    assert(0 <= over[0] < k);
    if over.len() > 1 {
        let rest = over.skip(1);
        assert(nodes[over[0]].name != "c"@);
        assert forall|i: int| 0 <= i < rest.len() implies ({
            let below = if i == 0 {
                over[0]
            } else {
                rest[i - 1]
            };
            0 <= #[trigger] rest[i] < below && nodes[below].parent == Some(rest[i] as usize)
                && rest[i] <= usize::MAX
        }) by {
            assert(0 <= over[i + 1]);
        }
        assert forall|i: int| 0 <= i < rest.len() - 1 implies nodes[#[trigger] rest[i]].name
            != "c"@ by {
            assert(nodes[over[i + 1]].name != "c"@);
        }
        nodes_are_in_the_nearest_cell(nodes, over[0], rest);
    }
}

/// A node with no cell over it, up to the root, is in none.
pub proof fn nodes_under_no_cell_are_in_none(nodes: Seq<NodeView>, k: int, over: Seq<int>)
    requires
        are_over(nodes, k, over),
        nodes[if over.len() > 0 {
            over.last()
        } else {
            k
        }].parent is None,
        forall|i: int| 0 <= i < over.len() ==> nodes[#[trigger] over[i]].name != "c"@,
    ensures
        cell_over(nodes, k) is None,
    decreases over.len(),
{
    if over.len() > 0 {
        assert(0 <= over[0] < k);
        let rest = over.skip(1);
        assert(nodes[over[0]].name != "c"@);
        assert forall|i: int| 0 <= i < rest.len() implies ({
            let below = if i == 0 {
                over[0]
            } else {
                rest[i - 1]
            };
            0 <= #[trigger] rest[i] < below && nodes[below].parent == Some(rest[i] as usize)
                && rest[i] <= usize::MAX
        }) by {
            assert(0 <= over[i + 1]);
        }
        assert forall|i: int| 0 <= i < rest.len() implies nodes[#[trigger] rest[i]].name
            != "c"@ by {
            assert(nodes[over[i + 1]].name != "c"@);
        }
        if rest.len() == 0 {
            assert(over.last() == over[0]);
        } else {
            assert(rest.last() == over.last());
        }
        nodes_under_no_cell_are_in_none(nodes, over[0], rest);
    }
}

/// The columns before each node that the cells of a row take.
pub open spec fn are_sums(
    nodes: Seq<NodeView>,
    lists: Seq<Seq<AttributeView>>,
    p: int,
    sums: Seq<int>,
) -> bool {
    &&& sums.len() == nodes.len() + 1
    &&& sums[0] == 0
    &&& forall|n: int|
        0 <= n < nodes.len() ==> #[trigger] sums[n + 1] == sums[n] + if is_table_cell(nodes[n])
            && nodes[n].parent == Some(p as usize) {
            columns_of(lists[n], 0) as int
        } else {
            0
        }
}

/// A row takes the columns of all its cells, each as often as it is repeated.
pub proof fn every_cell_takes_its_columns(
    nodes: Seq<NodeView>,
    lists: Seq<Seq<AttributeView>>,
    p: int,
    sums: Seq<int>,
    n: int,
)
    requires
        are_sums(nodes, lists, p, sums),
        0 <= n <= nodes.len(),
    ensures
        columns_in(nodes, lists, p, n) == sums[n],
    decreases n,
{
    if n > 0 {
        every_cell_takes_its_columns(nodes, lists, p, sums, n - 1);
        assert(sums[(n - 1) + 1] == sums[n]);
    }
}

/// A cell is repeated as its first such attribute says, and stands once without one.
pub proof fn cells_are_repeated_as_they_say(list: Seq<AttributeView>, k: int, j: int)
    requires
        0 <= j <= k <= list.len(),
        forall|i: int|
            0 <= i < k ==> (#[trigger] list[i]).name != "number-columns-repeated"@,
        k < list.len() ==> list[k].name == "number-columns-repeated"@,
    ensures
        columns_of(list, j) == if k < list.len() {
            number(list[k].value)
        } else {
            1
        },
    decreases k - j,
{
    if j < k {
        assert(list[j].name != "number-columns-repeated"@);
        cells_are_repeated_as_they_say(list, k, j + 1);
    }
}

proof fn calm_goes_on(a: Seq<char>, b: Seq<char>, j: int, letters: nat, digits: nat, quoted: bool)
    requires
        0 <= j,
    ensures
        is_calm(a + b, a.len() + j, letters, digits, quoted) == is_calm(
            b,
            j,
            letters,
            digits,
            quoted,
        ),
    decreases b.len() - j,
{
    let s = a + b;
    if j < b.len() {
        assert(s[a.len() + j] == b[j]);
        let i = a.len() + j;
        calm_goes_on(a, b, j + 1, 0, 0, !quoted);
        calm_goes_on(a, b, j + 1, 0, 0, true);
        calm_goes_on(a, b, j + 1, 0, 0, false);
        calm_goes_on(
            a,
            b,
            j + 1,
            if digits > 0 {
                1
            } else {
                letters + 1
            },
            0,
            false,
        );
        calm_goes_on(a, b, j + 1, letters, digits + 1, false);
        assert(i + 1 == a.len() + (j + 1));
    }
}

proof fn calm_splits(
    a: Seq<char>,
    c: char,
    b: Seq<char>,
    i: int,
    letters: nat,
    digits: nat,
)
    requires
        0 <= i <= a.len(),
        forall|k: int| 0 <= k < a.len() ==> #[trigger] a[k] != '"',
        c != '"' && !is_letter(c) && !is_digit(c),
    ensures
        is_calm(a + seq![c] + b, i, letters, digits, false) == (is_calm(
            a,
            i,
            letters,
            digits,
            false,
        ) && is_calm(b, 0, 0, 0, false)),
    decreases a.len() - i,
{
    let s = a + seq![c] + b;
    if i < a.len() {
        assert(s[i] == a[i]);
        assert(a[i] != '"');
        calm_splits(
            a,
            c,
            b,
            i + 1,
            if digits > 0 {
                1
            } else {
                letters + 1
            },
            0,
        );
        calm_splits(a, c, b, i + 1, letters, digits + 1);
        calm_splits(a, c, b, i + 1, 0, 0);
    } else {
        assert(s[i] == c);
        calm_goes_on(a + seq![c], b, 0, 0, 0, false);
        assert((a + seq![c]).len() == i + 1);
    }
}

/// Names in a formula are looked at one by one: of two parts with a character between them
/// that is in no name, each counts by itself.
pub proof fn names_count_one_by_one(a: Seq<char>, c: char, b: Seq<char>)
    requires
        forall|k: int| 0 <= k < a.len() ==> #[trigger] a[k] != '"',
        c != '"' && !is_letter(c) && !is_digit(c),
    ensures
        is_calm(a + seq![c] + b, 0, 0, 0, false) <==> is_calm(a, 0, 0, 0, false) && is_calm(
            b,
            0,
            0,
            0,
            false,
        ),
{
    calm_splits(a, c, b, 0, 0, 0);
}

proof fn digits_are_calm(s: Seq<char>, i: int, letters: nat, digits: nat)
    requires
        0 <= i <= s.len(),
        letters <= 6,
        forall|k: int| i <= k < s.len() ==> is_digit(#[trigger] s[k]),
        digits + (s.len() - i) <= 9,
    ensures
        is_calm(s, i, letters, digits, false),
    decreases s.len() - i,
{
    if i < s.len() {
        assert(is_digit(s[i]));
        digits_are_calm(s, i + 1, letters, digits + 1);
    }
}

proof fn names_are_calm(a: Seq<char>, b: Seq<char>, i: int, letters: nat)
    requires
        0 <= i <= a.len(),
        letters == i,
        a.len() <= 6,
        b.len() <= 9,
        forall|k: int| 0 <= k < a.len() ==> is_letter(#[trigger] a[k]),
        forall|k: int| 0 <= k < b.len() ==> is_digit(#[trigger] b[k]),
    ensures
        is_calm(a + b, i, letters, 0, false),
    decreases a.len() - i,
{
    let s = a + b;
    if i < a.len() {
        assert(s[i] == a[i]);
        assert(is_letter(a[i]));
        names_are_calm(a, b, i + 1, letters + 1);
    } else {
        assert forall|k: int| i <= k < s.len() implies is_digit(#[trigger] s[k]) by {
            assert(s[k] == b[k - a.len()]);
        }
        digits_are_calm(s, i, letters, 0);
    }
}

/// A name of up to six letters and up to nine digits is one that a formula can hold.
pub proof fn short_names_can_be_read(a: Seq<char>, b: Seq<char>)
    requires
        a.len() <= 6,
        b.len() <= 9,
        forall|k: int| 0 <= k < a.len() ==> is_letter(#[trigger] a[k]),
        forall|k: int| 0 <= k < b.len() ==> is_digit(#[trigger] b[k]),
    ensures
        is_calm(a + b, 0, 0, 0, false),
{
    names_are_calm(a, b, 0, 0);
}

} // verus!
