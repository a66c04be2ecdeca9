//! Where patches stand in a text once they are made.
use crate::error::Error;
use crate::xml::{arranged, inserted, patches_within, spliced, spliced_from, PatchView};
use vstd::prelude::*;

verus! {

/// Patch `i` of a list comes before patch `j`: it starts earlier, or they start together and
/// it is earlier in the list.
pub open spec fn precedes(list: Seq<PatchView>, i: int, j: int) -> bool {
    list[i].start < list[j].start || list[i].start == list[j].start && i < j
}

/// The list by where the patches start.
spec fn in_order(list: Seq<PatchView>) -> bool {
    forall|i: int, j: int|
        0 <= i < j < list.len() ==> (#[trigger] list[i]).start <= (#[trigger] list[j]).start
}

/// Where a patch goes among patches that are in order.
proof fn insertion(list: Seq<PatchView>, patch: PatchView) -> (at: int)
    requires
        in_order(list),
    ensures
        0 <= at <= list.len(),
        inserted(list, patch) == list.insert(at, patch),
        forall|i: int| 0 <= i < at ==> (#[trigger] list[i]).start <= patch.start,
        forall|i: int| at <= i < list.len() ==> (#[trigger] list[i]).start > patch.start,
        in_order(inserted(list, patch)),
    decreases list.len(),
{
    if list.len() == 0 || list.last().start <= patch.start {
        let at = list.len() as int;
        assert(inserted(list, patch) =~= list.insert(at, patch));
        assert forall|i: int| 0 <= i < at implies (#[trigger] list[i]).start <= patch.start by {
            if i < list.len() - 1 {
                assert(list[i].start <= list[list.len() - 1].start);
            }
        }
        at
    } else {
        let rest = list.drop_last();
        assert forall|i: int, j: int| 0 <= i < j < rest.len() implies (#[trigger] rest[i]).start
            <= (#[trigger] rest[j]).start by {
            assert(list[i].start <= list[j].start);
        }
        let at = insertion(rest, patch);
        assert(list.insert(at, patch) =~= rest.insert(at, patch).push(list.last()));
        let all = inserted(list, patch);
        assert forall|i: int| 0 <= i < at implies (#[trigger] list[i]).start <= patch.start by {
            assert(rest[i] == list[i]);
        }
        assert forall|i: int| at <= i < list.len() implies (#[trigger] list[i]).start
            > patch.start by {
            if i < rest.len() {
                assert(rest[i] == list[i]);
            }
        }
        assert forall|i: int, j: int| 0 <= i < j < all.len() implies (#[trigger] all[i]).start
            <= (#[trigger] all[j]).start by {
            let (a, b) = (
                if i < at {
                    i
                } else {
                    i - 1
                },
                if j < at {
                    j
                } else {
                    j - 1
                },
            );
            if i != at && j != at {
                assert(all[i] == list[a] && all[j] == list[b]);
                assert(list[a].start <= list[b].start);
            } else if i == at {
                assert(all[j] == list[b]);
                assert(list[b].start > patch.start);
            } else {
                assert(all[i] == list[a]);
                assert(list[a].start <= patch.start);
            }
        }
        at
    }
}

/// Where each patch of a list stands among the arranged ones, and which patch stands there.
proof fn arrangement(list: Seq<PatchView>) -> (r: (Seq<int>, Seq<int>))
    ensures
        arranged(list).len() == list.len(),
        in_order(arranged(list)),
        r.0.len() == list.len(),
        r.1.len() == list.len(),
        forall|i: int|
            0 <= i < list.len() ==> 0 <= #[trigger] r.0[i] < list.len() && arranged(list)[r.0[i]]
                == list[i] && r.1[r.0[i]] == i,
        forall|p: int|
            0 <= p < list.len() ==> 0 <= #[trigger] r.1[p] < list.len() && r.0[r.1[p]] == p,
        forall|i: int, j: int|
            0 <= i < list.len() && 0 <= j < list.len() && precedes(list, i, j)
                ==> #[trigger] r.0[i] < #[trigger] r.0[j],
    decreases list.len(),
{
    if list.len() == 0 {
        (Seq::empty(), Seq::empty())
    } else {
        let rest = list.drop_last();
        let n = rest.len() as int;
        let (to, back) = arrangement(rest);
        let order = arranged(rest);
        let at = insertion(order, list.last());
        let all = arranged(list);
        assert(all == order.insert(at, list.last()));
        let moved = Seq::new(
            list.len(),
            |i: int|
                if i == n {
                    at
                } else if to[i] < at {
                    to[i]
                } else {
                    to[i] + 1
                },
        );
        let found = Seq::new(
            list.len(),
            |p: int|
                if p == at {
                    n
                } else if p < at {
                    back[p]
                } else {
                    back[p - 1]
                },
        );
        assert forall|i: int| 0 <= i < list.len() implies 0 <= #[trigger] moved[i] < list.len()
            && all[moved[i]] == list[i] && found[moved[i]] == i by {
            if i < n {
                assert(order[to[i]] == rest[i]);
                assert(rest[i] == list[i]);
            }
        }
        assert forall|p: int| 0 <= p < list.len() implies 0 <= #[trigger] found[p] < list.len()
            && moved[found[p]] == p by {
            if p < at {
                assert(to[back[p]] == p);
            } else if p > at {
                assert(to[back[p - 1]] == p - 1);
            }
        }
        assert forall|i: int, j: int|
            0 <= i < list.len() && 0 <= j < list.len() && precedes(list, i, j) implies
            #[trigger] moved[i] < #[trigger] moved[j] by {
            if i < n && j < n {
                assert(rest[i] == list[i] && rest[j] == list[j]);
                assert(precedes(rest, i, j));
                assert(to[i] < to[j]);
            } else if i == n {
                assert(order[to[j]] == list[j]);
                if to[j] < at {
                    assert(order[to[j]].start <= list[n].start);
                }
            } else {
                assert(order[to[i]] == list[i]);
                if to[i] >= at {
                    assert(order[to[i]].start > list[n].start);
                }
            }
        }
        (moved, found)
    }
}

/// Patches in order are made one after the other: the text between them is kept.
proof fn made_in_order(text: Seq<u8>, list: Seq<PatchView>, cursor: int, p: int) -> (r: (
    Seq<u8>,
    Seq<u8>,
))
    requires
        spliced_from(text, list, cursor) is Ok,
        patches_within(list, text.len() as int),
        0 <= cursor <= text.len(),
        0 <= p < list.len(),
    ensures
        spliced_from(text, list, cursor)->Ok_0 == r.0 + list[p].bytes + r.1,
        p == 0 ==> r.0 == text.subrange(cursor, list[0].start) && cursor <= list[0].start,
        p == list.len() - 1 ==> r.1 == text.skip(list[p].end),
        p < list.len() - 1 ==> list[p].end <= list[p + 1].start && exists|c: Seq<u8>|
            r.1 == #[trigger] (text.subrange(list[p].end, list[p + 1].start) + list[p + 1].bytes
                + c),
    decreases list.len(),
{
    let rest = list.skip(1);
    let tail = spliced_from(text, rest, list[0].end)->Ok_0;
    assert(list[0].start <= list[0].end <= text.len());
    assert forall|i: int| 0 <= i < rest.len() implies 0 <= (#[trigger] rest[i]).start
        <= rest[i].end <= text.len() by {
        assert(rest[i] == list[i + 1]);
        assert(0 <= list[i + 1].start <= list[i + 1].end <= text.len());
    }
    let head = text.subrange(cursor, list[0].start);
    let whole = spliced_from(text, list, cursor)->Ok_0;
    assert(whole == head + list[0].bytes + tail);
    if p == 0 {
        if list.len() > 1 {
            let (a, b) = made_in_order(text, rest, list[0].end, 0);
            assert(rest[0] == list[1]);
            assert(tail == text.subrange(list[0].end, list[1].start) + list[1].bytes + b);
        }
        (head, tail)
    } else {
        let (a, b) = made_in_order(text, rest, list[0].end, p - 1);
        assert(rest[p - 1] == list[p]);
        if p < list.len() - 1 {
            assert(rest[p] == list[p + 1]);
        }
        let front = head + list[0].bytes + a;
        assert(whole =~= front + list[p].bytes + b);
        (front, b)
    }
}

proof fn starts_do_not_go_back(text: Seq<u8>, list: Seq<PatchView>, cursor: int, p: int, q: int)
    requires
        spliced_from(text, list, cursor) is Ok,
        patches_within(list, text.len() as int),
        0 <= cursor <= text.len(),
        0 <= p < q < list.len(),
    ensures
        list[p].end <= list[q].start,
    decreases q - p,
{
    let (a, b) = made_in_order(text, list, cursor, p);
    if p + 1 < q {
        assert(list[p + 1].start <= list[p + 1].end);
        starts_do_not_go_back(text, list, cursor, p + 1, q);
    }
}

proof fn apart_are_made(text: Seq<u8>, list: Seq<PatchView>, cursor: int)
    requires
        list.len() > 0 ==> cursor <= list[0].start,
        forall|p: int, q: int|
            0 <= p < q < list.len() ==> (#[trigger] list[p]).end <= (#[trigger] list[q]).start,
    ensures
        spliced_from(text, list, cursor) is Ok,
    decreases list.len(),
{
    if list.len() > 0 {
        let rest = list.skip(1);
        if rest.len() > 0 {
            assert(list[0].end <= list[1].start);
        }
        assert forall|p: int, q: int| 0 <= p < q < rest.len() implies (#[trigger] rest[p]).end <= (
        #[trigger] rest[q]).start by {
            assert(list[p + 1].end <= list[q + 1].start);
        }
        apart_are_made(text, rest, list[0].end);
    }
}

/// Every patch is made, each once and in the order of where they start: its bytes stand in
/// the result, and between it and the next stands what stands between them in the text.
/// Before the first and after the last stands what the text has there.
pub proof fn every_patch_is_made(text: Seq<u8>, list: Seq<PatchView>, i: int)
    requires
        spliced(text, list) is Ok,
        patches_within(list, text.len() as int),
        0 <= i < list.len(),
    ensures
        exists|a: Seq<u8>, b: Seq<u8>|
            {
                &&& spliced(text, list)->Ok_0 == #[trigger] (a + list[i].bytes + b)
                &&& (forall|k: int|
                    0 <= k < list.len() ==> !#[trigger] precedes(list, k, i)) ==> a == text.take(
                    list[i].start,
                )
                &&& (forall|k: int|
                    0 <= k < list.len() ==> !#[trigger] precedes(list, i, k)) ==> b == text.skip(
                    list[i].end,
                )
                &&& forall|j: int|
                    0 <= j < list.len() && #[trigger] precedes(list, i, j) && (forall|k: int|
                        0 <= k < list.len() ==> !(#[trigger] precedes(list, i, k) && precedes(
                            list,
                            k,
                            j,
                        ))) ==> exists|c: Seq<u8>|
                        b == #[trigger] (text.subrange(list[i].end, list[j].start) + list[j].bytes
                            + c)
            },
{
    let (to, back) = arrangement(list);
    let order = arranged(list);
    let p = to[i];
    assert forall|q: int| 0 <= q < order.len() implies 0 <= (#[trigger] order[q]).start
        <= order[q].end <= text.len() by {
        assert(to[back[q]] == q);
        assert(list[back[q]].start <= list[back[q]].end);
    }
    let (a, b) = made_in_order(text, order, 0, p);
    assert(order[p] == list[i]);
    if forall|k: int| 0 <= k < list.len() ==> !#[trigger] precedes(list, k, i) {
        if p > 0 {
            let k = back[p - 1];
            assert(to[k] == p - 1);
            if !precedes(list, k, i) && k != i {
                assert(precedes(list, i, k));
                assert(to[i] < to[k]);
            }
            assert(precedes(list, k, i));
        }
        assert(text.subrange(0, list[i].start) =~= text.take(list[i].start));
    }
    if forall|k: int| 0 <= k < list.len() ==> !#[trigger] precedes(list, i, k) {
        if p < list.len() - 1 {
            let k = back[p + 1];
            assert(to[k] == p + 1);
            if !precedes(list, i, k) && k != i {
                assert(precedes(list, k, i));
                assert(to[k] < to[i]);
            }
            assert(precedes(list, i, k));
        }
    }
    assert forall|j: int|
        0 <= j < list.len() && #[trigger] precedes(list, i, j) && (forall|k: int|
            0 <= k < list.len() ==> !(#[trigger] precedes(list, i, k) && precedes(list, k, j)))
        implies exists|c: Seq<u8>|
        b == #[trigger] (text.subrange(list[i].end, list[j].start) + list[j].bytes + c) by {
        assert(to[i] < to[j]);
        let k = back[p + 1];
        assert(to[k] == p + 1);
        if k != j {
            if !precedes(list, i, k) {
                assert(precedes(list, k, i));
                assert(to[k] < to[i]);
            }
            if !precedes(list, k, j) {
                assert(precedes(list, j, k));
                assert(to[j] < to[k]);
            }
            assert(false);
        }
        assert(order[p + 1] == list[j]);
    }
    assert(spliced(text, list)->Ok_0 == a + list[i].bytes + b);
}

/// The bytes of every patch stand in the result.
pub proof fn patches_stand_in_the_result(text: Seq<u8>, list: Seq<PatchView>, i: int) -> (r: (
    Seq<u8>,
    Seq<u8>,
))
    requires
        spliced(text, list) is Ok,
        patches_within(list, text.len() as int),
        0 <= i < list.len(),
    ensures
        spliced(text, list)->Ok_0 == r.0 + list[i].bytes + r.1,
{
    every_patch_is_made(text, list, i);
    choose|a: Seq<u8>, b: Seq<u8>| spliced(text, list)->Ok_0 == #[trigger] (a + list[i].bytes + b)
}

/// Patches are refused exactly where two of them overlap.
pub proof fn only_overlapping_patches_are_refused(text: Seq<u8>, list: Seq<PatchView>)
    requires
        patches_within(list, text.len() as int),
    ensures
        spliced(text, list) is Ok <==> forall|i: int, j: int|
            0 <= i < list.len() && 0 <= j < list.len() && #[trigger] precedes(list, i, j)
                ==> list[i].end <= list[j].start,
        spliced(text, list) matches Err(error) ==> error == Error::OverlappingXml,
{
    let (to, back) = arrangement(list);
    let order = arranged(list);
    assert forall|q: int| 0 <= q < order.len() implies 0 <= (#[trigger] order[q]).start
        <= order[q].end <= text.len() by {
        assert(to[back[q]] == q);
        assert(list[back[q]].start <= list[back[q]].end);
    }
    only_overlaps_are_told(text, order, 0);
    if spliced(text, list) is Ok {
        assert forall|i: int, j: int|
            0 <= i < list.len() && 0 <= j < list.len() && #[trigger] precedes(list, i, j) implies
            list[i].end <= list[j].start by {
            assert(to[i] < to[j]);
            starts_do_not_go_back(text, order, 0, to[i], to[j]);
        }
    }
    if forall|i: int, j: int|
        0 <= i < list.len() && 0 <= j < list.len() && #[trigger] precedes(list, i, j)
            ==> list[i].end <= list[j].start {
        assert forall|p: int, q: int| 0 <= p < q < order.len() implies (#[trigger] order[p]).end
            <= (#[trigger] order[q]).start by {
            let (i, j) = (back[p], back[q]);
            assert(to[i] == p && to[j] == q);
            if !precedes(list, i, j) {
                if i != j {
                    assert(precedes(list, j, i));
                    assert(to[j] < to[i]);
                }
            }
            assert(precedes(list, i, j));
        }
        if order.len() > 0 {
            assert(0 <= order[0].start);
        }
        apart_are_made(text, order, 0);
    }
}

proof fn only_overlaps_are_told(text: Seq<u8>, list: Seq<PatchView>, cursor: int)
    ensures
        spliced_from(text, list, cursor) matches Err(error) ==> error == Error::OverlappingXml,
    decreases list.len(),
{
    if list.len() > 0 {
        only_overlaps_are_told(text, list.skip(1), list[0].end);
    }
}

} // verus!
